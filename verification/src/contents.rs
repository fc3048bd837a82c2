//! Handles to elements, and the sequence of elements that blocks hold in
//! iteration order.
use vstd::prelude::*;

use crate::group::{count_live, lemma_count_live_bounds, GroupId, Group};

verus! {

/// A stable reference to an element of a hive: its block and its slot.
///
/// A handle returned by an insertion stays valid, and keeps naming the same
/// element, until that element is erased; inserting or erasing other
/// elements never changes it.
#[derive(Clone, Copy, Debug, PartialEq, Eq, Structural, Hash, PartialOrd, Ord)]
pub struct Handle {
    pub group: GroupId,
    pub index: u16,
}

/// The entry of slot `i` of `g`: one `(handle, value)` pair if occupied.
pub(crate) open spec fn cell<T>(g: Group<T>, i: int) -> Seq<(Handle, T)> {
    if g.slots@[i] is Some {
        seq![(Handle { group: g.id, index: i as u16 }, g.slots@[i]->0)]
    } else {
        Seq::empty()
    }
}

/// Entries of slots `[a, b)` of `g`, in slot order.
pub(crate) open spec fn slot_entries<T>(g: Group<T>, a: int, b: int) -> Seq<(Handle, T)>
    decreases b - a,
{
    if b <= a {
        Seq::empty()
    } else {
        slot_entries(g, a, b - 1) + cell(g, b - 1)
    }
}

/// Entries of a whole block.
pub(crate) open spec fn group_entries<T>(g: Group<T>) -> Seq<(Handle, T)> {
    slot_entries(g, 0, g.cap())
}

/// Entries of blocks `[a, b)` of `gs`, block after block.
pub(crate) open spec fn groups_entries<T>(gs: Seq<Group<T>>, a: int, b: int) -> Seq<(Handle, T)>
    decreases b - a,
{
    if b <= a {
        Seq::empty()
    } else {
        groups_entries(gs, a, b - 1) + group_entries(gs[b - 1])
    }
}

pub(crate) proof fn lemma_slot_entries_split<T>(g: Group<T>, a: int, b: int, c: int)
    requires
        a <= b <= c,
    ensures
        slot_entries(g, a, c) == slot_entries(g, a, b) + slot_entries(g, b, c),
    decreases c - b,
{
    if c > b {
        lemma_slot_entries_split(g, a, b, c - 1);
        assert(slot_entries(g, a, c) == slot_entries(g, a, b) + slot_entries(g, b, c - 1) + cell(g, c - 1));
    } else {
        assert(slot_entries(g, a, b) + slot_entries(g, b, c) =~= slot_entries(g, a, b));
    }
}

pub(crate) proof fn lemma_slot_entries_len<T>(g: Group<T>, a: int, b: int)
    requires
        0 <= a <= b,
    ensures
        slot_entries(g, a, b).len() == count_live(g.slots@, b) - count_live(g.slots@, a),
    decreases b - a,
{
    if b > a {
        lemma_slot_entries_len(g, a, b - 1);
    }
}

/// Entries depend only on the id and on the slots in range.
pub(crate) proof fn lemma_slot_entries_frame<T>(g1: Group<T>, g2: Group<T>, a: int, b: int)
    requires
        g1.id == g2.id,
        forall|i: int| a <= i < b ==> g1.slots@[i] == g2.slots@[i],
    ensures
        slot_entries(g1, a, b) == slot_entries(g2, a, b),
    decreases b - a,
{
    if b > a {
        lemma_slot_entries_frame(g1, g2, a, b - 1);
        assert(cell(g1, b - 1) == cell(g2, b - 1));
    }
}

/// Every handle among the entries of `[a, b)` names block `g` and a slot in
/// `[a, b)` that is occupied with the entry's value.
pub(crate) proof fn lemma_slot_entries_members<T>(g: Group<T>, a: int, b: int)
    requires
        0 <= a,
        b <= 65535,
    ensures
        forall|k: int|
            0 <= k < slot_entries(g, a, b).len() ==> {
                let (h, v) = #[trigger] slot_entries(g, a, b)[k];
                &&& h.group == g.id
                &&& a <= h.index < b
                &&& g.slots@[h.index as int] == Some(v)
            },
    decreases b - a,
{
    if b > a {
        lemma_slot_entries_members(g, a, b - 1);
        let s = slot_entries(g, a, b - 1);
        assert forall|k: int| 0 <= k < slot_entries(g, a, b).len() implies {
            let (h, v) = #[trigger] slot_entries(g, a, b)[k];
            &&& h.group == g.id
            &&& a <= h.index < b
            &&& g.slots@[h.index as int] == Some(v)
        } by {
            if k < s.len() {
                assert(slot_entries(g, a, b)[k] == s[k]);
            }
        }
    }
}

/// The handles among the entries of `[a, b)` have strictly increasing slots.
pub(crate) proof fn lemma_slot_entries_sorted<T>(g: Group<T>, a: int, b: int)
    requires
        0 <= a,
        b <= 65535,
    ensures
        forall|k1: int, k2: int|
            0 <= k1 < k2 < slot_entries(g, a, b).len() ==> (#[trigger] slot_entries(g, a, b)[k1]).0.index
                < (#[trigger] slot_entries(g, a, b)[k2]).0.index,
    decreases b - a,
{
    if b > a {
        lemma_slot_entries_sorted(g, a, b - 1);
        lemma_slot_entries_members(g, a, b - 1);
        let s = slot_entries(g, a, b - 1);
        assert forall|k1: int, k2: int|
            0 <= k1 < k2 < slot_entries(g, a, b).len() implies (#[trigger] slot_entries(g, a, b)[k1]).0.index
            < (#[trigger] slot_entries(g, a, b)[k2]).0.index by {
            assert(slot_entries(g, a, b)[k1] == s[k1]);
            if k2 < s.len() {
                assert(slot_entries(g, a, b)[k2] == s[k2]);
            }
        }
    }
}

/// Replacing the content of slot `i` replaces its cell.
pub(crate) proof fn lemma_group_entries_update<T>(g: Group<T>, g2: Group<T>, i: int)
    requires
        g.shape_ok(),
        g2.id == g.id,
        g2.capacity == g.capacity,
        0 <= i < g.cap(),
        g2.slots@ == g.slots@.update(i, g2.slots@[i]),
    ensures
        group_entries(g) == slot_entries(g, 0, i) + cell(g, i) + slot_entries(g, i + 1, g.cap()),
        group_entries(g2) == slot_entries(g, 0, i) + cell(g2, i) + slot_entries(g, i + 1, g.cap()),
{
    lemma_slot_entries_split(g, 0, i, g.cap());
    lemma_slot_entries_split(g, i, i + 1, g.cap());
    lemma_slot_entries_split(g2, 0, i, g2.cap());
    lemma_slot_entries_split(g2, i, i + 1, g2.cap());
    lemma_slot_entries_frame(g, g2, 0, i);
    lemma_slot_entries_frame(g, g2, i + 1, g.cap());
    assert(slot_entries(g, i, i) == Seq::<(Handle, T)>::empty());
    assert(slot_entries(g2, i, i) == Seq::<(Handle, T)>::empty());
    assert(slot_entries(g, i, i + 1) =~= cell(g, i));
    assert(slot_entries(g2, i, i + 1) =~= cell(g2, i));
}

/// Number of entries before slot `i` of `g`.
pub(crate) proof fn lemma_entries_before<T>(g: Group<T>, i: int)
    requires
        g.shape_ok(),
        0 <= i < g.cap(),
    ensures
        slot_entries(g, 0, i).len() == count_live(g.slots@, i),
        g.slots@[i] is Some ==> group_entries(g)[count_live(g.slots@, i)] == (
        Handle { group: g.id, index: i as u16 },
        g.slots@[i]->0,
        ),
{
    lemma_slot_entries_len(g, 0, i);
    assert(g.slots@.update(i, g.slots@[i]) =~= g.slots@);
    lemma_group_entries_update(g, g, i);
}

pub(crate) proof fn lemma_groups_entries_split<T>(gs: Seq<Group<T>>, a: int, b: int, c: int)
    requires
        a <= b <= c,
    ensures
        groups_entries(gs, a, c) == groups_entries(gs, a, b) + groups_entries(gs, b, c),
    decreases c - b,
{
    if c > b {
        lemma_groups_entries_split(gs, a, b, c - 1);
        assert(groups_entries(gs, a, c) == groups_entries(gs, a, b) + groups_entries(gs, b, c - 1)
            + group_entries(gs[c - 1]));
    } else {
        assert(groups_entries(gs, a, b) + groups_entries(gs, b, c) =~= groups_entries(gs, a, b));
    }
}

pub(crate) proof fn lemma_groups_entries_frame<T>(gs1: Seq<Group<T>>, gs2: Seq<Group<T>>, a: int, b: int)
    requires
        forall|k: int| a <= k < b ==> group_entries(#[trigger] gs1[k]) == group_entries(gs2[k]),
    ensures
        groups_entries(gs1, a, b) == groups_entries(gs2, a, b),
    decreases b - a,
{
    if b > a {
        lemma_groups_entries_frame(gs1, gs2, a, b - 1);
    }
}

/// Block entries over a shifted range of blocks.
pub(crate) proof fn lemma_groups_entries_shift<T>(gs1: Seq<Group<T>>, gs2: Seq<Group<T>>, a: int, b: int, d: int)
    requires
        forall|k: int| a <= k < b ==> group_entries(#[trigger] gs1[k]) == group_entries(gs2[k + d]),
    ensures
        groups_entries(gs1, a, b) == groups_entries(gs2, a + d, b + d),
    decreases b - a,
{
    if b > a {
        lemma_groups_entries_shift(gs1, gs2, a, b - 1, d);
    }
}

/// Replacing block `k` replaces its entries in the whole sequence.
pub(crate) proof fn lemma_groups_entries_update<T>(gs: Seq<Group<T>>, k: int, g2: Group<T>)
    requires
        0 <= k < gs.len(),
    ensures
        groups_entries(gs, 0, gs.len() as int) == groups_entries(gs, 0, k) + group_entries(gs[k])
            + groups_entries(gs, k + 1, gs.len() as int),
        groups_entries(gs.update(k, g2), 0, gs.len() as int) == groups_entries(gs, 0, k) + group_entries(g2)
            + groups_entries(gs, k + 1, gs.len() as int),
{
    let n = gs.len() as int;
    let gs2 = gs.update(k, g2);
    lemma_groups_entries_split(gs, 0, k, n);
    lemma_groups_entries_split(gs, k, k + 1, n);
    lemma_groups_entries_split(gs2, 0, k, n);
    lemma_groups_entries_split(gs2, k, k + 1, n);
    lemma_groups_entries_frame(gs, gs2, 0, k);
    lemma_groups_entries_frame(gs, gs2, k + 1, n);
    assert(groups_entries(gs, k, k) == Seq::<(Handle, T)>::empty());
    assert(groups_entries(gs2, k, k) == Seq::<(Handle, T)>::empty());
    assert(groups_entries(gs, k, k + 1) =~= group_entries(gs[k]));
    assert(groups_entries(gs2, k, k + 1) =~= group_entries(g2));
}

/// Inserting into the middle of a concatenation.
pub(crate) proof fn lemma_seq_insert_mid<A>(a: Seq<A>, b: Seq<A>, x: A)
    ensures
        (a + b).insert(a.len() as int, x) == a + seq![x] + b,
{
    assert((a + b).insert(a.len() as int, x) =~= a + seq![x] + b);
}

/// Removing from the middle of a concatenation.
pub(crate) proof fn lemma_seq_remove_mid<A>(a: Seq<A>, b: Seq<A>, x: A)
    ensures
        (a + seq![x] + b).remove(a.len() as int) == a + b,
{
    assert((a + seq![x] + b).remove(a.len() as int) =~= a + b);
}


/// Distinct blocks carry distinct ids.
pub(crate) open spec fn ids_distinct<T>(gs: Seq<Group<T>>) -> bool {
    forall|i: int, j: int|
        0 <= i < gs.len() && 0 <= j < gs.len() && i != j ==> (#[trigger] gs[i]).id != (#[trigger] gs[j]).id
}

/// No handle occurs twice among the entries.
pub open spec fn handles_unique<T>(s: Seq<(Handle, T)>) -> bool {
    forall|i: int, j: int| 0 <= i < j < s.len() ==> (#[trigger] s[i]).0 != (#[trigger] s[j]).0
}

/// Entry `x` is held by block `m` of `gs`.
pub(crate) open spec fn held_by<T>(gs: Seq<Group<T>>, m: int, x: (Handle, T)) -> bool {
    &&& x.0.group == gs[m].id
    &&& x.0.index < gs[m].cap()
    &&& gs[m].slots@[x.0.index as int] == Some(x.1)
}

/// Entry `j` of blocks `[a, b)` is held by one of those blocks.
pub(crate) open spec fn entry_held<T>(gs: Seq<Group<T>>, a: int, b: int, j: int) -> bool {
    exists|m: int| a <= m < b && #[trigger] held_by(gs, m, groups_entries(gs, a, b)[j])
}

/// Every entry of blocks `[a, b)` is held by one of those blocks.
pub(crate) proof fn lemma_groups_entries_members<T>(gs: Seq<Group<T>>, a: int, b: int)
    requires
        0 <= a,
        b <= gs.len(),
    ensures
        forall|j: int| 0 <= j < groups_entries(gs, a, b).len() ==> #[trigger] entry_held(gs, a, b, j),
    decreases b - a,
{
    if b > a {
        lemma_groups_entries_members(gs, a, b - 1);
        let p = groups_entries(gs, a, b - 1);
        let g = gs[b - 1];
        lemma_slot_entries_members(g, 0, g.cap());
        assert forall|j: int| 0 <= j < groups_entries(gs, a, b).len() implies #[trigger] entry_held(
            gs,
            a,
            b,
            j,
        ) by {
            let x = groups_entries(gs, a, b)[j];
            if j < p.len() {
                assert(x == p[j]);
                assert(entry_held(gs, a, b - 1, j));
                let m = choose|m: int| a <= m < b - 1 && #[trigger] held_by(gs, m, groups_entries(gs, a, b - 1)[j]);
                assert(held_by(gs, m, x));
            } else {
                assert(x == group_entries(g)[j - p.len()]);
                assert(held_by(gs, b - 1, x));
            }
        }
    }
}

/// With distinct block ids, no handle occurs twice.
pub(crate) proof fn lemma_groups_entries_unique<T>(gs: Seq<Group<T>>, a: int, b: int)
    requires
        0 <= a,
        b <= gs.len(),
        ids_distinct(gs),
    ensures
        handles_unique(groups_entries(gs, a, b)),
    decreases b - a,
{
    if b > a {
        lemma_groups_entries_unique(gs, a, b - 1);
        lemma_groups_entries_members(gs, a, b - 1);
        let p = groups_entries(gs, a, b - 1);
        let g = gs[b - 1];
        let all = groups_entries(gs, a, b);
        lemma_slot_entries_members(g, 0, g.cap());
        lemma_slot_entries_sorted(g, 0, g.cap());
        assert forall|i: int, j: int| 0 <= i < j < all.len() implies (#[trigger] all[i]).0 != (#[trigger] all[j]).0 by {
            if j < p.len() {
                assert(all[i] == p[i] && all[j] == p[j]);
            } else if i >= p.len() {
                assert(all[i] == group_entries(g)[i - p.len()]);
                assert(all[j] == group_entries(g)[j - p.len()]);
            } else {
                assert(all[i] == p[i]);
                assert(all[j] == group_entries(g)[j - p.len()]);
                assert(entry_held(gs, a, b - 1, i));
                let m = choose|m: int| a <= m < b - 1 && #[trigger] held_by(gs, m, groups_entries(gs, a, b - 1)[i]);
                assert(gs[m].id != gs[b - 1].id);
            }
        }
    }
}


/// Sum of a weight over blocks.
pub(crate) open spec fn sum_by<T>(gs: Seq<Group<T>>, w: spec_fn(Group<T>) -> int) -> int
    decreases gs.len(),
{
    if gs.len() == 0 {
        0
    } else {
        sum_by(gs.drop_last(), w) + w(gs.last())
    }
}

/// Total capacity of blocks.
pub(crate) open spec fn sum_caps<T>(gs: Seq<Group<T>>) -> int {
    sum_by(gs, |g: Group<T>| g.cap())
}

/// Total element count of blocks.
pub(crate) open spec fn sum_active<T>(gs: Seq<Group<T>>) -> int {
    sum_by(gs, |g: Group<T>| g.active_count as int)
}

pub(crate) proof fn lemma_sum_concat<T>(a: Seq<Group<T>>, b: Seq<Group<T>>, w: spec_fn(Group<T>) -> int)
    ensures
        sum_by(a + b, w) == sum_by(a, w) + sum_by(b, w),
    decreases b.len(),
{
    if b.len() == 0 {
        assert(a + b =~= a);
    } else {
        assert((a + b).drop_last() =~= a + b.drop_last());
        lemma_sum_concat(a, b.drop_last(), w);
    }
}

pub(crate) proof fn lemma_sum_push<T>(a: Seq<Group<T>>, g: Group<T>, w: spec_fn(Group<T>) -> int)
    ensures
        sum_by(a.push(g), w) == sum_by(a, w) + w(g),
{
    assert(a.push(g).drop_last() =~= a);
}

pub(crate) proof fn lemma_sum_update<T>(a: Seq<Group<T>>, k: int, g: Group<T>, w: spec_fn(Group<T>) -> int)
    requires
        0 <= k < a.len(),
    ensures
        sum_by(a.update(k, g), w) == sum_by(a, w) - w(a[k]) + w(g),
    decreases a.len(),
{
    if k == a.len() - 1 {
        assert(a.update(k, g).drop_last() =~= a.drop_last());
    } else {
        assert(a.update(k, g).drop_last() =~= a.drop_last().update(k, g));
        lemma_sum_update(a.drop_last(), k, g, w);
    }
}

pub(crate) proof fn lemma_sum_remove<T>(a: Seq<Group<T>>, k: int, w: spec_fn(Group<T>) -> int)
    requires
        0 <= k < a.len(),
    ensures
        sum_by(a.remove(k), w) == sum_by(a, w) - w(a[k]),
    decreases a.len(),
{
    if k == a.len() - 1 {
        assert(a.remove(k) =~= a.drop_last());
    } else {
        assert(a.remove(k).drop_last() =~= a.drop_last().remove(k));
        lemma_sum_remove(a.drop_last(), k, w);
    }
}

pub(crate) proof fn lemma_sum_le<T>(a: Seq<Group<T>>, w1: spec_fn(Group<T>) -> int, w2: spec_fn(Group<T>) -> int)
    requires
        forall|k: int| 0 <= k < a.len() ==> w1(#[trigger] a[k]) <= w2(a[k]),
    ensures
        sum_by(a, w1) <= sum_by(a, w2),
    decreases a.len(),
{
    if a.len() > 0 {
        assert forall|k: int| 0 <= k < a.drop_last().len() implies w1(#[trigger] a.drop_last()[k]) <= w2(
            a.drop_last()[k],
        ) by {
            assert(a.drop_last()[k] == a[k]);
        }
        lemma_sum_le(a.drop_last(), w1, w2);
        assert(w1(a.last()) <= w2(a.last()));
    }
}

pub(crate) proof fn lemma_sum_nonneg<T>(a: Seq<Group<T>>, w: spec_fn(Group<T>) -> int)
    requires
        forall|g: Group<T>| #[trigger] w(g) >= 0,
    ensures
        sum_by(a, w) >= 0,
    decreases a.len(),
{
    if a.len() > 0 {
        lemma_sum_nonneg(a.drop_last(), w);
    }
}

/// The number of entries of the blocks is the total of their counts.
pub(crate) proof fn lemma_groups_entries_len<T>(gs: Seq<Group<T>>, b: int)
    requires
        0 <= b <= gs.len(),
        forall|k: int| 0 <= k < b ==> (#[trigger] gs[k]).active_count as int == count_live(gs[k].slots@, gs[k].cap()),
    ensures
        groups_entries(gs, 0, b).len() == sum_active(gs.subrange(0, b)),
    decreases b,
{
    if b > 0 {
        lemma_groups_entries_len(gs, b - 1);
        assert(gs.subrange(0, b).drop_last() =~= gs.subrange(0, b - 1));
        lemma_slot_entries_len(gs[b - 1], 0, gs[b - 1].cap());
        assert(count_live(gs[b - 1].slots@, 0) == 0);
    } else {
        assert(gs.subrange(0, 0).len() == 0);
    }
}


/// Position in the entries of `gs` of slot `i` of block `k`.
pub(crate) open spec fn rank<T>(gs: Seq<Group<T>>, k: int, i: int) -> int {
    groups_entries(gs, 0, k).len() + count_live(gs[k].slots@, i)
}

/// Filling vacant slot `i` of block `k` inserts its entry at the slot's rank.
pub(crate) proof fn lemma_fill_slot<T>(gs: Seq<Group<T>>, k: int, g2: Group<T>, i: int, x: T)
    requires
        0 <= k < gs.len(),
        gs[k].shape_ok(),
        g2.id == gs[k].id,
        g2.capacity == gs[k].capacity,
        0 <= i < gs[k].cap(),
        !gs[k].live(i),
        g2.slots@ == gs[k].slots@.update(i, Some(x)),
    ensures
        0 <= rank(gs, k, i) <= groups_entries(gs, 0, gs.len() as int).len(),
        groups_entries(gs.update(k, g2), 0, gs.len() as int) == groups_entries(gs, 0, gs.len() as int).insert(
            rank(gs, k, i),
            (Handle { group: gs[k].id, index: i as u16 }, x),
        ),
{
    let g = gs[k];
    let n = gs.len() as int;
    lemma_groups_entries_update(gs, k, g2);
    lemma_group_entries_update(g, g2, i);
    lemma_entries_before(g, i);
    let h = Handle { group: g.id, index: i as u16 };
    let pre = groups_entries(gs, 0, k) + slot_entries(g, 0, i);
    let post = slot_entries(g, i + 1, g.cap()) + groups_entries(gs, k + 1, n);
    assert(cell(g, i) =~= Seq::<(Handle, T)>::empty());
    assert(cell(g2, i) =~= seq![(h, x)]);
    assert(groups_entries(gs, 0, n) =~= pre + post);
    assert(groups_entries(gs.update(k, g2), 0, n) =~= pre + seq![(h, x)] + post);
    lemma_seq_insert_mid(pre, post, (h, x));
}

/// Vacating occupied slot `i` of block `k` removes its entry, found at the
/// slot's rank.
pub(crate) proof fn lemma_vacate_slot<T>(gs: Seq<Group<T>>, k: int, g2: Group<T>, i: int)
    requires
        0 <= k < gs.len(),
        gs[k].shape_ok(),
        g2.id == gs[k].id,
        g2.capacity == gs[k].capacity,
        0 <= i < gs[k].cap(),
        gs[k].live(i),
        g2.slots@ == gs[k].slots@.update(i, None),
    ensures
        0 <= rank(gs, k, i) < groups_entries(gs, 0, gs.len() as int).len(),
        groups_entries(gs, 0, gs.len() as int)[rank(gs, k, i)] == (
        Handle { group: gs[k].id, index: i as u16 },
        gs[k].slots@[i]->0,
        ),
        groups_entries(gs.update(k, g2), 0, gs.len() as int) == groups_entries(gs, 0, gs.len() as int).remove(
            rank(gs, k, i),
        ),
{
    let g = gs[k];
    let n = gs.len() as int;
    lemma_groups_entries_update(gs, k, g2);
    lemma_group_entries_update(g, g2, i);
    lemma_entries_before(g, i);
    let h = Handle { group: g.id, index: i as u16 };
    let x = g.slots@[i]->0;
    let pre = groups_entries(gs, 0, k) + slot_entries(g, 0, i);
    let post = slot_entries(g, i + 1, g.cap()) + groups_entries(gs, k + 1, n);
    assert(cell(g2, i) =~= Seq::<(Handle, T)>::empty());
    assert(cell(g, i) =~= seq![(h, x)]);
    assert(groups_entries(gs, 0, n) =~= pre + seq![(h, x)] + post);
    assert(groups_entries(gs.update(k, g2), 0, n) =~= pre + post);
    lemma_seq_remove_mid(pre, post, (h, x));
    assert(groups_entries(gs, 0, n)[pre.len() as int] == (h, x));
}


/// A vacant range has no entries.
pub(crate) proof fn lemma_slot_entries_vacant<T>(g: Group<T>, a: int, b: int)
    requires
        crate::group::vacant_range(g.slots@, a, b),
    ensures
        slot_entries(g, a, b) == Seq::<(Handle, T)>::empty(),
    decreases b - a,
{
    if b > a {
        lemma_slot_entries_vacant(g, a, b - 1);
        assert(!(g.slots@[b - 1] is Some));
        assert(cell(g, b - 1) =~= Seq::<(Handle, T)>::empty());
        assert(slot_entries(g, a, b) =~= Seq::<(Handle, T)>::empty());
    }
}

/// A block whose only occupied slot is slot zero has that one entry.
pub(crate) proof fn lemma_single_entry<T>(g: Group<T>)
    requires
        g.shape_ok(),
        g.slots@[0] is Some,
        crate::group::vacant_range(g.slots@, 1, g.cap()),
    ensures
        group_entries(g) == seq![(Handle { group: g.id, index: 0 }, g.slots@[0]->0)],
{
    lemma_slot_entries_split(g, 0, 1, g.cap());
    lemma_slot_entries_vacant(g, 1, g.cap());
    assert(slot_entries(g, 0, 0) == Seq::<(Handle, T)>::empty());
    assert(slot_entries(g, 0, 1) =~= cell(g, 0));
    assert(group_entries(g) =~= cell(g, 0));
}

/// Blocks `[0, n)` keep their entries when a block is pushed after them.
pub(crate) proof fn lemma_groups_entries_push<T>(gs: Seq<Group<T>>, g: Group<T>)
    ensures
        groups_entries(gs.push(g), 0, gs.len() + 1 as int) == groups_entries(gs, 0, gs.len() as int) + group_entries(g),
{
    lemma_groups_entries_frame(gs, gs.push(g), 0, gs.len() as int);
}

/// If one block weighs strictly less than under another weight and none
/// more, so does the sum.
pub(crate) proof fn lemma_sum_lt<T>(a: Seq<Group<T>>, w1: spec_fn(Group<T>) -> int, w2: spec_fn(Group<T>) -> int, k: int)
    requires
        0 <= k < a.len(),
        forall|j: int| 0 <= j < a.len() ==> w1(#[trigger] a[j]) <= w2(a[j]),
        w1(a[k]) < w2(a[k]),
    ensures
        sum_by(a, w1) < sum_by(a, w2),
    decreases a.len(),
{
    assert forall|j: int| 0 <= j < a.drop_last().len() implies w1(#[trigger] a.drop_last()[j]) <= w2(
        a.drop_last()[j],
    ) by {
        assert(a.drop_last()[j] == a[j]);
    }
    if k == a.len() - 1 {
        lemma_sum_le(a.drop_last(), w1, w2);
    } else {
        assert(a.drop_last()[k] == a[k]);
        lemma_sum_lt(a.drop_last(), w1, w2, k);
        assert(w1(a.last()) <= w2(a.last()));
    }
}


/// A block with one element has that one entry.
pub(crate) proof fn lemma_group_entries_single<T>(g: Group<T>, i: int)
    requires
        g.shape_ok(),
        0 <= i < g.cap(),
        g.slots@[i] is Some,
        count_live(g.slots@, g.cap()) == 1,
    ensures
        group_entries(g) == seq![(Handle { group: g.id, index: i as u16 }, g.slots@[i]->0)],
{
    lemma_slot_entries_len(g, 0, g.cap());
    assert(count_live(g.slots@, 0) == 0);
    lemma_entries_before(g, i);
    lemma_count_live_bounds(g.slots@, i);
    crate::group::lemma_count_live_mono(g.slots@, i + 1, g.cap());
    assert(count_live(g.slots@, i) == 0);
    assert(group_entries(g) =~= seq![(Handle { group: g.id, index: i as u16 }, g.slots@[i]->0)]);
}

/// Removing block `k` removes its entries from the whole sequence.
pub(crate) proof fn lemma_groups_entries_remove<T>(gs: Seq<Group<T>>, k: int)
    requires
        0 <= k < gs.len(),
    ensures
        groups_entries(gs, 0, gs.len() as int) == groups_entries(gs, 0, k) + group_entries(gs[k])
            + groups_entries(gs, k + 1, gs.len() as int),
        groups_entries(gs.remove(k), 0, gs.len() - 1) == groups_entries(gs, 0, k) + groups_entries(
            gs,
            k + 1,
            gs.len() as int,
        ),
{
    let n = gs.len() as int;
    let r = gs.remove(k);
    lemma_groups_entries_update(gs, k, gs[k]);
    lemma_groups_entries_split(r, 0, k, n - 1);
    lemma_groups_entries_frame(r, gs, 0, k);
    lemma_groups_entries_shift(r, gs, k, n - 1, 1);
}


/// Among blocks of non-negative weight, the sum is at least the weight of
/// any one block.
pub(crate) proof fn lemma_sum_pos<T>(a: Seq<Group<T>>, w: spec_fn(Group<T>) -> int, k: int)
    requires
        0 <= k < a.len(),
        forall|j: int| 0 <= j < a.len() ==> w(#[trigger] a[j]) >= 0,
    ensures
        sum_by(a, w) >= w(a[k]),
    decreases a.len(),
{
    assert forall|j: int| 0 <= j < a.drop_last().len() implies w(#[trigger] a.drop_last()[j]) >= 0 by {
        assert(a.drop_last()[j] == a[j]);
    }
    if k == a.len() - 1 {
        lemma_sum_nonneg_on(a.drop_last(), w);
    } else {
        assert(a.drop_last()[k] == a[k]);
        lemma_sum_pos(a.drop_last(), w, k);
        assert(w(a.last()) >= 0);
    }
}

/// Non-negative weights on the blocks make a non-negative sum.
pub(crate) proof fn lemma_sum_nonneg_on<T>(a: Seq<Group<T>>, w: spec_fn(Group<T>) -> int)
    requires
        forall|j: int| 0 <= j < a.len() ==> w(#[trigger] a[j]) >= 0,
    ensures
        sum_by(a, w) >= 0,
    decreases a.len(),
{
    if a.len() > 0 {
        assert forall|j: int| 0 <= j < a.drop_last().len() implies w(#[trigger] a.drop_last()[j]) >= 0 by {
            assert(a.drop_last()[j] == a[j]);
        }
        lemma_sum_nonneg_on(a.drop_last(), w);
        assert(w(a.last()) >= 0);
    }
}


/// Changing the value in occupied slot `i` of block `k` changes its entry,
/// found at the slot's rank.
pub(crate) proof fn lemma_set_slot<T>(gs: Seq<Group<T>>, k: int, g2: Group<T>, i: int, x: T)
    requires
        0 <= k < gs.len(),
        gs[k].shape_ok(),
        g2.id == gs[k].id,
        g2.capacity == gs[k].capacity,
        0 <= i < gs[k].cap(),
        gs[k].live(i),
        g2.slots@ == gs[k].slots@.update(i, Some(x)),
    ensures
        0 <= rank(gs, k, i) < groups_entries(gs, 0, gs.len() as int).len(),
        groups_entries(gs, 0, gs.len() as int)[rank(gs, k, i)] == (
        Handle { group: gs[k].id, index: i as u16 },
        gs[k].slots@[i]->0,
        ),
        groups_entries(gs.update(k, g2), 0, gs.len() as int) == groups_entries(gs, 0, gs.len() as int).update(
            rank(gs, k, i),
            (Handle { group: gs[k].id, index: i as u16 }, x),
        ),
{
    let g = gs[k];
    let n = gs.len() as int;
    lemma_groups_entries_update(gs, k, g2);
    lemma_group_entries_update(g, g2, i);
    lemma_entries_before(g, i);
    let h = Handle { group: g.id, index: i as u16 };
    let y = g.slots@[i]->0;
    let pre = groups_entries(gs, 0, k) + slot_entries(g, 0, i);
    let post = slot_entries(g, i + 1, g.cap()) + groups_entries(gs, k + 1, n);
    assert(cell(g2, i) =~= seq![(h, x)]);
    assert(cell(g, i) =~= seq![(h, y)]);
    assert(groups_entries(gs, 0, n) =~= pre + seq![(h, y)] + post);
    assert(groups_entries(gs.update(k, g2), 0, n) =~= pre + seq![(h, x)] + post);
    assert((pre + seq![(h, y)] + post).update(pre.len() as int, (h, x)) =~= pre + seq![(h, x)] + post);
}


/// The entries of block `g`, and of `g2`, which has occupied slots `i < j`
/// of `g` set to `x` and `y`, around those two slots.
#[verifier::spinoff_prover]
#[verifier::rlimit(40)]
proof fn lemma_group_two_slots<T>(g: Group<T>, g2: Group<T>, i: int, j: int, x: T, y: T)
    requires
        g.shape_ok(),
        g2.id == g.id,
        g2.capacity == g.capacity,
        0 <= i < j < g.cap(),
        g.live(i),
        g.live(j),
        g2.slots@ == g.slots@.update(i, Some(x)).update(j, Some(y)),
    ensures
        group_entries(g) == slot_entries(g, 0, i) + seq![(Handle { group: g.id, index: i as u16 }, g.slots@[i]->0)]
            + slot_entries(g, i + 1, j) + seq![(Handle { group: g.id, index: j as u16 }, g.slots@[j]->0)]
            + slot_entries(g, j + 1, g.cap()),
        group_entries(g2) == slot_entries(g, 0, i) + seq![(Handle { group: g.id, index: i as u16 }, x)]
            + slot_entries(g, i + 1, j) + seq![(Handle { group: g.id, index: j as u16 }, y)]
            + slot_entries(g, j + 1, g.cap()),
        slot_entries(g, 0, i).len() == count_live(g.slots@, i),
        slot_entries(g, 0, i).len() + 1 + slot_entries(g, i + 1, j).len() == count_live(g.slots@, j),
{
    let c = g.cap();
    lemma_slot_entries_split(g, 0, i, c);
    lemma_slot_entries_split(g, i, i + 1, c);
    lemma_slot_entries_split(g, i + 1, j, c);
    lemma_slot_entries_split(g, j, j + 1, c);
    lemma_slot_entries_split(g2, 0, i, c);
    lemma_slot_entries_split(g2, i, i + 1, c);
    lemma_slot_entries_split(g2, i + 1, j, c);
    lemma_slot_entries_split(g2, j, j + 1, c);
    lemma_slot_entries_frame(g, g2, 0, i);
    lemma_slot_entries_frame(g, g2, i + 1, j);
    lemma_slot_entries_frame(g, g2, j + 1, c);
    lemma_slot_entries_len(g, 0, i);
    lemma_slot_entries_len(g, i + 1, j);
    lemma_slot_entries_len(g, 0, j);
    lemma_slot_entries_split(g, 0, i, j);
    lemma_slot_entries_split(g, i, i + 1, j);
    assert(count_live(g.slots@, 0) == 0);
    assert(slot_entries(g, i, i) == Seq::<(Handle, T)>::empty());
    assert(slot_entries(g2, i, i) == Seq::<(Handle, T)>::empty());
    assert(slot_entries(g, j, j) == Seq::<(Handle, T)>::empty());
    assert(slot_entries(g2, j, j) == Seq::<(Handle, T)>::empty());
    assert(slot_entries(g, i, i + 1) =~= cell(g, i));
    assert(slot_entries(g2, i, i + 1) =~= cell(g2, i));
    assert(slot_entries(g, j, j + 1) =~= cell(g, j));
    assert(slot_entries(g2, j, j + 1) =~= cell(g2, j));
    assert(g2.slots@[i] == Some(x));
    assert(g2.slots@[j] == Some(y));
}

/// Setting occupied slots `i < j` of block `k` to `x` and `y` sets the
/// entries at their ranks.
pub(crate) proof fn lemma_set_two_slots<T>(gs: Seq<Group<T>>, k: int, g2: Group<T>, i: int, j: int, x: T, y: T)
    requires
        0 <= k < gs.len(),
        gs[k].shape_ok(),
        g2.id == gs[k].id,
        g2.capacity == gs[k].capacity,
        0 <= i < j < gs[k].cap(),
        gs[k].live(i),
        gs[k].live(j),
        g2.slots@ == gs[k].slots@.update(i, Some(x)).update(j, Some(y)),
    ensures
        rank(gs, k, i) < rank(gs, k, j) < groups_entries(gs, 0, gs.len() as int).len(),
        groups_entries(gs, 0, gs.len() as int)[rank(gs, k, i)] == (
        Handle { group: gs[k].id, index: i as u16 },
        gs[k].slots@[i]->0,
        ),
        groups_entries(gs, 0, gs.len() as int)[rank(gs, k, j)] == (
        Handle { group: gs[k].id, index: j as u16 },
        gs[k].slots@[j]->0,
        ),
        groups_entries(gs.update(k, g2), 0, gs.len() as int) == groups_entries(gs, 0, gs.len() as int).update(
            rank(gs, k, i),
            (Handle { group: gs[k].id, index: i as u16 }, x),
        ).update(rank(gs, k, j), (Handle { group: gs[k].id, index: j as u16 }, y)),
{
    let g = gs[k];
    let n = gs.len() as int;
    let c = g.cap();
    lemma_groups_entries_update(gs, k, g2);
    lemma_group_two_slots(g, g2, i, j, x, y);
    let hi = Handle { group: g.id, index: i as u16 };
    let hj = Handle { group: g.id, index: j as u16 };
    let pre = groups_entries(gs, 0, k);
    let post = groups_entries(gs, k + 1, n);
    let a = slot_entries(g, 0, i);
    let b = slot_entries(g, i + 1, j);
    let d = slot_entries(g, j + 1, c);
    let e1 = pre + a + seq![(hi, g.slots@[i]->0)] + b + seq![(hj, g.slots@[j]->0)] + d + post;
    let e2 = pre + a + seq![(hi, x)] + b + seq![(hj, y)] + d + post;
    assert(groups_entries(gs, 0, n) =~= e1);
    assert(groups_entries(gs.update(k, g2), 0, n) =~= e2);
    let ri = (pre.len() + a.len()) as int;
    let rj = (pre.len() + a.len() + 1 + b.len()) as int;
    assert(rank(gs, k, i) == ri);
    assert(rank(gs, k, j) == rj);
    assert(e1[ri] == (hi, g.slots@[i]->0));
    assert(e1[rj] == (hj, g.slots@[j]->0));
    assert(e1.update(ri, (hi, x)).update(rj, (hj, y)) =~= e2);
}

/// Blocks of equal weights, position by position, have equal sums.
pub(crate) proof fn lemma_sum_eq<T>(a: Seq<Group<T>>, b: Seq<Group<T>>, w: spec_fn(Group<T>) -> int)
    requires
        a.len() == b.len(),
        forall|j: int| 0 <= j < a.len() ==> w(#[trigger] a[j]) == w(b[j]),
    ensures
        sum_by(a, w) == sum_by(b, w),
    decreases a.len(),
{
    if a.len() > 0 {
        assert forall|j: int| 0 <= j < a.drop_last().len() implies w(#[trigger] a.drop_last()[j]) == w(
            b.drop_last()[j],
        ) by {
            assert(a.drop_last()[j] == a[j]);
            assert(b.drop_last()[j] == b[j]);
        }
        lemma_sum_eq(a.drop_last(), b.drop_last(), w);
        assert(w(a.last()) == w(b.last()));
    }
}


/// Blocks that differ only in ids hold the same values, in the same order.
pub(crate) proof fn lemma_entries_values_same<T>(gs1: Seq<Group<T>>, gs2: Seq<Group<T>>, b: int)
    requires
        0 <= b <= gs1.len(),
        gs1.len() == gs2.len(),
        forall|k: int| 0 <= k < gs1.len() ==> (#[trigger] gs1[k]).slots@ == gs2[k].slots@ && gs1[k].capacity
            == gs2[k].capacity,
    ensures
        groups_entries(gs1, 0, b).map_values(|p: (Handle, T)| p.1) == groups_entries(gs2, 0, b).map_values(
            |p: (Handle, T)| p.1,
        ),
    decreases b,
{
    if b > 0 {
        lemma_entries_values_same(gs1, gs2, b - 1);
        lemma_slot_values_same(gs1[b - 1], gs2[b - 1], gs1[b - 1].cap());
        let p1 = groups_entries(gs1, 0, b - 1);
        let p2 = groups_entries(gs2, 0, b - 1);
        let e1 = group_entries(gs1[b - 1]);
        let e2 = group_entries(gs2[b - 1]);
        assert((p1 + e1).map_values(|p: (Handle, T)| p.1) =~= p1.map_values(|p: (Handle, T)| p.1) + e1.map_values(
            |p: (Handle, T)| p.1,
        ));
        assert((p2 + e2).map_values(|p: (Handle, T)| p.1) =~= p2.map_values(|p: (Handle, T)| p.1) + e2.map_values(
            |p: (Handle, T)| p.1,
        ));
    }
}

proof fn lemma_slot_values_same<T>(g1: Group<T>, g2: Group<T>, b: int)
    requires
        g1.slots@ == g2.slots@,
    ensures
        slot_entries(g1, 0, b).map_values(|p: (Handle, T)| p.1) == slot_entries(g2, 0, b).map_values(
            |p: (Handle, T)| p.1,
        ),
    decreases b,
{
    if b > 0 {
        lemma_slot_values_same(g1, g2, b - 1);
        let p1 = slot_entries(g1, 0, b - 1);
        let p2 = slot_entries(g2, 0, b - 1);
        assert((p1 + cell(g1, b - 1)).map_values(|p: (Handle, T)| p.1) =~= p1.map_values(|p: (Handle, T)| p.1)
            + cell(g1, b - 1).map_values(|p: (Handle, T)| p.1));
        assert((p2 + cell(g2, b - 1)).map_values(|p: (Handle, T)| p.1) =~= p2.map_values(|p: (Handle, T)| p.1)
            + cell(g2, b - 1).map_values(|p: (Handle, T)| p.1));
        assert(cell(g1, b - 1).map_values(|p: (Handle, T)| p.1) =~= cell(g2, b - 1).map_values(|p: (Handle, T)| p.1));
    }
}

/// Entries of two runs of blocks, one after the other.
pub(crate) proof fn lemma_groups_entries_concat<T>(a: Seq<Group<T>>, b: Seq<Group<T>>)
    ensures
        groups_entries(a + b, 0, (a.len() + b.len()) as int) == groups_entries(a, 0, a.len() as int) + groups_entries(
            b,
            0,
            b.len() as int,
        ),
{
    let ab = a + b;
    lemma_groups_entries_split(ab, 0, a.len() as int, (a.len() + b.len()) as int);
    lemma_groups_entries_frame(ab, a, 0, a.len() as int);
    assert forall|k: int| a.len() <= k < a.len() + b.len() implies group_entries(#[trigger] ab[k]) == group_entries(
        b[k - a.len()],
    ) by {
    }
    lemma_groups_entries_shift(ab, b, a.len() as int, (a.len() + b.len()) as int, -(a.len() as int));
}

} // verus!
