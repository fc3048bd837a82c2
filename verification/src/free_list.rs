//! The free list of erased skipblocks kept inside each block, and the
//! skipfield updates that erasure and slot reuse make.
use vstd::prelude::*;

use crate::group::{count_live, lemma_count_live_update, vacant_range, Group, NO_SLOT};

verus! {

impl<T> Group<T> {
    /// Everything but the free-list links is as in `other`.
    pub(crate) open spec fn links_only_changed(&self, other: &Self) -> bool {
        &&& self.id == other.id
        &&& self.capacity == other.capacity
        &&& self.active_count == other.active_count
        &&& self.slots@ == other.slots@
        &&& self.skipfield@ == other.skipfield@
        &&& self.prev_free@.len() == other.prev_free@.len()
        &&& self.next_free@.len() == other.next_free@.len()
    }

    /// Links `index` in as the new head of the free list.
    #[verifier::spinoff_prover]
    fn push_node(&mut self, index: u16) -> (was_empty: bool)
        requires
            old(self).shape_ok(),
            old(self).links_ok(old(self).free_order@),
            index < old(self).capacity,
            !old(self).free_order@.contains(index as int),
        ensures
            final(self).links_only_changed(old(self)),
            final(self).free_order@ == seq![index as int] + old(self).free_order@,
            final(self).links_ok(final(self).free_order@),
            was_empty == (old(self).free_order@.len() == 0),
    {
        let ghost q = self.free_order@;
        let old_head = self.free_list_head;
        self.prev_free.set(index as usize, NO_SLOT);
        self.next_free.set(index as usize, old_head);
        if old_head != NO_SLOT {
            assert(q.len() > 0 && old_head == q[0]);
            self.prev_free.set(old_head as usize, index);
        }
        self.free_list_head = index;
        self.free_order = Ghost(seq![index as int] + q);
        proof {
            let nq = self.free_order@;
            assert forall|k: int| 0 <= k < nq.len() implies self.next_free@[#[trigger] nq[k]] as int
                == if k + 1 < nq.len() {
                nq[k + 1]
            } else {
                NO_SLOT as int
            } by {
                if k > 0 {
                    assert(nq[k] == q[k - 1]);
                }
            }
            assert forall|k: int| 0 <= k < nq.len() implies self.prev_free@[#[trigger] nq[k]] as int
                == if k > 0 {
                nq[k - 1]
            } else {
                NO_SLOT as int
            } by {
                if k > 1 {
                    assert(nq[k] == q[k - 1]);
                    assert(q[k - 1] != q[0]);
                }
            }
            assert(nq.no_duplicates()) by {
                assert forall|a: int, b: int| 0 <= a < nq.len() && 0 <= b < nq.len() && a != b implies nq[a]
                    != nq[b] by {
                    if a > 0 && b > 0 {
                        assert(nq[a] == q[a - 1] && nq[b] == q[b - 1]);
                    } else if a == 0 {
                        assert(nq[b] == q[b - 1]);
                    } else {
                        assert(nq[a] == q[a - 1]);
                    }
                }
            }
        }
        old_head == NO_SLOT
    }

    /// Unlinks `index` from the free list.
    #[verifier::spinoff_prover]
    #[verifier::rlimit(60)]
    fn remove_node(&mut self, index: u16)
        requires
            old(self).shape_ok(),
            old(self).links_ok(old(self).free_order@),
            old(self).free_order@.contains(index as int),
        ensures
            final(self).links_only_changed(old(self)),
            final(self).free_order@ == old(self).free_order@.remove(
                old(self).free_order@.index_of(index as int),
            ),
            final(self).links_ok(final(self).free_order@),
    {
        let ghost q = self.free_order@;
        let ghost p = q.index_of(index as int);
        proof {
            assert(q.contains(index as int));
        }
        let prev = self.prev_free[index as usize];
        let next = self.next_free[index as usize];
        if prev != NO_SLOT {
            assert(p > 0 && prev == q[p - 1]);
            self.next_free.set(prev as usize, next);
        } else {
            assert(p == 0);
            self.free_list_head = next;
        }
        if next != NO_SLOT {
            assert(p + 1 < q.len() && next == q[p + 1]);
            self.prev_free.set(next as usize, prev);
        }
        self.free_order = Ghost(q.remove(p));
        proof {
            let nq = self.free_order@;
            assert forall|k: int| 0 <= k < nq.len() implies self.next_free@[#[trigger] nq[k]] as int
                == if k + 1 < nq.len() {
                nq[k + 1]
            } else {
                NO_SLOT as int
            } by {
                if k < p {
                    assert(nq[k] == q[k]);
                    if k + 1 < p {
                        assert(nq[k + 1] == q[k + 1]);
                    }
                    if k + 1 == p {
                        assert(q[k] == q[p - 1]);
                    } else {
                        assert(q[k] != q[p - 1]);
                    }
                } else {
                    assert(nq[k] == q[k + 1]);
                    if p > 0 {
                        assert(q[k + 1] != q[p - 1]);
                    }
                    if k + 1 < nq.len() {
                        assert(nq[k + 1] == q[k + 2]);
                    }
                }
            }
            assert forall|k: int| 0 <= k < nq.len() implies self.prev_free@[#[trigger] nq[k]] as int
                == if k > 0 {
                nq[k - 1]
            } else {
                NO_SLOT as int
            } by {
                if k < p {
                    assert(nq[k] == q[k]);
                    if p + 1 < q.len() {
                        assert(q[k] != q[p + 1]);
                    }
                    if k > 0 {
                        assert(nq[k - 1] == q[k - 1]);
                    }
                } else {
                    assert(nq[k] == q[k + 1]);
                    if k == p {
                        assert(q[k + 1] == q[p + 1]);
                    } else {
                        assert(q[k + 1] != q[p + 1]);
                        assert(nq[k - 1] == q[k]);
                    }
                }
            }
            assert(nq.no_duplicates()) by {
                assert forall|a: int, b: int| 0 <= a < nq.len() && 0 <= b < nq.len() && a != b implies nq[a]
                    != nq[b] by {
                    let a0 = if a < p {
                        a
                    } else {
                        a + 1
                    };
                    let b0 = if b < p {
                        b
                    } else {
                        b + 1
                    };
                    assert(nq[a] == q[a0] && nq[b] == q[b0]);
                }
            }
        }
    }

    /// Moves the free-list node at `old_index` to `new_index`, keeping its
    /// place in the list.
    #[verifier::spinoff_prover]
    fn move_node(&mut self, old_index: u16, new_index: u16)
        requires
            old(self).shape_ok(),
            old(self).links_ok(old(self).free_order@),
            old(self).free_order@.contains(old_index as int),
            !old(self).free_order@.contains(new_index as int),
            new_index < old(self).capacity,
        ensures
            final(self).links_only_changed(old(self)),
            final(self).free_order@ == old(self).free_order@.update(
                old(self).free_order@.index_of(old_index as int),
                new_index as int,
            ),
            final(self).links_ok(final(self).free_order@),
    {
        let ghost q = self.free_order@;
        let ghost p = q.index_of(old_index as int);
        proof {
            assert(q.contains(old_index as int));
        }
        let prev = self.prev_free[old_index as usize];
        let next = self.next_free[old_index as usize];
        self.prev_free.set(new_index as usize, prev);
        self.next_free.set(new_index as usize, next);
        if prev != NO_SLOT {
            assert(p > 0 && prev == q[p - 1]);
            self.next_free.set(prev as usize, new_index);
        } else {
            assert(p == 0);
            self.free_list_head = new_index;
        }
        if next != NO_SLOT {
            assert(p + 1 < q.len() && next == q[p + 1]);
            self.prev_free.set(next as usize, new_index);
        }
        self.free_order = Ghost(q.update(p, new_index as int));
        proof {
            let nq = self.free_order@;
            assert forall|k: int| 0 <= k < nq.len() implies self.next_free@[#[trigger] nq[k]] as int
                == if k + 1 < nq.len() {
                nq[k + 1]
            } else {
                NO_SLOT as int
            } by {
                if k != p {
                    assert(nq[k] == q[k]);
                    assert(q[k] != new_index);
                    if k + 1 == p {
                        assert(q[k] == q[p - 1]);
                    } else if p > 0 {
                        assert(q[k] != q[p - 1]);
                    }
                }
            }
            assert forall|k: int| 0 <= k < nq.len() implies self.prev_free@[#[trigger] nq[k]] as int
                == if k > 0 {
                nq[k - 1]
            } else {
                NO_SLOT as int
            } by {
                if k != p {
                    assert(nq[k] == q[k]);
                    assert(q[k] != new_index);
                    if k == p + 1 {
                        assert(q[k] == q[p + 1]);
                    } else if p + 1 < q.len() {
                        assert(q[k] != q[p + 1]);
                    }
                }
            }
            assert(nq.no_duplicates()) by {
                assert forall|a: int, b: int| 0 <= a < nq.len() && 0 <= b < nq.len() && a != b implies nq[a]
                    != nq[b] by {
                    if a != p && b != p {
                        assert(nq[a] == q[a] && nq[b] == q[b]);
                    } else if a == p {
                        assert(nq[b] == q[b]);
                    } else {
                        assert(nq[a] == q[a]);
                    }
                }
            }
        }
    }
}


impl<T> Group<T> {
    /// Run starts other than near `index` are unaffected when only slot
    /// `index` changes occupancy.
    pub(crate) proof fn lemma_run_start_frame(o: Self, n: Self, index: int, s: int, e: int)
        requires
            forall|i: int| 0 <= i < o.slots@.len() && i != index ==> n.live(i) == o.live(i),
            e <= o.slots@.len(),
            s != index,
            s != index + 1,
        ensures
            n.is_run_start(s, e) == o.is_run_start(s, e),
    {
    }

    /// Two different skipblock starts: the earlier block ends before the
    /// later one begins.
    pub(crate) proof fn lemma_runs_apart(&self, s1: int, s2: int, e: int)
        requires
            self.skip_ok(e),
            self.is_run_start(s1, e),
            self.is_run_start(s2, e),
            s1 < s2,
        ensures
            s1 + self.sf(s1) < s2,
    {
        assert(self.run_start_ok(s1, e));
        let l = self.sf(s1);
        if s2 < s1 + l {
            assert(!(self.slots@[s2 - 1] is Some));
        }
        if s2 == s1 + l {
            assert(self.live(s1 + l));
        }
    }
}


impl<T> Group<T> {
    /// Shared facts about erasing an occupied slot `index`, before the
    /// skipfield is rewritten.
    pub(crate) open spec fn erase_pre(o: Self, n: Self, index: int, e: int) -> bool {
        &&& o.shape_ok()
        &&& o.skip_ok(e)
        &&& 0 <= index < e
        &&& o.live(index)
        &&& n.capacity == o.capacity
        &&& n.slots@ == o.slots@.update(index, None)
        &&& n.skipfield@.len() == o.skipfield@.len()
    }

    /// Erasing a slot with occupied (or no) neighbours opens a new skipblock.
    proof fn lemma_erase_isolated(o: Self, n: Self, index: int, e: int)
        requires
            Self::erase_pre(o, n, index, e),
            index == 0 || o.live(index - 1),
            index + 1 == e || o.live(index + 1),
            n.skipfield@ == o.skipfield@.update(index, 1),
        ensures
            n.skip_ok(e),
            forall|s: int| #[trigger] n.is_run_start(s, e) <==> (s == index || o.is_run_start(s, e)),
    {
        assert forall|i: int| 0 <= i < o.slots@.len() && i != index implies n.live(i) == o.live(i) by {
        }
        assert forall|s: int| #[trigger] n.is_run_start(s, e) <==> (s == index || o.is_run_start(s, e)) by {
            if s != index && s != index + 1 {
                Self::lemma_run_start_frame(o, n, index, s, e);
            }
        }
        assert forall|i: int| 0 <= i < e implies (#[trigger] n.live(i) <==> n.sf(i) == 0) by {
            if i != index {
                assert(o.live(i) <==> o.sf(i) == 0);
            }
        }
        assert forall|i: int| e <= i <= n.cap() implies #[trigger] n.sf(i) == 0 by {
            assert(o.sf(i) == 0);
        }
        assert forall|i: int| e <= i < n.cap() implies !#[trigger] n.live(i) by {
            assert(!o.live(i));
        }
        assert forall|s: int| #[trigger] n.is_run_start(s, e) implies n.run_start_ok(s, e) by {
            if s != index {
                assert(o.is_run_start(s, e));
                assert(o.run_start_ok(s, e));
                let l = o.sf(s);
                if s < index {
                    assert(s + l <= index) by {
                        if s + l > index {
                            assert(!(o.slots@[index] is Some));
                        }
                    }
                    if s + l == index {
                        assert(o.live(index - 1) || index == 0);
                        assert(!(o.slots@[index - 1] is Some));
                    }
                }
                assert(vacant_range(n.slots@, s, s + l));
            }
        }
        assert forall|t: int| #[trigger] n.is_run_end(t, e) implies n.run_end_ok(t, e) by {
            if t != index {
                assert(t != index - 1);
                assert(o.is_run_end(t, e));
                assert(o.run_end_ok(t, e));
                let l = o.sf(t);
                assert(o.is_run_start(t - l + 1, e));
                assert(t - l + 1 != index + 1) by {
                    if t - l + 1 == index + 1 {
                        assert(o.live(index));
                    }
                }
                Self::lemma_run_start_frame(o, n, index, t - l + 1, e);
            }
        }
    }
}


impl<T> Group<T> {
    /// Erasing the slot right after a skipblock extends that block.
    proof fn lemma_erase_extend_left(o: Self, n: Self, index: int, e: int)
        requires
            Self::erase_pre(o, n, index, e),
            index > 0,
            !o.live(index - 1),
            index + 1 == e || o.live(index + 1),
            n.skipfield@ == o.skipfield@.update(index - o.sf(index - 1), (o.sf(index - 1) + 1) as u16).update(
                index,
                (o.sf(index - 1) + 1) as u16,
            ),
        ensures
            n.skip_ok(e),
            forall|s: int| #[trigger] n.is_run_start(s, e) <==> o.is_run_start(s, e),
    {
        assert forall|i: int| 0 <= i < o.slots@.len() && i != index implies n.live(i) == o.live(i) by {
        }
        assert(o.is_run_end(index - 1, e));
        assert(o.run_end_ok(index - 1, e));
        let l = o.sf(index - 1);
        let ls = index - l;
        assert(o.is_run_start(ls, e));
        assert(o.run_start_ok(ls, e));
        assert forall|s: int| #[trigger] n.is_run_start(s, e) <==> o.is_run_start(s, e) by {
            if s != index && s != index + 1 {
                Self::lemma_run_start_frame(o, n, index, s, e);
            }
        }
        assert forall|i: int| 0 <= i < e implies (#[trigger] n.live(i) <==> n.sf(i) == 0) by {
            if i != index && i != ls {
                assert(o.live(i) <==> o.sf(i) == 0);
            }
        }
        assert forall|i: int| e <= i <= n.cap() implies #[trigger] n.sf(i) == 0 by {
            assert(o.sf(i) == 0);
        }
        assert forall|i: int| e <= i < n.cap() implies !#[trigger] n.live(i) by {
            assert(!o.live(i));
        }
        assert forall|s: int| #[trigger] n.is_run_start(s, e) implies n.run_start_ok(s, e) by {
            assert(o.is_run_start(s, e));
            assert(o.run_start_ok(s, e));
            if s == ls {
                assert(vacant_range(n.slots@, s, s + l + 1)) by {
                    assert forall|j: int| s <= j < s + l + 1 implies !(#[trigger] n.slots@[j] is Some) by {
                        if j < s + l {
                            assert(!(o.slots@[j] is Some));
                        }
                    }
                }
            } else if s < ls {
                o.lemma_runs_apart(s, ls, e);
                let ll = o.sf(s);
                assert(vacant_range(n.slots@, s, s + ll));
            } else {
                o.lemma_runs_apart(ls, s, e);
                let ll = o.sf(s);
                assert(s > index + 1);
                assert(vacant_range(n.slots@, s, s + ll));
            }
        }
        assert forall|t: int| #[trigger] n.is_run_end(t, e) implies n.run_end_ok(t, e) by {
            if t != index {
                assert(t != index - 1);
                assert(o.is_run_end(t, e));
                assert(o.run_end_ok(t, e));
                let ll = o.sf(t);
                let st = t - ll + 1;
                assert(o.is_run_start(st, e));
                assert(o.run_start_ok(st, e));
                if st < ls {
                    o.lemma_runs_apart(st, ls, e);
                } else if st > ls {
                    o.lemma_runs_apart(ls, st, e);
                } else {
                    assert(o.sf(st) == ll);
                    assert(ls + l - 1 == index - 1);
                }
                assert(n.is_run_start(st, e));
            }
        }
    }

    /// Erasing the slot right before a skipblock makes it the block's new
    /// start.
    proof fn lemma_erase_extend_right(o: Self, n: Self, index: int, e: int)
        requires
            Self::erase_pre(o, n, index, e),
            index == 0 || o.live(index - 1),
            index + 1 < e,
            !o.live(index + 1),
            n.skipfield@ == o.skipfield@.update(index, (o.sf(index + 1) + 1) as u16).update(
                index + o.sf(index + 1),
                (o.sf(index + 1) + 1) as u16,
            ),
        ensures
            n.skip_ok(e),
            forall|s: int| #[trigger]
                n.is_run_start(s, e) <==> (s == index || (s != index + 1 && o.is_run_start(s, e))),
    {
        assert forall|i: int| 0 <= i < o.slots@.len() && i != index implies n.live(i) == o.live(i) by {
        }
        assert(o.is_run_start(index + 1, e));
        assert(o.run_start_ok(index + 1, e));
        let r = o.sf(index + 1);
        let end = index + r;
        assert forall|s: int| #[trigger]
            n.is_run_start(s, e) <==> (s == index || (s != index + 1 && o.is_run_start(s, e))) by {
            if s != index && s != index + 1 {
                Self::lemma_run_start_frame(o, n, index, s, e);
            }
        }
        assert forall|i: int| 0 <= i < e implies (#[trigger] n.live(i) <==> n.sf(i) == 0) by {
            if i != index && i != end {
                assert(o.live(i) <==> o.sf(i) == 0);
            }
            if i == end {
                assert(!(o.slots@[end] is Some));
            }
        }
        assert forall|i: int| e <= i <= n.cap() implies #[trigger] n.sf(i) == 0 by {
            assert(o.sf(i) == 0);
        }
        assert forall|i: int| e <= i < n.cap() implies !#[trigger] n.live(i) by {
            assert(!o.live(i));
        }
        assert forall|s: int| #[trigger] n.is_run_start(s, e) implies n.run_start_ok(s, e) by {
            if s == index {
                assert(vacant_range(n.slots@, s, s + r + 1)) by {
                    assert forall|j: int| s <= j < s + r + 1 implies !(#[trigger] n.slots@[j] is Some) by {
                        if j > s {
                            assert(!(o.slots@[j] is Some));
                        }
                    }
                }
            } else {
                assert(o.is_run_start(s, e));
                assert(o.run_start_ok(s, e));
                let ll = o.sf(s);
                if s < index {
                    o.lemma_runs_apart(s, index + 1, e);
                } else {
                    o.lemma_runs_apart(index + 1, s, e);
                }
                assert(vacant_range(n.slots@, s, s + ll));
            }
        }
        assert forall|t: int| #[trigger] n.is_run_end(t, e) implies n.run_end_ok(t, e) by {
            assert(t != index);
            assert(o.is_run_end(t, e));
            assert(o.run_end_ok(t, e));
            let ll = o.sf(t);
            let st = t - ll + 1;
            assert(o.is_run_start(st, e));
            assert(o.run_start_ok(st, e));
            if st < index + 1 {
                o.lemma_runs_apart(st, index + 1, e);
                assert(n.is_run_start(st, e));
            } else if st > index + 1 {
                o.lemma_runs_apart(index + 1, st, e);
                assert(n.is_run_start(st, e));
            } else {
                assert(t == end);
                assert(n.is_run_start(index, e));
            }
        }
    }

    /// Erasing the slot between two skipblocks joins them.
    proof fn lemma_erase_join(o: Self, n: Self, index: int, e: int)
        requires
            Self::erase_pre(o, n, index, e),
            index > 0,
            !o.live(index - 1),
            index + 1 < e,
            !o.live(index + 1),
            n.skipfield@ == o.skipfield@.update(index, 1).update(
                index - o.sf(index - 1),
                (o.sf(index - 1) + o.sf(index + 1) + 1) as u16,
            ).update(index + o.sf(index + 1), (o.sf(index - 1) + o.sf(index + 1) + 1) as u16),
        ensures
            n.skip_ok(e),
            forall|s: int| #[trigger] n.is_run_start(s, e) <==> (s != index + 1 && o.is_run_start(s, e)),
    {
        assert forall|i: int| 0 <= i < o.slots@.len() && i != index implies n.live(i) == o.live(i) by {
        }
        assert(o.is_run_end(index - 1, e));
        assert(o.run_end_ok(index - 1, e));
        let l = o.sf(index - 1);
        let ls = index - l;
        assert(o.is_run_start(ls, e));
        assert(o.run_start_ok(ls, e));
        assert(o.is_run_start(index + 1, e));
        assert(o.run_start_ok(index + 1, e));
        let r = o.sf(index + 1);
        let end = index + r;
        let nl = l + r + 1;
        assert forall|s: int| #[trigger] n.is_run_start(s, e) <==> (s != index + 1 && o.is_run_start(s, e)) by {
            if s != index && s != index + 1 {
                Self::lemma_run_start_frame(o, n, index, s, e);
            }
        }
        assert forall|i: int| 0 <= i < e implies (#[trigger] n.live(i) <==> n.sf(i) == 0) by {
            if i != index && i != end && i != ls {
                assert(o.live(i) <==> o.sf(i) == 0);
            }
            if i == end {
                assert(!(o.slots@[end] is Some));
            }
        }
        assert forall|i: int| e <= i <= n.cap() implies #[trigger] n.sf(i) == 0 by {
            assert(o.sf(i) == 0);
        }
        assert forall|i: int| e <= i < n.cap() implies !#[trigger] n.live(i) by {
            assert(!o.live(i));
        }
        assert forall|s: int| #[trigger] n.is_run_start(s, e) implies n.run_start_ok(s, e) by {
            assert(o.is_run_start(s, e));
            assert(o.run_start_ok(s, e));
            if s == ls {
                assert(vacant_range(n.slots@, s, s + nl)) by {
                    assert forall|j: int| s <= j < s + nl implies !(#[trigger] n.slots@[j] is Some) by {
                        if j < index {
                            assert(!(o.slots@[j] is Some));
                        } else if j > index {
                            assert(!(o.slots@[j] is Some));
                        }
                    }
                }
            } else if s < ls {
                o.lemma_runs_apart(s, ls, e);
                let ll = o.sf(s);
                assert(vacant_range(n.slots@, s, s + ll));
            } else {
                o.lemma_runs_apart(ls, s, e);
                o.lemma_runs_apart(index + 1, s, e);
                let ll = o.sf(s);
                assert(vacant_range(n.slots@, s, s + ll));
            }
        }
        assert forall|t: int| #[trigger] n.is_run_end(t, e) implies n.run_end_ok(t, e) by {
            assert(t != index && t != index - 1);
            assert(o.is_run_end(t, e));
            assert(o.run_end_ok(t, e));
            let ll = o.sf(t);
            let st = t - ll + 1;
            assert(o.is_run_start(st, e));
            assert(o.run_start_ok(st, e));
            if st < ls {
                o.lemma_runs_apart(st, ls, e);
                assert(n.is_run_start(st, e));
            } else if st > index + 1 {
                o.lemma_runs_apart(index + 1, st, e);
                assert(n.is_run_start(st, e));
            } else if st == index + 1 {
                assert(t == end);
                assert(n.is_run_start(ls, e));
            } else {
                assert(st == ls) by {
                    if st != ls {
                        o.lemma_runs_apart(ls, st, e);
                    }
                }
                assert(t == index - 1);
            }
        }
    }
}


impl<T> Group<T> {
    /// State right after the element in slot `index` of `o` was taken out,
    /// before the skipfield and free list are updated.
    pub(crate) open spec fn erase_mid(o: Self, n: Self, index: int, e: int) -> bool {
        &&& o.wf(e)
        &&& 0 <= index < e
        &&& o.live(index)
        &&& n.id == o.id
        &&& n.capacity == o.capacity
        &&& n.slots@ == o.slots@.update(index, None)
        &&& n.skipfield@ == o.skipfield@
        &&& n.prev_free@ == o.prev_free@
        &&& n.next_free@ == o.next_free@
        &&& n.free_list_head == o.free_list_head
        &&& n.free_order@ == o.free_order@
    }

    /// Skipfield and free-list facts carry over to a block with the same
    /// slots, skipfield and capacity.
    pub(crate) proof fn lemma_skip_congruent(a: Self, b: Self, e: int)
        requires
            a.skip_ok(e),
            a.slots@ == b.slots@,
            a.skipfield@ == b.skipfield@,
            a.capacity == b.capacity,
        ensures
            b.skip_ok(e),
            forall|s: int| #[trigger] b.is_run_start(s, e) == a.is_run_start(s, e),
    {
        assert forall|i: int| 0 <= i < e implies (#[trigger] b.live(i) <==> b.sf(i) == 0) by {
            assert(a.live(i) <==> a.sf(i) == 0);
        }
        assert forall|i: int| e <= i <= b.cap() implies #[trigger] b.sf(i) == 0 by {
            assert(a.sf(i) == 0);
        }
        assert forall|i: int| e <= i < b.cap() implies !#[trigger] b.live(i) by {
            assert(!a.live(i));
        }
        assert forall|s: int| #[trigger] b.is_run_start(s, e) implies b.run_start_ok(s, e) by {
            assert(a.is_run_start(s, e));
            assert(a.run_start_ok(s, e));
        }
        assert forall|t: int| #[trigger] b.is_run_end(t, e) implies b.run_end_ok(t, e) by {
            assert(a.is_run_end(t, e));
            assert(a.run_end_ok(t, e));
        }
    }

    /// Dropping skipblock start `x` from the free list keeps it matching the
    /// skipblock starts when `x` is the only start that went away.
    proof fn lemma_free_after_remove(o: Self, f: Self, x: int, e: int)
        requires
            o.free_ok(e),
            o.is_run_start(x, e),
            f.links_ok(f.free_order@),
            f.free_order@ == o.free_order@.remove(o.free_order@.index_of(x)),
            forall|s: int| #[trigger] f.is_run_start(s, e) <==> (s != x && o.is_run_start(s, e)),
        ensures
            f.free_ok(e),
            f.free_order@.len() + 1 == o.free_order@.len(),
    {
        let q = o.free_order@;
        let nq = f.free_order@;
        assert(q.contains(x));
        let p = q.index_of(x);
        assert forall|k: int| 0 <= k < nq.len() implies f.is_run_start(#[trigger] nq[k], e) by {
            let k0 = if k < p {
                k
            } else {
                k + 1
            };
            assert(nq[k] == q[k0]);
            assert(o.is_run_start(q[k0], e));
            assert(q[k0] != x);
        }
        assert forall|s: int| #[trigger] f.is_run_start(s, e) implies nq.contains(s) by {
            assert(o.is_run_start(s, e));
            let k = q.index_of(s);
            assert(k != p);
            if k < p {
                assert(nq[k] == s);
            } else {
                assert(nq[k - 1] == s);
            }
        }
    }

    /// Renaming skipblock start `x` to `y` in the free list keeps it matching
    /// the skipblock starts when that is the only change among them.
    proof fn lemma_free_after_move(o: Self, f: Self, x: int, y: int, e: int)
        requires
            o.free_ok(e),
            o.is_run_start(x, e),
            !o.free_order@.contains(y),
            f.links_ok(f.free_order@),
            f.free_order@ == o.free_order@.update(o.free_order@.index_of(x), y),
            forall|s: int| #[trigger] f.is_run_start(s, e) <==> (s == y || (s != x && o.is_run_start(s, e))),
        ensures
            f.free_ok(e),
            f.free_order@.len() == o.free_order@.len(),
    {
        let q = o.free_order@;
        let nq = f.free_order@;
        assert(q.contains(x));
        let p = q.index_of(x);
        assert forall|k: int| 0 <= k < nq.len() implies f.is_run_start(#[trigger] nq[k], e) by {
            if k != p {
                assert(nq[k] == q[k]);
                assert(o.is_run_start(q[k], e));
                assert(q[k] != x);
            }
        }
        assert forall|s: int| #[trigger] f.is_run_start(s, e) implies nq.contains(s) by {
            if s != y {
                assert(o.is_run_start(s, e));
                let k = q.index_of(s);
                assert(k != p);
                assert(nq[k] == s);
            } else {
                assert(nq[p] == s);
            }
        }
    }

    /// An occupied slot is not on the free list.
    proof fn lemma_not_free(o: Self, index: int, e: int)
        requires
            o.free_ok(e),
            o.live(index),
        ensures
            !o.free_order@.contains(index),
    {
        let q = o.free_order@;
        if q.contains(index) {
            let k = q.index_of(index);
            assert(o.is_run_start(q[k], e));
        }
    }

    /// What an erasure step leaves behind.
    pub(crate) open spec fn erase_post(o: Self, n: Self, f: Self, e: int) -> bool {
        &&& f.shape_ok()
        &&& f.skip_ok(e)
        &&& f.free_ok(e)
        &&& f.id == n.id
        &&& f.capacity == n.capacity
        &&& f.slots@ == n.slots@
        &&& f.active_count == n.active_count
        &&& f.free_order@.len() > 0
    }

    fn erase_isolated(&mut self, index: u16, Ghost(o): Ghost<Self>, Ghost(e): Ghost<int>) -> (was_empty: bool)
        requires
            Self::erase_mid(o, *old(self), index as int, e),
            index == 0 || o.live(index - 1),
            index + 1 == e || o.live(index + 1),
        ensures
            Self::erase_post(o, *old(self), *final(self), e),
            was_empty == (o.free_order@.len() == 0),
    {
        reveal(Group::wf);
        let ghost q = o.free_order@;
        let idx = index as usize;
        self.skipfield.set(idx, 1);
        proof {
            Self::lemma_erase_isolated(o, *self, index as int, e);
            assert(!q.contains(index as int)) by {
                if q.contains(index as int) {
                    let k = q.index_of(index as int);
                    assert(o.is_run_start(q[k], e));
                }
            }
        }
        let ghost mid = *self;
        let was_empty = self.push_node(index);
        proof {
            Self::lemma_skip_congruent(mid, *self, e);
            let nq = self.free_order@;
            assert forall|k: int| 0 <= k < nq.len() implies self.is_run_start(#[trigger] nq[k], e) by {
                assert(mid.is_run_start(nq[k], e));
                if k > 0 {
                    assert(nq[k] == q[k - 1]);
                }
            }
            assert forall|s: int| #[trigger] self.is_run_start(s, e) implies nq.contains(s) by {
                assert(mid.is_run_start(s, e));
                if s != index {
                    assert(o.is_run_start(s, e));
                    let k = q.index_of(s);
                    assert(nq[k + 1] == s);
                } else {
                    assert(nq[0] == s);
                }
            }
        }
        was_empty
    }

    fn erase_extend_left(&mut self, index: u16, Ghost(o): Ghost<Self>, Ghost(e): Ghost<int>)
        requires
            Self::erase_mid(o, *old(self), index as int, e),
            index > 0,
            !o.live(index - 1),
            index + 1 == e || o.live(index + 1),
        ensures
            Self::erase_post(o, *old(self), *final(self), e),
            o.free_order@.len() > 0,
    {
        reveal(Group::wf);
        let ghost q = o.free_order@;
        let idx = index as usize;
        let left_len = self.skipfield[idx - 1];
        proof {
            assert(o.is_run_end(idx - 1, e));
            assert(o.run_end_ok(idx - 1, e));
        }
        let new_len = left_len + 1;
        self.skipfield.set(idx - left_len as usize, new_len);
        self.skipfield.set(idx, new_len);
        proof {
            Self::lemma_erase_extend_left(o, *self, index as int, e);
            assert(q.len() > 0) by {
                assert(o.is_run_start(idx - left_len, e));
            }
        }
    }

    #[verifier::spinoff_prover]
    #[verifier::rlimit(50)]
    fn erase_extend_right(&mut self, index: u16, Ghost(o): Ghost<Self>, Ghost(e): Ghost<int>)
        requires
            Self::erase_mid(o, *old(self), index as int, e),
            index == 0 || o.live(index - 1),
            index + 1 < e,
            !o.live(index + 1),
        ensures
            Self::erase_post(o, *old(self), *final(self), e),
            o.free_order@.len() > 0,
    {
        reveal(Group::wf);
        let ghost q = o.free_order@;
        let idx = index as usize;
        let right_len = self.skipfield[idx + 1];
        proof {
            assert(o.is_run_start(idx + 1, e));
            assert(o.run_start_ok(idx + 1, e));
        }
        let new_len = right_len + 1;
        let end = idx + new_len as usize - 1;
        self.skipfield.set(idx, new_len);
        self.skipfield.set(end, new_len);
        proof {
            Self::lemma_erase_extend_right(o, *self, index as int, e);
            Self::lemma_not_free(o, index as int, e);
            assert(q.contains(idx + 1));
        }
        let ghost mid = *self;
        self.move_node(index + 1, index);
        proof {
            Self::lemma_skip_congruent(mid, *self, e);
            Self::lemma_free_after_move(o, *self, (idx + 1) as int, index as int, e);
        }
    }

    #[verifier::spinoff_prover]
    #[verifier::rlimit(50)]
    fn erase_join(&mut self, index: u16, Ghost(o): Ghost<Self>, Ghost(e): Ghost<int>)
        requires
            Self::erase_mid(o, *old(self), index as int, e),
            index > 0,
            !o.live(index - 1),
            index + 1 < e,
            !o.live(index + 1),
        ensures
            Self::erase_post(o, *old(self), *final(self), e),
            o.free_order@.len() > 0,
    {
        reveal(Group::wf);
        let ghost q = o.free_order@;
        let idx = index as usize;
        let left_len = self.skipfield[idx - 1];
        let right_len = self.skipfield[idx + 1];
        proof {
            assert(o.is_run_end(idx - 1, e));
            assert(o.run_end_ok(idx - 1, e));
            assert(o.is_run_start(idx + 1, e));
            assert(o.run_start_ok(idx + 1, e));
            o.lemma_runs_apart((idx - left_len) as int, idx + 1, e);
        }
        let new_len = left_len + right_len + 1;
        let left_start = idx - left_len as usize;
        let end = idx + right_len as usize;
        self.skipfield.set(idx, 1);
        self.skipfield.set(left_start, new_len);
        self.skipfield.set(end, new_len);
        proof {
            Self::lemma_erase_join(o, *self, index as int, e);
            assert(q.contains(idx + 1));
        }
        let ghost mid = *self;
        self.remove_node(index + 1);
        proof {
            Self::lemma_skip_congruent(mid, *self, e);
            Self::lemma_free_after_remove(o, *self, (idx + 1) as int, e);
        }
    }

    /// Removes the element in occupied slot `index` and records the slot as
    /// erased: it joins the skipblocks next to it, or opens a new one at the
    /// head of the free list. Returns whether the free list was empty before.
    pub(crate) fn erase_at(&mut self, index: u16, Ghost(e): Ghost<int>) -> (res: (T, bool))
        requires
            old(self).wf(e),
            index < e,
            old(self).live(index as int),
        ensures
            final(self).wf(e),
            final(self).id == old(self).id,
            final(self).capacity == old(self).capacity,
            final(self).slots@ == old(self).slots@.update(index as int, None),
            old(self).slots@[index as int] == Some(res.0),
            final(self).active_count == old(self).active_count - 1,
            res.1 == (old(self).free_order@.len() == 0),
            final(self).free_order@.len() > 0,
    {
        reveal(Group::wf);
        let ghost o = *self;
        proof {
            lemma_count_live_update(o.slots@, index as int, None, o.cap());
            crate::group::lemma_count_live_bounds(o.slots@.update(index as int, None), o.cap());
        }
        let mut taken: Option<T> = None;
        core::mem::swap(&mut self.slots[index as usize], &mut taken);
        self.active_count = self.active_count - 1;
        let idx = index as usize;
        proof {
            assert(o.live(idx as int) <==> o.sf(idx as int) == 0);
            if idx > 0 {
                assert(o.live(idx - 1) <==> o.sf(idx - 1) == 0);
            }
            if idx + 1 < e {
                assert(o.live(idx + 1) <==> o.sf(idx + 1) == 0);
            } else {
                assert(o.sf(idx + 1) == 0);
            }
        }
        let prev_erased = index > 0 && self.skipfield[idx - 1] != 0;
        let next_erased = self.skipfield[idx + 1] != 0;
        let was_empty = if !prev_erased && !next_erased {
            self.erase_isolated(index, Ghost(o), Ghost(e))
        } else if prev_erased && !next_erased {
            self.erase_extend_left(index, Ghost(o), Ghost(e));
            false
        } else if !prev_erased && next_erased {
            self.erase_extend_right(index, Ghost(o), Ghost(e));
            false
        } else {
            self.erase_join(index, Ghost(o), Ghost(e));
            false
        };
        (taken.unwrap(), was_empty)
    }
}


impl<T> Group<T> {
    /// Shared facts about filling vacant slot `h`, the start of a skipblock.
    pub(crate) open spec fn reuse_pre(o: Self, n: Self, h: int, e: int) -> bool {
        &&& o.shape_ok()
        &&& o.skip_ok(e)
        &&& o.is_run_start(h, e)
        &&& n.capacity == o.capacity
        &&& n.slots@ == o.slots@.update(h, n.slots@[h])
        &&& n.slots@[h] is Some
        &&& n.skipfield@.len() == o.skipfield@.len()
    }

    /// Filling a skipblock of length one removes it.
    proof fn lemma_reuse_single(o: Self, n: Self, h: int, e: int)
        requires
            Self::reuse_pre(o, n, h, e),
            o.sf(h) == 1,
            n.skipfield@ == o.skipfield@.update(h, 0),
        ensures
            n.skip_ok(e),
            forall|s: int| #[trigger] n.is_run_start(s, e) <==> (s != h && o.is_run_start(s, e)),
    {
        assert forall|i: int| 0 <= i < o.slots@.len() && i != h implies n.live(i) == o.live(i) by {
        }
        assert(o.run_start_ok(h, e));
        assert forall|s: int| #[trigger] n.is_run_start(s, e) <==> (s != h && o.is_run_start(s, e)) by {
            if s != h && s != h + 1 {
                Self::lemma_run_start_frame(o, n, h, s, e);
            }
        }
        assert forall|i: int| 0 <= i < e implies (#[trigger] n.live(i) <==> n.sf(i) == 0) by {
            if i != h {
                assert(o.live(i) <==> o.sf(i) == 0);
            }
        }
        assert forall|i: int| e <= i <= n.cap() implies #[trigger] n.sf(i) == 0 by {
            assert(o.sf(i) == 0);
        }
        assert forall|i: int| e <= i < n.cap() implies !#[trigger] n.live(i) by {
            assert(!o.live(i));
        }
        assert forall|s: int| #[trigger] n.is_run_start(s, e) implies n.run_start_ok(s, e) by {
            assert(o.is_run_start(s, e));
            assert(o.run_start_ok(s, e));
            let l = o.sf(s);
            if s < h {
                o.lemma_runs_apart(s, h, e);
            } else {
                o.lemma_runs_apart(h, s, e);
            }
            assert(vacant_range(n.slots@, s, s + l));
        }
        assert forall|t: int| #[trigger] n.is_run_end(t, e) implies n.run_end_ok(t, e) by {
            assert(t != h);
            assert(o.is_run_end(t, e));
            assert(o.run_end_ok(t, e));
            let l = o.sf(t);
            let st = t - l + 1;
            assert(o.is_run_start(st, e));
            assert(o.run_start_ok(st, e));
            if st < h {
                o.lemma_runs_apart(st, h, e);
            } else if st > h {
                o.lemma_runs_apart(h, st, e);
            }
            assert(n.is_run_start(st, e));
        }
    }

    /// Filling the first slot of a longer skipblock shortens it from the
    /// front.
    proof fn lemma_reuse_front(o: Self, n: Self, h: int, e: int)
        requires
            Self::reuse_pre(o, n, h, e),
            o.sf(h) > 1,
            n.skipfield@ == o.skipfield@.update(h, 0).update(h + 1, (o.sf(h) - 1) as u16).update(
                h + o.sf(h) - 1,
                (o.sf(h) - 1) as u16,
            ),
        ensures
            n.skip_ok(e),
            forall|s: int| #[trigger]
                n.is_run_start(s, e) <==> (s == h + 1 || (s != h && o.is_run_start(s, e))),
    {
        assert forall|i: int| 0 <= i < o.slots@.len() && i != h implies n.live(i) == o.live(i) by {
        }
        assert(o.run_start_ok(h, e));
        let l = o.sf(h);
        let end = h + l - 1;
        assert(!(o.slots@[h + 1] is Some));
        assert forall|s: int| #[trigger]
            n.is_run_start(s, e) <==> (s == h + 1 || (s != h && o.is_run_start(s, e))) by {
            if s != h && s != h + 1 {
                Self::lemma_run_start_frame(o, n, h, s, e);
            }
        }
        assert forall|i: int| 0 <= i < e implies (#[trigger] n.live(i) <==> n.sf(i) == 0) by {
            if i != h && i != h + 1 && i != end {
                assert(o.live(i) <==> o.sf(i) == 0);
            }
            if i == end {
                assert(!(o.slots@[end] is Some));
            }
        }
        assert forall|i: int| e <= i <= n.cap() implies #[trigger] n.sf(i) == 0 by {
            assert(o.sf(i) == 0);
        }
        assert forall|i: int| e <= i < n.cap() implies !#[trigger] n.live(i) by {
            assert(!o.live(i));
        }
        assert forall|s: int| #[trigger] n.is_run_start(s, e) implies n.run_start_ok(s, e) by {
            if s == h + 1 {
                assert(vacant_range(n.slots@, s, s + l - 1)) by {
                    assert forall|j: int| s <= j < s + l - 1 implies !(#[trigger] n.slots@[j] is Some) by {
                        assert(!(o.slots@[j] is Some));
                    }
                }
            } else {
                assert(o.is_run_start(s, e));
                assert(o.run_start_ok(s, e));
                let ll = o.sf(s);
                if s < h {
                    o.lemma_runs_apart(s, h, e);
                } else {
                    o.lemma_runs_apart(h, s, e);
                }
                assert(vacant_range(n.slots@, s, s + ll));
            }
        }
        assert forall|t: int| #[trigger] n.is_run_end(t, e) implies n.run_end_ok(t, e) by {
            assert(t != h);
            assert(o.is_run_end(t, e));
            assert(o.run_end_ok(t, e));
            let ll = o.sf(t);
            let st = t - ll + 1;
            assert(o.is_run_start(st, e));
            assert(o.run_start_ok(st, e));
            if st < h {
                o.lemma_runs_apart(st, h, e);
                assert(n.is_run_start(st, e));
            } else if st > h {
                o.lemma_runs_apart(h, st, e);
                assert(n.is_run_start(st, e));
            } else {
                assert(t == end);
                assert(n.is_run_start(h + 1, e));
            }
        }
    }

    /// Puts `value` into the first slot of the skipblock at the head of the
    /// free list, shrinking that block from the front. Returns the slot and
    /// whether the free list is now empty.
    #[verifier::spinoff_prover]
    #[verifier::rlimit(50)]
    pub(crate) fn consume_head(&mut self, value: T, Ghost(e): Ghost<int>) -> (res: (u16, bool))
        requires
            old(self).wf(e),
            old(self).free_order@.len() > 0,
        ensures
            final(self).wf(e),
            final(self).id == old(self).id,
            final(self).capacity == old(self).capacity,
            res.0 == old(self).free_list_head,
            res.0 == old(self).free_order@[0],
            old(self).is_run_start(res.0 as int, e),
            final(self).slots@ == old(self).slots@.update(res.0 as int, Some(value)),
            final(self).active_count == old(self).active_count + 1,
            res.1 == (final(self).free_order@.len() == 0),
            res.1 == (old(self).sf(res.0 as int) == 1 && old(self).free_order@.len() == 1),
    {
        reveal(Group::wf);
        let ghost o = *self;
        let ghost q = o.free_order@;
        let index = self.free_list_head;
        let idx = index as usize;
        proof {
            assert(o.is_run_start(q[0], e));
            assert(o.run_start_ok(q[0], e));
            lemma_count_live_update(o.slots@, idx as int, Some(value), o.cap());
            crate::group::lemma_count_live_bounds(o.slots@.update(idx as int, Some(value)), o.cap());
        }
        let old_len = self.skipfield[idx];
        let mut v = Some(value);
        core::mem::swap(&mut self.slots[idx], &mut v);
        self.active_count = self.active_count + 1;
        if old_len == 1 {
            self.skipfield.set(idx, 0);
            proof {
                Self::lemma_reuse_single(o, *self, idx as int, e);
            }
            let ghost mid = *self;
            self.remove_node(index);
            proof {
                Self::lemma_skip_congruent(mid, *self, e);
                Self::lemma_free_after_remove(o, *self, idx as int, e);
                assert(q.index_of(idx as int) == 0) by {
                    assert(q[0] == idx);
                }
            }
        } else {
            let new_len = old_len - 1;
            let end = idx + old_len as usize - 1;
            self.skipfield.set(idx, 0);
            self.skipfield.set(idx + 1, new_len);
            self.skipfield.set(end, new_len);
            proof {
                Self::lemma_reuse_front(o, *self, idx as int, e);
                assert(!q.contains(idx + 1)) by {
                    if q.contains(idx + 1) {
                        let k = q.index_of(idx + 1);
                        assert(o.is_run_start(q[k], e));
                    }
                }
            }
            let ghost mid = *self;
            self.move_node(index, index + 1);
            proof {
                Self::lemma_skip_congruent(mid, *self, e);
                Self::lemma_free_after_move(o, *self, idx as int, idx + 1, e);
            }
        }
        let empty = self.free_list_head == NO_SLOT;
        (index, empty)
    }
}


impl<T> Group<T> {
    /// Constructing one more slot at the end keeps the skipblocks as they
    /// are.
    proof fn lemma_append(o: Self, n: Self, e: int)
        requires
            o.shape_ok(),
            o.skip_ok(e),
            e < o.cap(),
            n.capacity == o.capacity,
            n.slots@ == o.slots@.update(e, n.slots@[e]),
            n.slots@[e] is Some,
            n.skipfield@ == o.skipfield@,
        ensures
            n.skip_ok(e + 1),
            forall|s: int| #[trigger] n.is_run_start(s, e + 1) <==> o.is_run_start(s, e),
    {
        assert forall|i: int| 0 <= i < o.slots@.len() && i != e implies n.live(i) == o.live(i) by {
        }
        assert forall|s: int| #[trigger] n.is_run_start(s, e + 1) <==> o.is_run_start(s, e) by {
            if s != e && s != e + 1 {
                Self::lemma_run_start_frame(o, n, e, s, e);
            }
        }
        assert forall|i: int| 0 <= i < e + 1 implies (#[trigger] n.live(i) <==> n.sf(i) == 0) by {
            if i != e {
                assert(o.live(i) <==> o.sf(i) == 0);
            } else {
                assert(o.sf(e) == 0);
            }
        }
        assert forall|i: int| e + 1 <= i <= n.cap() implies #[trigger] n.sf(i) == 0 by {
            assert(o.sf(i) == 0);
        }
        assert forall|i: int| e + 1 <= i < n.cap() implies !#[trigger] n.live(i) by {
            assert(!o.live(i));
        }
        assert forall|s: int| #[trigger] n.is_run_start(s, e + 1) implies n.run_start_ok(s, e + 1) by {
            assert(o.is_run_start(s, e));
            assert(o.run_start_ok(s, e));
            let l = o.sf(s);
            assert(vacant_range(n.slots@, s, s + l));
        }
        assert forall|t: int| #[trigger] n.is_run_end(t, e + 1) implies n.run_end_ok(t, e + 1) by {
            assert(o.is_run_end(t, e));
            assert(o.run_end_ok(t, e));
            let l = o.sf(t);
            assert(o.is_run_start(t - l + 1, e));
            assert(n.is_run_start(t - l + 1, e + 1));
        }
    }

    /// Constructs `value` in the first never-used slot `at`.
    pub(crate) fn append_at(&mut self, value: T, at: u16)
        requires
            old(self).wf(at as int),
            at < old(self).capacity,
        ensures
            final(self).wf(at + 1),
            final(self).id == old(self).id,
            final(self).capacity == old(self).capacity,
            final(self).slots@ == old(self).slots@.update(at as int, Some(value)),
            final(self).active_count == old(self).active_count + 1,
            final(self).free_order@ == old(self).free_order@,
    {
        reveal(Group::wf);
        let ghost o = *self;
        let ghost e = at as int;
        proof {
            assert(!o.live(e));
            lemma_count_live_update(o.slots@, e, Some(value), o.cap());
            crate::group::lemma_count_live_bounds(o.slots@.update(e, Some(value)), o.cap());
        }
        let mut v = Some(value);
        core::mem::swap(&mut self.slots[at as usize], &mut v);
        self.active_count = self.active_count + 1;
        proof {
            Self::lemma_append(o, *self, e);
            let q = self.free_order@;
            assert forall|k: int| 0 <= k < q.len() implies self.is_run_start(#[trigger] q[k], e + 1) by {
                assert(o.is_run_start(q[k], e));
            }
            assert forall|s: int| #[trigger] self.is_run_start(s, e + 1) implies q.contains(s) by {
                assert(o.is_run_start(s, e));
            }
        }
    }
}


impl<T> Group<T> {
    /// A block with an empty free list has no erased slot: every constructed
    /// slot is occupied and the count equals the construction bound.
    pub(crate) proof fn lemma_no_free_all_live(&self, e: int)
        requires
            self.wf(e),
            self.free_order@.len() == 0,
        ensures
            forall|i: int| 0 <= i < e ==> #[trigger] self.live(i),
            self.active_count as int == e,
    {
        reveal(Group::wf);
        self.lemma_all_live_upto(e, e);
        self.lemma_count_all_live(e, e);
        assert(vacant_range(self.slots@, e, self.cap())) by {
            assert forall|j: int| e <= j < self.cap() implies !(#[trigger] self.slots@[j] is Some) by {
                assert(!self.live(j));
            }
        }
        crate::group::lemma_count_live_vacant(self.slots@, e, self.cap());
    }

    proof fn lemma_all_live_upto(&self, e: int, n: int)
        requires
            self.wf(e),
            self.free_order@.len() == 0,
            0 <= n <= e,
        ensures
            forall|i: int| 0 <= i < n ==> #[trigger] self.live(i),
        decreases n,
    {
        reveal(Group::wf);
        if n > 0 {
            self.lemma_all_live_upto(e, n - 1);
            if !self.live(n - 1) {
                assert(self.is_run_start(n - 1, e));
                assert(self.free_order@.contains(n - 1));
            }
        }
    }

    proof fn lemma_count_all_live(&self, e: int, n: int)
        requires
            0 <= n <= e <= self.slots@.len(),
            forall|i: int| 0 <= i < e ==> #[trigger] self.live(i),
        ensures
            count_live(self.slots@, n) == n,
        decreases n,
    {
        if n > 0 {
            self.lemma_count_all_live(e, n - 1);
            assert(self.live(n - 1));
        }
    }
}



impl<T> Group<T> {
    /// Marking the never-constructed slots `[e, cap)` as one erased tail
    /// skipblock that starts at `s`: `e` itself, or the start of the
    /// skipblock that ends at `e - 1`.
    proof fn lemma_mark_tail(o: Self, n: Self, e: int, s: int)
        requires
            o.shape_ok(),
            o.skip_ok(e),
            0 <= e < o.cap(),
            s == e && (e == 0 || o.live(e - 1)) || (e > 0 && !o.live(e - 1) && s == e - o.sf(e - 1)),
            n.shape_ok(),
            n.capacity == o.capacity,
            n.slots@ == o.slots@,
            forall|j: int| 0 <= j < o.skipfield@.len() && j != s && !(e <= j < o.cap()) ==> n.skipfield@[j]
                == o.skipfield@[j],
            forall|j: int| e <= j < o.cap() ==> #[trigger] n.sf(j) == o.cap() - s,
            n.sf(s) == o.cap() - s,
        ensures
            n.skip_ok(n.cap()),
            forall|x: int| #[trigger] n.is_run_start(x, n.cap()) <==> (o.is_run_start(x, e) || x == s),
            s < e ==> o.is_run_start(s, e),
    {
        let cap = o.cap();
        let len = cap - s;
        assert forall|i: int| 0 <= i < o.slots@.len() implies n.live(i) == o.live(i) by {
        }
        if s < e {
            assert(o.is_run_end(e - 1, e));
            assert(o.run_end_ok(e - 1, e));
            assert(o.is_run_start(s, e));
            assert(o.run_start_ok(s, e));
        }
        assert forall|i: int| 0 <= i < cap implies (#[trigger] n.live(i) <==> n.sf(i) == 0) by {
            if i < e {
                assert(o.live(i) <==> o.sf(i) == 0);
                if i == s {
                    assert(!o.live(s));
                }
            } else {
                assert(!o.live(i));
            }
        }
        assert(n.sf(cap) == 0) by {
            assert(o.sf(cap) == 0);
        }
        assert forall|x: int| #[trigger] n.is_run_start(x, cap) <==> (o.is_run_start(x, e) || x == s) by {
            if x >= e && x < cap && x != s {
                if x > e {
                    assert(!o.live(x - 1));
                } else {
                    assert(x == e);
                    assert(s < e);
                    assert(!o.live(e - 1));
                }
            }
            if x == s && s == e {
                assert(!o.live(e));
            }
        }
        assert forall|x: int| #[trigger] n.is_run_start(x, cap) implies n.run_start_ok(x, cap) by {
            if x == s {
                assert(vacant_range(n.slots@, s, cap)) by {
                    assert forall|j: int| s <= j < cap implies !(#[trigger] n.slots@[j] is Some) by {
                        if j >= e {
                            assert(!o.live(j));
                        } else {
                            assert(!(o.slots@[j] is Some));
                        }
                    }
                }
                assert(n.sf(cap - 1) == len);
            } else {
                assert(o.is_run_start(x, e));
                assert(o.run_start_ok(x, e));
                let l = o.sf(x);
                if x + l == e {
                    if s < e {
                        o.lemma_runs_apart_or_same(x, s, e);
                    } else {
                        assert(!(o.slots@[e - 1] is Some));
                    }
                }
                assert(x + l < e);
                if s < e {
                    if x < s {
                        o.lemma_runs_apart(x, s, e);
                    } else {
                        o.lemma_runs_apart(s, x, e);
                    }
                }
                assert(n.sf(x) == l);
                assert(n.sf(x + l - 1) == l);
            }
        }
        assert forall|t: int| #[trigger] n.is_run_end(t, cap) implies n.run_end_ok(t, cap) by {
            if t >= e {
                if t + 1 < cap {
                    assert(!o.live(t + 1));
                }
                assert(t == cap - 1);
                assert(n.is_run_start(s, cap));
            } else {
                if t + 1 >= e {
                    assert(t + 1 < cap);
                    assert(!o.live(t + 1));
                }
                assert(o.is_run_end(t, e));
                assert(o.run_end_ok(t, e));
                let l = o.sf(t);
                let st = t - l + 1;
                assert(o.is_run_start(st, e));
                assert(o.run_start_ok(st, e));
                if s < e {
                    if st < s {
                        o.lemma_runs_apart(st, s, e);
                    } else if st > s {
                        o.lemma_runs_apart(s, st, e);
                    } else {
                        assert(st + o.sf(st) == e);
                    }
                }
                assert(t != s);
                assert(n.sf(t) == l);
                assert(st != s);
                assert(n.sf(st) == l);
            }
        }
    }

    /// Two skipblock starts are equal or their blocks are apart.
    pub(crate) proof fn lemma_runs_apart_or_same(&self, s1: int, s2: int, e: int)
        requires
            self.skip_ok(e),
            self.is_run_start(s1, e),
            self.is_run_start(s2, e),
            s1 + self.sf(s1) == e,
            s2 + self.sf(s2) == e,
        ensures
            s1 == s2,
    {
        if s1 < s2 {
            self.lemma_runs_apart(s1, s2, e);
        } else if s2 < s1 {
            self.lemma_runs_apart(s2, s1, e);
        }
    }

    /// Marks the never-constructed slots `[e, cap)` as erased, so that the
    /// whole block counts as constructed and later insertions can reuse
    /// them. Returns whether the free list was empty before.
    pub(crate) fn mark_tail(&mut self, e: u16) -> (was_empty: bool)
        requires
            old(self).wf(e as int),
            e < old(self).capacity,
        ensures
            final(self).wf(final(self).cap()),
            final(self).id == old(self).id,
            final(self).capacity == old(self).capacity,
            final(self).slots@ == old(self).slots@,
            final(self).active_count == old(self).active_count,
            was_empty == (old(self).free_order@.len() == 0),
            final(self).free_order@.len() > 0,
    {
        reveal(Group::wf);
        let ghost o = *self;
        let ghost q = o.free_order@;
        let cap = self.capacity;
        proof {
            if e > 0 {
                assert(o.live(e - 1) <==> o.sf(e - 1) == 0);
            }
            assert(o.sf(cap as int) == 0);
        }
        let prev_erased = e > 0 && self.skipfield[e as usize - 1] != 0;
        let s: u16 = if prev_erased {
            proof {
                assert(o.is_run_end(e - 1, e as int));
                assert(o.run_end_ok(e - 1, e as int));
            }
            e - self.skipfield[e as usize - 1]
        } else {
            e
        };
        let len = cap - s;
        let mut j = e;
        while j < cap
            invariant
                self.shape_ok(),
                self.id == o.id,
                self.capacity == o.capacity,
                self.slots@ == o.slots@,
                self.active_count == o.active_count,
                self.free_list_head == o.free_list_head,
                self.free_order@ == o.free_order@,
                self.prev_free@ == o.prev_free@,
                self.next_free@ == o.next_free@,
                cap == o.capacity,
                o.shape_ok(),
                len == cap - s,
                s <= e <= j <= cap,
                forall|x: int| 0 <= x < o.skipfield@.len() && (x < e || x >= j) ==> #[trigger] self.skipfield@[x] == o.skipfield@[x],
                forall|x: int| e <= x < j ==> #[trigger] self.skipfield@[x] == len,
            decreases cap - j,
        {
            let ghost before = self.skipfield@;
            self.skipfield.set(j as usize, len);
            proof {
                assert(before.len() == cap + 1);
                assert(self.skipfield@ == before.update(j as int, len));
                assert forall|x: int| 0 <= x < o.skipfield@.len() && (x < e || x >= j + 1) implies #[trigger] self.skipfield@[x]
                    == o.skipfield@[x] by {
                    assert(self.skipfield@[x] == before[x]);
                }
                assert forall|x: int| e <= x < j + 1 implies #[trigger] self.skipfield@[x] == len by {
                    if x < j {
                        assert(self.skipfield@[x] == before[x]);
                    }
                }
            }
            j = j + 1;
        }
        let ghost before = self.skipfield@;
        self.skipfield.set(s as usize, len);
        proof {
            assert forall|x: int| e <= x < o.cap() implies #[trigger] self.sf(x) == o.cap() - s by {
                assert(before[x] == len);
            }
            assert forall|x: int| 0 <= x < o.skipfield@.len() && x != s && !(e <= x < o.cap()) implies self.skipfield@[x]
                == o.skipfield@[x] by {
                assert(self.skipfield@[x] == before[x]);
                if x >= e {
                    assert(x >= j);
                }
            }
            Self::lemma_mark_tail(o, *self, e as int, s as int);
        }
        let ghost mid = *self;
        if prev_erased {
            proof {
                let c = cap as int;
                assert forall|k: int| 0 <= k < q.len() implies self.is_run_start(#[trigger] q[k], c) by {
                    assert(o.is_run_start(q[k], e as int));
                }
                assert forall|x: int| #[trigger] self.is_run_start(x, c) implies q.contains(x) by {
                    if x != s {
                        assert(o.is_run_start(x, e as int));
                    } else {
                        assert(o.is_run_start(s as int, e as int));
                    }
                }
                assert(o.is_run_start(s as int, e as int));
                assert(q.contains(s as int));
            }
            false
        } else {
            proof {
                assert(!q.contains(e as int)) by {
                    if q.contains(e as int) {
                        let k = q.index_of(e as int);
                        assert(o.is_run_start(q[k], e as int));
                    }
                }
            }
            let was_empty = self.push_node(e);
            proof {
                let c = cap as int;
                Self::lemma_skip_congruent(mid, *self, c);
                let nq = self.free_order@;
                assert forall|k: int| 0 <= k < nq.len() implies self.is_run_start(#[trigger] nq[k], c) by {
                    assert(mid.is_run_start(nq[k], c));
                    if k > 0 {
                        assert(nq[k] == q[k - 1]);
                        assert(o.is_run_start(q[k - 1], e as int));
                    }
                }
                assert forall|x: int| #[trigger] self.is_run_start(x, c) implies nq.contains(x) by {
                    assert(mid.is_run_start(x, c));
                    if x != e {
                        assert(o.is_run_start(x, e as int));
                        let k = q.index_of(x);
                        assert(nq[k + 1] == x);
                    } else {
                        assert(nq[0] == x);
                    }
                }
            }
            was_empty
        }
    }
}

} // verus!
