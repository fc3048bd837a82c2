//! A block of element slots, its jump-counting skipfield and its free list of
//! erased skipblocks.
use vstd::prelude::*;

verus! {

/// Link value that terminates the free list of erased skipblocks.
pub const NO_SLOT: u16 = 65535;

/// Identity of a block: the tag of the hive that created it and its serial
/// number within that hive.
#[derive(Clone, Copy, Debug, PartialEq, Eq, Structural, Hash, PartialOrd, Ord)]
pub struct GroupId {
    pub tag: u64,
    pub serial: u64,
}

/// Whether blocks of `T` index their slots with one byte (elements of at
/// most four bytes, aligned to at most four) rather than two.
pub open spec fn compact_index<T>() -> bool {
    vstd::layout::size_of::<T>() <= 4 && vstd::layout::align_of::<T>() <= 4
}

/// Width in bytes of a slot index for `T`.
pub open spec fn index_width<T>() -> int {
    if compact_index::<T>() {
        1
    } else {
        2
    }
}

/// The largest block capacity the slot index of `T` can address.
pub open spec fn hard_max_capacity<T>() -> u16 {
    if compact_index::<T>() {
        255
    } else {
        65535
    }
}

/// Alignment of the element storage of a block of `T`.
pub open spec fn storage_align<T>() -> int {
    let a = vstd::layout::align_of::<T>() as int;
    if a >= index_width::<T>() {
        a
    } else {
        index_width::<T>()
    }
}

/// Bytes taken by one slot of `T`: the element, or two slot indices for an
/// erased slot's free-list links, rounded up to the storage alignment.
pub open spec fn slot_size<T>() -> int {
    let s = vstd::layout::size_of::<T>() as int;
    let m = if s >= 2 * index_width::<T>() {
        s
    } else {
        2 * index_width::<T>()
    };
    let a = storage_align::<T>();
    if m % a == 0 {
        m
    } else {
        m - m % a + a
    }
}

/// Number of occupied slots among the first `n` slots.
pub open spec fn count_live<T>(s: Seq<Option<T>>, n: int) -> int
    decreases n,
{
    if n <= 0 {
        0
    } else {
        count_live(s, n - 1) + if s[n - 1] is Some {
            1int
        } else {
            0int
        }
    }
}

pub proof fn lemma_count_live_bounds<T>(s: Seq<Option<T>>, n: int)
    requires
        0 <= n,
    ensures
        0 <= count_live(s, n) <= n,
    decreases n,
{
    if n > 0 {
        lemma_count_live_bounds(s, n - 1);
    }
}

pub proof fn lemma_count_live_update<T>(s: Seq<Option<T>>, i: int, x: Option<T>, n: int)
    requires
        0 <= i < s.len(),
        0 <= n <= s.len(),
    ensures
        count_live(s.update(i, x), n) == count_live(s, n) + if i < n {
            (if x is Some {
                1int
            } else {
                0int
            }) - (if s[i] is Some {
                1int
            } else {
                0int
            })
        } else {
            0int
        },
    decreases n,
{
    if n > 0 {
        lemma_count_live_update(s, i, x, n - 1);
    }
}

pub proof fn lemma_count_live_mono<T>(s: Seq<Option<T>>, a: int, b: int)
    requires
        0 <= a <= b,
    ensures
        count_live(s, a) <= count_live(s, b),
    decreases b - a,
{
    if b > a {
        lemma_count_live_mono(s, a, b - 1);
    }
}

/// All slots in `[a, b)` are vacant.
pub open spec fn vacant_range<T>(s: Seq<Option<T>>, a: int, b: int) -> bool {
    forall|j: int| a <= j < b ==> !(#[trigger] s[j] is Some)
}

pub proof fn lemma_count_live_vacant<T>(s: Seq<Option<T>>, a: int, b: int)
    requires
        0 <= a <= b <= s.len(),
        vacant_range(s, a, b),
    ensures
        count_live(s, b) == count_live(s, a),
    decreases b - a,
{
    if b > a {
        assert(!(s[b - 1] is Some));
        lemma_count_live_vacant(s, a, b - 1);
    }
}

/// A vacant slot among the first `n` keeps the count below `n`.
pub proof fn lemma_count_live_lt<T>(s: Seq<Option<T>>, n: int, j: int)
    requires
        0 <= j < n,
        !(s[j] is Some),
    ensures
        count_live(s, n) < n,
    decreases n,
{
    if j < n - 1 {
        lemma_count_live_lt(s, n - 1, j);
    } else {
        lemma_count_live_bounds(s, n - 1);
    }
}

/// An occupied slot among the first `n` makes the count positive.
pub proof fn lemma_count_live_pos<T>(s: Seq<Option<T>>, n: int, j: int)
    requires
        0 <= j < n,
        s[j] is Some,
    ensures
        count_live(s, n) >= 1,
{
    lemma_count_live_mono(s, j + 1, n);
    lemma_count_live_bounds(s, j);
}

/// With every slot of `[0, n)` but `i` vacant, at most one is counted.
pub proof fn lemma_count_live_one<T>(s: Seq<Option<T>>, n: int, i: int)
    requires
        0 <= i < n <= s.len(),
        vacant_range(s, 0, i),
        vacant_range(s, i + 1, n),
    ensures
        count_live(s, n) <= 1,
{
    lemma_count_live_vacant(s, 0, i);
    lemma_count_live_vacant(s, i + 1, n);
}

/// Sequences with the same occupied slots have the same counts.
pub proof fn lemma_count_live_same<T>(s1: Seq<Option<T>>, s2: Seq<Option<T>>, n: int)
    requires
        forall|j: int| 0 <= j < n ==> (#[trigger] s1[j] is Some) == (s2[j] is Some),
    ensures
        count_live(s1, n) == count_live(s2, n),
    decreases n,
{
    if n > 0 {
        lemma_count_live_same(s1, s2, n - 1);
        assert((s1[n - 1] is Some) == (s2[n - 1] is Some));
    }
}

/// A block (group) of element slots.
///
/// `slots` holds the elements; a vacant slot below the block's end of
/// construction is an erased slot. `skipfield[i]` is zero for an occupied
/// slot; for a maximal run of erased slots (a skipblock) its first and last
/// entries hold the run's length. The starts of all skipblocks form a doubly
/// linked free list through `prev_free`/`next_free`, headed by
/// `free_list_head`, in the order recorded by `free_order`.
pub(crate) struct Group<T> {
    pub(crate) id: GroupId,
    pub(crate) capacity: u16,
    pub(crate) active_count: u16,
    pub(crate) free_list_head: u16,
    pub(crate) slots: Vec<Option<T>>,
    pub(crate) skipfield: Vec<u16>,
    pub(crate) prev_free: Vec<u16>,
    pub(crate) next_free: Vec<u16>,
    pub(crate) free_order: Ghost<Seq<int>>,
}

impl<T> Group<T> {
    pub(crate) fn uses_compact_index() -> (b: bool)
        ensures
            b == compact_index::<T>(),
    {
        core::mem::size_of::<T>() <= 4 && core::mem::align_of::<T>() <= 4
    }

    /// Width in bytes of a slot index.
    pub(crate) fn index_size() -> (r: usize)
        ensures
            r == index_width::<T>(),
    {
        if Self::uses_compact_index() {
            1
        } else {
            2
        }
    }

    /// Alignment of a slot index.
    pub(crate) fn index_align() -> (r: usize)
        ensures
            r == index_width::<T>(),
    {
        if Self::uses_compact_index() {
            1
        } else {
            2
        }
    }

    /// The largest capacity a block of `T` may have.
    pub(crate) fn none_index() -> (r: u16)
        ensures
            r == hard_max_capacity::<T>(),
    {
        if Self::uses_compact_index() {
            255
        } else {
            65535
        }
    }

    pub(crate) fn allocation_align() -> (r: usize)
        ensures
            r == storage_align::<T>(),
            r >= 1,
    {
        vstd::layout::layout_for_type_is_valid::<T>();
        let a = core::mem::align_of::<T>();
        let i = Self::index_align();
        if a >= i {
            a
        } else {
            i
        }
    }

    pub(crate) fn compute_slot_size() -> (r: usize)
        ensures
            r == slot_size::<T>(),
            r >= 1,
    {
        vstd::layout::layout_for_type_is_valid::<T>();
        let s = core::mem::size_of::<T>();
        let two = 2 * Self::index_size();
        let min_size = if s >= two {
            s
        } else {
            two
        };
        let align = Self::allocation_align();
        let r = min_size % align;
        if r == 0 {
            min_size
        } else if min_size < align {
            assert(min_size % align == min_size) by (nonlinear_arith)
                requires
                    min_size < align,
            ;
            align
        } else {
            min_size - r + align
        }
    }

    pub(crate) open spec fn cap(&self) -> int {
        self.capacity as int
    }

    pub(crate) open spec fn live(&self, i: int) -> bool {
        self.slots@[i] is Some
    }

    pub(crate) open spec fn sf(&self, i: int) -> int {
        self.skipfield@[i] as int
    }

    pub(crate) open spec fn shape_ok(&self) -> bool {
        &&& 1 <= self.capacity
        &&& self.slots@.len() == self.cap()
        &&& self.skipfield@.len() == self.cap() + 1
        &&& self.prev_free@.len() == self.cap()
        &&& self.next_free@.len() == self.cap()
    }

    /// `s` starts a skipblock among the first `e` slots.
    pub(crate) open spec fn is_run_start(&self, s: int, e: int) -> bool {
        &&& 0 <= s < e
        &&& !self.live(s)
        &&& (s == 0 || self.live(s - 1))
    }

    /// `t` ends a skipblock among the first `e` slots.
    pub(crate) open spec fn is_run_end(&self, t: int, e: int) -> bool {
        &&& 0 <= t < e
        &&& !self.live(t)
        &&& (t + 1 == e || self.live(t + 1))
    }

    pub(crate) open spec fn run_start_ok(&self, s: int, e: int) -> bool {
        let l = self.sf(s);
        &&& 1 <= l
        &&& s + l <= e
        &&& vacant_range(self.slots@, s, s + l)
        &&& (s + l == e || self.live(s + l))
        &&& self.sf(s + l - 1) == l
    }

    pub(crate) open spec fn run_end_ok(&self, t: int, e: int) -> bool {
        let l = self.sf(t);
        &&& 1 <= l <= t + 1
        &&& self.is_run_start(t - l + 1, e)
        &&& self.sf(t - l + 1) == l
    }

    /// The skipfield agrees with the occupied slots among the first `e`.
    pub(crate) open spec fn skip_ok(&self, e: int) -> bool {
        &&& 0 <= e <= self.cap()
        &&& forall|i: int| 0 <= i < e ==> (#[trigger] self.live(i) <==> self.sf(i) == 0)
        &&& forall|i: int| e <= i <= self.cap() ==> #[trigger] self.sf(i) == 0
        &&& forall|i: int| e <= i < self.cap() ==> !#[trigger] self.live(i)
        &&& forall|s: int| #[trigger] self.is_run_start(s, e) ==> self.run_start_ok(s, e)
        &&& forall|t: int| #[trigger] self.is_run_end(t, e) ==> self.run_end_ok(t, e)
    }

    /// The links of the free list follow the sequence `q`.
    pub(crate) open spec fn links_ok(&self, q: Seq<int>) -> bool {
        &&& q.no_duplicates()
        &&& forall|k: int| 0 <= k < q.len() ==> 0 <= #[trigger] q[k] < self.cap()
        &&& self.free_list_head as int == if q.len() == 0 {
            NO_SLOT as int
        } else {
            q[0]
        }
        &&& forall|k: int|
            0 <= k < q.len() ==> self.next_free@[#[trigger] q[k]] as int == if k + 1 < q.len() {
                q[k + 1]
            } else {
                NO_SLOT as int
            }
        &&& forall|k: int|
            0 <= k < q.len() ==> self.prev_free@[#[trigger] q[k]] as int == if k > 0 {
                q[k - 1]
            } else {
                NO_SLOT as int
            }
    }

    /// The free list holds exactly the skipblock starts.
    pub(crate) open spec fn free_ok(&self, e: int) -> bool {
        let q = self.free_order@;
        &&& self.links_ok(q)
        &&& forall|k: int| 0 <= k < q.len() ==> self.is_run_start(#[trigger] q[k], e)
        &&& forall|s: int| #[trigger] self.is_run_start(s, e) ==> q.contains(s)
    }

    /// Well-formed with the first `e` slots constructed.
    #[verifier::opaque]
    pub(crate) open spec fn wf(&self, e: int) -> bool {
        &&& self.shape_ok()
        &&& self.skip_ok(e)
        &&& self.free_ok(e)
        &&& self.active_count as int == count_live(self.slots@, self.cap())
    }

    pub(crate) proof fn lemma_wf_unfold(&self, e: int)
        requires
            self.wf(e),
        ensures
            self.shape_ok(),
            self.skip_ok(e),
            self.free_ok(e),
            self.active_count as int == count_live(self.slots@, self.cap()),
            vacant_range(self.slots@, e, self.cap()),
    {
        reveal(Group::wf);
        assert forall|j: int| e <= j < self.cap() implies !(#[trigger] self.slots@[j] is Some) by {
            assert(!self.live(j));
        }
    }

    pub(crate) proof fn lemma_wf_fold(&self, e: int)
        requires
            self.shape_ok(),
            self.skip_ok(e),
            self.free_ok(e),
            self.active_count as int == count_live(self.slots@, self.cap()),
        ensures
            self.wf(e),
    {
        reveal(Group::wf);
    }

    /// A block with no constructed slot has an empty free list.
    pub(crate) proof fn lemma_blank_no_free(&self)
        requires
            self.wf(0),
        ensures
            self.free_order@.len() == 0,
            self.active_count == 0 ==> vacant_range(self.slots@, 0, self.cap()),
    {
        reveal(Group::wf);
        if self.free_order@.len() > 0 {
            assert(self.is_run_start(self.free_order@[0], 0));
        }
        assert forall|j: int| 0 <= j < self.cap() implies !(#[trigger] self.slots@[j] is Some) by {
            assert(!self.live(j));
        }
    }

    /// Everything but the id is as in `other`.
    pub(crate) open spec fn same_but_id(&self, other: &Self) -> bool {
        &&& self.capacity == other.capacity
        &&& self.active_count == other.active_count
        &&& self.free_list_head == other.free_list_head
        &&& self.slots == other.slots
        &&& self.skipfield == other.skipfield
        &&& self.prev_free == other.prev_free
        &&& self.next_free == other.next_free
        &&& self.free_order == other.free_order
    }

    /// Well-formedness does not depend on the id.
    pub(crate) proof fn lemma_same_but_id_wf(&self, other: &Self, e: int)
        requires
            self.same_but_id(other),
            other.wf(e),
        ensures
            self.wf(e),
    {
        reveal(Group::wf);
        assert(self.slots@ == other.slots@ && self.skipfield@ == other.skipfield@);
        assert forall|i: int| 0 <= i < e implies (#[trigger] self.live(i) <==> self.sf(i) == 0) by {
            assert(other.live(i) <==> other.sf(i) == 0);
        }
        assert forall|i: int| e <= i <= self.cap() implies #[trigger] self.sf(i) == 0 by {
            assert(other.sf(i) == 0);
        }
        assert forall|i: int| e <= i < self.cap() implies !#[trigger] self.live(i) by {
            assert(!other.live(i));
        }
        assert forall|x: int| #[trigger] self.is_run_start(x, e) implies self.run_start_ok(x, e) by {
            assert(other.is_run_start(x, e));
            assert(other.run_start_ok(x, e));
        }
        assert forall|x: int| #[trigger] self.is_run_end(x, e) implies self.run_end_ok(x, e) by {
            assert(other.is_run_end(x, e));
            assert(other.run_end_ok(x, e));
            assert(other.is_run_start(x - other.sf(x) + 1, e));
        }
        let q = self.free_order@;
        assert forall|k: int| 0 <= k < q.len() implies self.is_run_start(#[trigger] q[k], e) by {
            assert(other.is_run_start(q[k], e));
        }
        assert forall|x: int| #[trigger] self.is_run_start(x, e) implies q.contains(x) by {
            assert(other.is_run_start(x, e));
        }
    }

    /// Everything but the values in the occupied slots is as in `other`.
    pub(crate) open spec fn same_pattern(&self, other: &Self) -> bool {
        &&& self.id == other.id
        &&& self.capacity == other.capacity
        &&& self.active_count == other.active_count
        &&& self.free_list_head == other.free_list_head
        &&& self.skipfield == other.skipfield
        &&& self.prev_free == other.prev_free
        &&& self.next_free == other.next_free
        &&& self.free_order == other.free_order
        &&& self.slots@.len() == other.slots@.len()
        &&& forall|j: int| 0 <= j < self.slots@.len() ==> (#[trigger] self.live(j)) == other.live(j)
    }

    /// Well-formedness depends on which slots are occupied, not on their
    /// values.
    pub(crate) proof fn lemma_same_pattern_wf(&self, other: &Self, e: int)
        requires
            self.same_pattern(other),
            other.wf(e),
        ensures
            self.wf(e),
    {
        reveal(Group::wf);
        assert forall|i: int| 0 <= i < e implies (#[trigger] self.live(i) <==> self.sf(i) == 0) by {
            assert(other.live(i) <==> other.sf(i) == 0);
        }
        assert forall|i: int| e <= i <= self.cap() implies #[trigger] self.sf(i) == 0 by {
            assert(other.sf(i) == 0);
        }
        assert forall|i: int| e <= i < self.cap() implies !#[trigger] self.live(i) by {
            assert(!other.live(i));
        }
        assert forall|x: int| #[trigger] self.is_run_start(x, e) implies self.run_start_ok(x, e) by {
            assert(other.is_run_start(x, e));
            assert(other.run_start_ok(x, e));
            let l = other.sf(x);
            assert(vacant_range(other.slots@, x, x + l));
            assert forall|j: int| x <= j < x + l implies !(#[trigger] self.slots@[j] is Some) by {
                assert(!(other.slots@[j] is Some));
                assert(self.live(j) == other.live(j));
            }
        }
        assert forall|x: int| #[trigger] self.is_run_end(x, e) implies self.run_end_ok(x, e) by {
            assert(other.is_run_end(x, e));
            assert(other.run_end_ok(x, e));
            assert(other.is_run_start(x - other.sf(x) + 1, e));
        }
        let q = self.free_order@;
        assert forall|k: int| 0 <= k < q.len() implies self.is_run_start(#[trigger] q[k], e) by {
            assert(other.is_run_start(q[k], e));
        }
        assert forall|x: int| #[trigger] self.is_run_start(x, e) implies q.contains(x) by {
            assert(other.is_run_start(x, e));
        }
        assert forall|j: int| 0 <= j < self.cap() implies (#[trigger] self.slots@[j] is Some) == (
        other.slots@[j] is Some) by {
            assert(self.live(j) == other.live(j));
        }
        lemma_count_live_same(self.slots@, other.slots@, self.cap());
    }

    /// Gives the block a new id.
    pub(crate) fn with_id(self, id: GroupId) -> (g: Self)
        ensures
            g.same_but_id(&self),
            g.id == id,
    {
        let mut g = self;
        g.id = id;
        g
    }

    /// An empty block with no constructed slot.
    pub(crate) open spec fn is_blank(&self) -> bool {
        &&& self.wf(0)
        &&& self.active_count == 0
        &&& vacant_range(self.slots@, 0, self.cap())
    }

    /// Allocates a block of `capacity` vacant slots.
    pub(crate) fn new(capacity: u16, id: GroupId) -> (g: Self)
        requires
            1 <= capacity,
        ensures
            g.is_blank(),
            g.id == id,
            g.capacity == capacity,
    {
        let mut slots: Vec<Option<T>> = Vec::with_capacity(capacity as usize);
        let mut prev_free: Vec<u16> = Vec::with_capacity(capacity as usize);
        let mut next_free: Vec<u16> = Vec::with_capacity(capacity as usize);
        let mut skipfield: Vec<u16> = Vec::with_capacity(capacity as usize + 1);
        let mut i: u16 = 0;
        while i < capacity
            invariant
                i <= capacity,
                slots@.len() == i,
                prev_free@.len() == i,
                next_free@.len() == i,
                skipfield@.len() == i,
                vacant_range(slots@, 0, i as int),
                forall|j: int| 0 <= j < i ==> skipfield@[j] == 0,
            decreases capacity - i,
        {
            slots.push(None);
            prev_free.push(NO_SLOT);
            next_free.push(NO_SLOT);
            skipfield.push(0);
            i = i + 1;
        }
        skipfield.push(0);
        let g = Group {
            id,
            capacity,
            active_count: 0,
            free_list_head: NO_SLOT,
            slots,
            skipfield,
            prev_free,
            next_free,
            free_order: Ghost(Seq::empty()),
        };
        proof {
            lemma_count_live_vacant(g.slots@, 0, g.cap());
            reveal(Group::wf);
        }
        g
    }

    /// Drops every element of the block and returns it to the blank state.
    pub(crate) fn clear(&mut self)
        requires
            old(self).shape_ok(),
        ensures
            final(self).is_blank(),
            final(self).id == old(self).id,
            final(self).capacity == old(self).capacity,
    {
        let cap = self.capacity;
        let mut i: u16 = 0;
        while i < cap
            invariant
                self.shape_ok(),
                cap == self.capacity,
                self.id == old(self).id,
                i <= cap,
                vacant_range(self.slots@, 0, i as int),
                forall|j: int| 0 <= j < i ==> self.skipfield@[j] == 0,
            decreases cap - i,
        {
            let mut v: Option<T> = None;
            core::mem::swap(&mut self.slots[i as usize], &mut v);
            self.skipfield.set(i as usize, 0);
            i = i + 1;
        }
        self.skipfield.set(cap as usize, 0);
        self.free_list_head = NO_SLOT;
        self.free_order = Ghost(Seq::empty());
        self.active_count = 0;
        proof {
            lemma_count_live_vacant(self.slots@, 0, self.cap());
            reveal(Group::wf);
        }
    }
}

} // verus!
