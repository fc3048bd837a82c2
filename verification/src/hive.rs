//! A bucket-based, unordered container with stable handles.
//!
//! Insertion and erasure do a bounded amount of work per slot; finding the
//! block that a handle or a reused hole names, and dropping an emptied
//! block, take time linear in the number of blocks.
//!
//! A [`Hive`] stores elements across blocks (groups). Each block holds an
//! array of slots, a jump-counting skipfield for traversal over erased slots,
//! and a free list of its erased skipblocks. An insertion first reuses an
//! erased slot; otherwise it appends to the last block, opening a new block
//! when that one is full. Handles returned by insertion stay valid until the
//! element is erased.
use vstd::prelude::*;

use crate::allocator::{Allocator, Global};
use crate::contents::{
    group_entries, groups_entries, handles_unique, held_by, ids_distinct, lemma_groups_entries_len,
    lemma_groups_entries_members, lemma_groups_entries_unique, lemma_sum_nonneg, sum_active, sum_caps,
    entry_held, Handle,
};
use crate::group::{count_live, hard_max_capacity, slot_size, Group, GroupId};
use crate::skipfield::Cursor;
use vstd::std_specs::cmp::PartialEqSpec;

verus! {

const DEFAULT_MAX_BLOCK_CAPACITY: u16 = 8192;

const HARD_MIN_BLOCK_CAPACITY: u16 = 3;

/// Constraints on the size of a hive's blocks: every block a hive allocates
/// has a capacity between `min` and `max`, inclusive.
#[derive(Clone, Copy, Debug, Eq, PartialEq, Structural)]
pub struct BlockCapacityLimits {
    /// Minimum elements per block.
    pub min: u16,
    /// Maximum elements per block.
    pub max: u16,
}

/// Error returned when block capacity limits are invalid.
#[derive(Clone, Copy, Debug, Eq, PartialEq, Structural)]
pub struct InvalidBlockCapacityLimits;

/// Error returned when [`Hive::splice`] cannot transfer the source's blocks
/// without violating the destination's block capacity limits.
#[derive(Clone, Copy, Debug, Eq, PartialEq, Structural)]
pub struct IncompatibleSplice;

impl BlockCapacityLimits {
    /// Creates block capacity limits; their validity is checked where they
    /// are used.
    pub fn new(min: u16, max: u16) -> (r: Self)
        ensures
            r.min == min,
            r.max == max,
    {
        Self { min, max }
    }
}

/// The hard bounds on block capacities for elements of type `T`.
pub open spec fn hard_limits<T>() -> BlockCapacityLimits {
    BlockCapacityLimits { min: 3, max: hard_max_capacity::<T>() }
}

/// The largest block capacity a hive of `T` uses by default.
pub open spec fn default_max_capacity<T>() -> u16 {
    if 8192 <= hard_max_capacity::<T>() {
        8192
    } else {
        hard_max_capacity::<T>()
    }
}

/// Limits within the hard bounds for `T`, with `min <= max`.
pub open spec fn limits_valid<T>(l: BlockCapacityLimits) -> bool {
    3 <= l.min && l.min <= l.max && l.max <= hard_max_capacity::<T>()
}

/// `v` clamped to `[lo, hi]` (`hi` wins if they cross).
pub open spec fn clamp(v: int, lo: int, hi: int) -> int {
    let a = if v >= lo {
        v
    } else {
        lo
    };
    if a <= hi {
        a
    } else {
        hi
    }
}

/// Capacity that reserving room for `rem` more slots adds, one block of
/// `rem` clamped to `[lo, hi]` after another until `rem` is covered.
pub open spec fn reserve_growth(rem: int, lo: int, hi: int) -> int
    decreases rem,
{
    if rem <= 0 || lo < 1 || hi < lo {
        0
    } else {
        let c = if rem < lo {
            lo
        } else if rem > hi {
            hi
        } else {
            rem
        };
        if rem <= c {
            c
        } else {
            c + reserve_growth(rem - c, lo, hi)
        }
    }
}

/// A bucket-based, unordered container with stable element handles.
///
/// Its contents are the sequence `self@` of `(handle, element)` pairs in
/// iteration order: blocks in order, slots in order within a block.
pub struct Hive<T, A: Allocator = Global> {
    groups: Vec<Group<T>>,
    reserved: Vec<Group<T>>,
    erasure_stack: Vec<GroupId>,
    begin: Cursor,
    end: Cursor,
    len: usize,
    capacity: usize,
    min_block_capacity: u16,
    max_block_capacity: u16,
    tag: u64,
    next_serial: u64,
    allocator: A,
}

impl<T, A: Allocator> View for Hive<T, A> {
    type V = Seq<(Handle, T)>;

    closed spec fn view(&self) -> Seq<(Handle, T)> {
        groups_entries(self.groups@, 0, self.groups@.len() as int)
    }
}

impl<T, A: Allocator> Hive<T, A> {
    /// The elements in iteration order.
    pub open spec fn elems(&self) -> Seq<T> {
        self@.map_values(|p: (Handle, T)| p.1)
    }

    /// The handles of the elements in iteration order.
    pub open spec fn handles(&self) -> Seq<Handle> {
        self@.map_values(|p: (Handle, T)| p.0)
    }

    /// Whether `h` names an element of the hive.
    pub open spec fn contains(&self, h: Handle) -> bool {
        self.handles().contains(h)
    }

    /// The element named by `h`.
    pub open spec fn value_of(&self, h: Handle) -> T {
        self@[self.handles().index_of(h)].1
    }

    /// Total number of slots across all blocks, in use or reserved.
    pub closed spec fn total_capacity(&self) -> int {
        self.capacity as int
    }

    /// The allocator the hive carries.
    pub closed spec fn allocator_value(&self) -> A {
        self.allocator
    }

    /// The current block capacity limits.
    pub closed spec fn limits(&self) -> BlockCapacityLimits {
        BlockCapacityLimits { min: self.min_block_capacity, max: self.max_block_capacity }
    }

    /// Erased slots of the hive's blocks that a later insertion may reuse.
    pub closed spec fn holes(&self) -> Set<Handle> {
        Set::new(
            |h: Handle|
                exists|k: int, i: int|
                    0 <= k < self.groups@.len() && 0 <= i < self.e_of(k) && !self.groups@[k].live(i)
                        && h == (Handle { group: self.groups@[k].id, index: i as u16 }),
        )
    }

    // ── internal structure ──

    spec fn glen(&self) -> int {
        self.groups@.len() as int
    }

    /// Number of constructed slots of block `k`: all of them but in the last
    /// block, where construction stops at the end cursor.
    spec fn e_of(&self, k: int) -> int {
        if k == self.glen() - 1 {
            self.end.index as int
        } else {
            self.groups@[k].cap()
        }
    }

    spec fn groups_ok(&self) -> bool {
        &&& forall|k: int| 0 <= k < self.glen() ==> (#[trigger] self.groups@[k]).wf(self.e_of(k))
        &&& forall|k: int| 0 <= k < self.glen() - 1 ==> (#[trigger] self.groups@[k]).active_count >= 1
        &&& self.len > 0 ==> forall|k: int| 0 <= k < self.glen() ==> (#[trigger] self.groups@[k]).active_count >= 1
    }

    spec fn cursors_ok(&self) -> bool {
        &&& self.glen() == 0 ==> self.len == 0 && self.begin == Cursor { group: None, index: 0 }
            && self.end == Cursor { group: None, index: 0 }
        &&& self.glen() > 0 ==> self.end.group == Some((self.glen() - 1) as usize) && self.end.index
            <= self.groups@[self.glen() - 1].capacity
        &&& self.len == 0 && self.glen() > 0 ==> self.glen() == 1 && self.end.index == 0 && self.begin
            == Cursor { group: Some(0), index: 0 }
        &&& self.len > 0 ==> self.begin.group == Some(0usize) && self.begin.index < self.groups@[0].capacity
            && self.groups@[0].live(self.begin.index as int) && count_live(
            self.groups@[0].slots@,
            self.begin.index as int,
        ) == 0
    }

    spec fn reserved_ok(&self) -> bool {
        forall|r: int| 0 <= r < self.reserved@.len() ==> (#[trigger] self.reserved@[r]).is_blank()
    }

    spec fn ids_ok(&self) -> bool {
        &&& ids_distinct(self.groups@ + self.reserved@)
        &&& forall|k: int|
            0 <= k < (self.groups@ + self.reserved@).len() && (#[trigger] (self.groups@ + self.reserved@)[k]).id.tag
                == self.tag ==> (self.groups@ + self.reserved@)[k].id.serial < self.next_serial
    }

    /// Some block of the hive carries `id`.
    spec fn has_group(&self, id: GroupId) -> bool {
        exists|k: int| 0 <= k < self.glen() && #[trigger] self.groups@[k].id == id
    }

    /// The erasure stack lists, once each, the ids of the blocks whose free
    /// list is not empty.
    spec fn stack_ok(&self) -> bool {
        &&& self.erasure_stack@.no_duplicates()
        &&& forall|j: int| 0 <= j < self.erasure_stack@.len() ==> self.has_group(#[trigger] self.erasure_stack@[j])
        &&& forall|k: int|
            0 <= k < self.glen() ==> (self.erasure_stack@.contains(#[trigger] self.groups@[k].id)
                <==> self.groups@[k].free_order@.len() > 0)
    }

    /// The hive's structure is consistent.
    pub closed spec fn wf(&self) -> bool {
        &&& self.groups_ok()
        &&& self.cursors_ok()
        &&& self.reserved_ok()
        &&& self.ids_ok()
        &&& self.stack_ok()
        &&& self.len as int == sum_active(self.groups@)
        &&& self.capacity as int == sum_caps(self.groups@) + sum_caps(self.reserved@)
        &&& limits_valid::<T>(self.limits())
    }
}


impl<T, A: Allocator> Hive<T, A> {
    /// The default block capacity limits for `T`: the maximum is 8192 or the
    /// hard maximum if smaller; the minimum adapts to the element size and
    /// lies between 8 and the maximum.
    pub closed spec fn default_limits() -> BlockCapacityLimits {
        let a = vstd::layout::size_of::<Hive<T, A>>() + vstd::layout::size_of::<Group<T>>();
        let s = if a > usize::MAX {
            usize::MAX as int
        } else {
            a as int
        };
        let d = if 2 * s > usize::MAX {
            usize::MAX as int
        } else {
            2 * s
        };
        let adaptive = d / slot_size::<T>();
        BlockCapacityLimits {
            min: clamp(adaptive, 8, default_max_capacity::<T>() as int) as u16,
            max: default_max_capacity::<T>(),
        }
    }

    proof fn lemma_view_len(&self)
        requires
            self.wf(),
        ensures
            self@.len() == self.len,
    {
        assert(self.groups@.subrange(0, self.glen()) =~= self.groups@);
        assert forall|k: int| 0 <= k < self.glen() implies (#[trigger] self.groups@[k]).active_count as int
            == count_live(self.groups@[k].slots@, self.groups@[k].cap()) by {
            assert(self.groups@[k].wf(self.e_of(k)));
            self.groups@[k].lemma_wf_unfold(self.e_of(k));
        }
        lemma_groups_entries_len(self.groups@, self.glen());
    }

    /// The element count never exceeds the capacity.
    proof fn lemma_len_le_capacity(&self)
        requires
            self.wf(),
        ensures
            self.len <= self.capacity,
    {
        assert forall|k: int| 0 <= k < self.glen() implies (|g: Group<T>| g.active_count as int)(
            #[trigger] self.groups@[k],
        ) <= (|g: Group<T>| g.cap())(self.groups@[k]) by {
            assert(self.groups@[k].wf(self.e_of(k)));
            self.groups@[k].lemma_wf_unfold(self.e_of(k));
            crate::group::lemma_count_live_bounds(self.groups@[k].slots@, self.groups@[k].cap());
        }
        crate::contents::lemma_sum_le(self.groups@, |g: Group<T>| g.active_count as int, |g: Group<T>| g.cap());
        lemma_sum_nonneg(self.reserved@, |g: Group<T>| g.cap());
    }

    proof fn lemma_ids_distinct(&self)
        requires
            self.ids_ok(),
        ensures
            ids_distinct(self.groups@),
            ids_distinct(self.reserved@),
            forall|i: int, j: int|
                0 <= i < self.glen() && 0 <= j < self.reserved@.len() ==> (#[trigger] self.groups@[i]).id
                    != (#[trigger] self.reserved@[j]).id,
    {
        let all = self.groups@ + self.reserved@;
        assert forall|i: int, j: int|
            0 <= i < self.glen() && 0 <= j < self.glen() && i != j implies (#[trigger] self.groups@[i]).id
            != (#[trigger] self.groups@[j]).id by {
            assert(all[i] == self.groups@[i] && all[j] == self.groups@[j]);
        }
        assert forall|i: int, j: int|
            0 <= i < self.reserved@.len() && 0 <= j < self.reserved@.len() && i != j implies (
            #[trigger] self.reserved@[i]).id != (#[trigger] self.reserved@[j]).id by {
            assert(all[i + self.glen()] == self.reserved@[i] && all[j + self.glen()] == self.reserved@[j]);
        }
        assert forall|i: int, j: int|
            0 <= i < self.glen() && 0 <= j < self.reserved@.len() implies (#[trigger] self.groups@[i]).id
            != (#[trigger] self.reserved@[j]).id by {
            assert(all[i] == self.groups@[i] && all[j + self.glen()] == self.reserved@[j]);
        }
    }

    /// No handle occurs twice in the hive.
    proof fn lemma_view_unique(&self)
        requires
            self.wf(),
        ensures
            handles_unique(self@),
    {
        self.lemma_ids_distinct();
        lemma_groups_entries_unique(self.groups@, 0, self.glen());
    }

    /// A handle of the hive names an occupied slot of the block with its id.
    proof fn lemma_contained_is_held(&self, h: Handle) -> (k: int)
        requires
            self.wf(),
            self.contains(h),
        ensures
            0 <= k < self.glen(),
            self.groups@[k].id == h.group,
            h.index < self.groups@[k].cap(),
            self.groups@[k].slots@[h.index as int] == Some(self.value_of(h)),
    {
        let j = self.handles().index_of(h);
        assert(self.handles()[j] == h);
        lemma_groups_entries_members(self.groups@, 0, self.glen());
        assert(entry_held(self.groups@, 0, self.glen(), j));
        let k = choose|m: int| 0 <= m < self.glen() && #[trigger] held_by(self.groups@, m, groups_entries(self.groups@, 0, self.glen())[j]);
        k
    }
}

impl<T, A: Allocator> Hive<T, A> {
    /// Position of the block that carries `id`.
    fn find_group(&self, id: GroupId) -> (k: usize)
        requires
            self.has_group(id),
        ensures
            k < self.glen(),
            self.groups@[k as int].id == id,
    {
        let mut k: usize = 0;
        while k < self.groups.len()
            invariant
                self.has_group(id),
                k <= self.groups@.len(),
                forall|j: int| 0 <= j < k ==> #[trigger] self.groups@[j].id != id,
            decreases self.groups@.len() - k,
        {
            if self.groups[k].id == id {
                return k;
            }
            k = k + 1;
        }
        proof {
            let m = choose|m: int| 0 <= m < self.glen() && #[trigger] self.groups@[m].id == id;
            assert(self.groups@[m].id != id);
        }
        0
    }
}

impl<T, A: Allocator + Clone> Hive<T, A> {
    /// Creates an empty hive using the given allocator and the default block
    /// capacity limits.
    pub fn new_in(allocator: A) -> (h: Self)
        ensures
            h.wf(),
            h@ == Seq::<(Handle, T)>::empty(),
            h.total_capacity() == 0,
            h.limits() == Self::default_limits(),
            h.allocator_value() == allocator,
            h.blocks_made() == 0,
            !h.has_holes(),
            h.reserved_capacity() == 0,
            h.sizes_fit(),
    {
        let limits = Self::block_capacity_default_limits();
        Self::empty_with(allocator, limits)
    }

    /// An empty hive with the given allocator and valid limits.
    fn empty_with(allocator: A, limits: BlockCapacityLimits) -> (h: Self)
        requires
            limits_valid::<T>(limits),
        ensures
            h.wf(),
            h@ == Seq::<(Handle, T)>::empty(),
            h.total_capacity() == 0,
            h.limits() == limits,
            h.allocator_value() == allocator,
            h.blocks_made() == 0,
            !h.has_holes(),
            h.reserved_capacity() == 0,
            h.sizes_fit(),
    {
        let h = Hive {
            groups: Vec::new(),
            reserved: Vec::new(),
            erasure_stack: Vec::new(),
            begin: Cursor::null(),
            end: Cursor::null(),
            len: 0,
            capacity: 0,
            min_block_capacity: limits.min,
            max_block_capacity: limits.max,
            tag: crate::tag::fresh_tag(),
            next_serial: 0,
            allocator,
        };
        proof {
            assert(h.groups@ + h.reserved@ =~= Seq::<Group<T>>::empty());
            assert(h@ =~= Seq::<(Handle, T)>::empty());
        }
        h
    }

    /// Creates an empty hive using the given allocator and block capacity
    /// limits, or fails if the limits are out of bounds.
    pub fn try_new_in(allocator: A, limits: BlockCapacityLimits) -> (r: Result<Self, InvalidBlockCapacityLimits>)
        ensures
            r is Ok <==> limits_valid::<T>(limits),
            r matches Ok(h) ==> h.wf() && h@ == Seq::<(Handle, T)>::empty() && h.total_capacity() == 0
                && h.limits() == limits && h.allocator_value() == allocator && h.blocks_made() == 0
                && !h.has_holes() && h.reserved_capacity() == 0 && h.sizes_fit(),
    {
        match Self::check_block_capacity_limits(limits) {
            Err(e) => Err(e),
            Ok(()) => Ok(Self::empty_with(allocator, limits)),
        }
    }
}

impl<T> Hive<T, Global> {
    /// Creates an empty hive with the default block capacity limits.
    pub fn new() -> (h: Self)
        ensures
            h.wf(),
            h@ == Seq::<(Handle, T)>::empty(),
            h.total_capacity() == 0,
            h.limits() == Self::default_limits(),
            h.blocks_made() == 0,
            !h.has_holes(),
            h.reserved_capacity() == 0,
            h.sizes_fit(),
    {
        Self::new_in(Global)
    }

    /// Creates an empty hive with custom block capacity limits, or fails if
    /// they are out of bounds.
    pub fn try_new(limits: BlockCapacityLimits) -> (r: Result<Self, InvalidBlockCapacityLimits>)
        ensures
            r is Ok <==> limits_valid::<T>(limits),
            r matches Ok(h) ==> h.wf() && h@ == Seq::<(Handle, T)>::empty() && h.total_capacity() == 0
                && h.limits() == limits && h.blocks_made() == 0 && !h.has_holes() && h.reserved_capacity() == 0 && h.sizes_fit(),
    {
        Self::try_new_in(Global, limits)
    }
}

impl<T> Default for Hive<T, Global> {
    fn default() -> (h: Self)
        ensures
            h.wf(),
            h@ == Seq::<(Handle, T)>::empty(),
            h.total_capacity() == 0,
            h.limits() == Self::default_limits(),
            h.blocks_made() == 0,
            !h.has_holes(),
            h.reserved_capacity() == 0,
            h.sizes_fit(),
    {
        Self::new()
    }
}

impl<T, A: Allocator> Hive<T, A> {
    /// The number of elements.
    pub fn len(&self) -> (r: usize)
        requires
            self.wf(),
        ensures
            r == self@.len(),
    {
        proof {
            self.lemma_view_len();
        }
        self.len
    }

    /// Whether the hive holds no element.
    pub fn is_empty(&self) -> (r: bool)
        requires
            self.wf(),
        ensures
            r == (self@.len() == 0),
    {
        proof {
            self.lemma_view_len();
        }
        self.len == 0
    }

    /// The number of slots across all blocks, in use and reserved.
    pub fn capacity(&self) -> (r: usize)
        ensures
            r == self.total_capacity(),
    {
        self.capacity
    }

    /// The largest element count the hive could address: `usize::MAX`
    /// divided by the size of a slot.
    pub fn max_size(&self) -> (r: usize)
        ensures
            r as int == (usize::MAX as int) / slot_size::<T>(),
    {
        usize::MAX / Group::<T>::compute_slot_size()
    }

    /// The current block capacity limits.
    pub fn block_capacity_limits(&self) -> (r: BlockCapacityLimits)
        ensures
            r == self.limits(),
    {
        BlockCapacityLimits::new(self.min_block_capacity, self.max_block_capacity)
    }

    /// The default block capacity limits.
    pub fn block_capacity_default_limits() -> (r: BlockCapacityLimits)
        ensures
            r == Self::default_limits(),
            8 <= r.min <= r.max,
            r.max == default_max_capacity::<T>(),
            limits_valid::<T>(r),
    {
        BlockCapacityLimits::new(Self::default_min_block_capacity(), Self::default_max_block_capacity())
    }

    /// The hard bounds on block capacity limits: the minimum is 3, the
    /// maximum is what the slot index width for `T` can address.
    pub fn block_capacity_hard_limits() -> (r: BlockCapacityLimits)
        ensures
            r == hard_limits::<T>(),
    {
        BlockCapacityLimits::new(HARD_MIN_BLOCK_CAPACITY, Self::hard_max_block_capacity())
    }

    fn hard_max_block_capacity() -> (r: u16)
        ensures
            r == hard_max_capacity::<T>(),
    {
        Group::<T>::none_index()
    }

    fn default_max_block_capacity() -> (r: u16)
        ensures
            r == default_max_capacity::<T>(),
    {
        let hard = Self::hard_max_block_capacity();
        if DEFAULT_MAX_BLOCK_CAPACITY <= hard {
            DEFAULT_MAX_BLOCK_CAPACITY
        } else {
            hard
        }
    }

    fn default_min_block_capacity() -> (r: u16)
        ensures
            r == Self::default_limits().min,
            8 <= r <= default_max_capacity::<T>(),
    {
        let slot_size = Group::<T>::compute_slot_size();
        let a = core::mem::size_of::<Self>().saturating_add(core::mem::size_of::<Group<T>>());
        let d = a.saturating_add(a);
        let adaptive = d / slot_size;
        let max = Self::default_max_block_capacity() as usize;
        let lo = if adaptive >= 8 {
            adaptive
        } else {
            8
        };
        let r = if lo <= max {
            lo
        } else {
            max
        };
        r as u16
    }

    /// The allocator the hive was created with.
    pub fn get_allocator(&self) -> (r: &A)
        ensures
            *r == self.allocator_value(),
    {
        &self.allocator
    }

    fn check_block_capacity_limits(limits: BlockCapacityLimits) -> (r: Result<(), InvalidBlockCapacityLimits>)
        ensures
            r is Ok <==> limits_valid::<T>(limits),
    {
        let hard = Self::block_capacity_hard_limits();
        if limits.min < hard.min || limits.min > limits.max || limits.max > hard.max {
            Err(InvalidBlockCapacityLimits)
        } else {
            Ok(())
        }
    }
}


impl<T, A: Allocator> Hive<T, A> {
    /// Number of blocks the hive has created so far.
    pub closed spec fn blocks_made(&self) -> int {
        self.next_serial as int
    }

    /// Whether an insertion can proceed now.
    pub fn room_to_insert(&self) -> (r: bool)
        requires
            self.wf(),
        ensures
            r == self.can_insert(),
    {
        proof {
            self.lemma_view_len();
        }
        self.len < self.capacity || (self.capacity <= usize::MAX - 65535 && self.next_serial < u64::MAX)
    }

    /// Room left for the hive to grow by one block.
    pub open spec fn has_room(&self) -> bool {
        &&& self.total_capacity() + 65535 <= usize::MAX
        &&& self.blocks_made() < u64::MAX
    }

    /// An insertion can proceed: there is a free slot, or room to add a
    /// block.
    pub open spec fn can_insert(&self) -> bool {
        self@.len() < self.total_capacity() || self.has_room()
    }

    /// What every insertion of `value` under handle `h` guarantees.
    pub open spec fn inserted(o: Self, n: Self, value: T, h: Handle) -> bool {
        &&& n.wf()
        &&& !o.contains(h)
        &&& exists|p: int| 0 <= p <= o@.len() && n@ == o@.insert(p, (h, value))
        &&& n.limits() == o.limits()
        &&& n.allocator_value() == o.allocator_value()
        &&& n.blocks_made() <= o.blocks_made() + 1
    }

    /// Block `k` replaced by one with the same id and capacity that is
    /// well formed with the same construction bound keeps the block-level
    /// invariants.
    proof fn lemma_update_group(o: Self, n: Self, k: int)
        requires
            o.wf(),
            0 <= k < o.glen(),
            n.groups@ == o.groups@.update(k, n.groups@[k]),
            n.groups@[k].id == o.groups@[k].id,
            n.groups@[k].capacity == o.groups@[k].capacity,
            n.groups@[k].wf(n.e_of(k)),
            n.groups@[k].active_count >= 1,
            n.reserved@ == o.reserved@,
            n.end.group == o.end.group,
            k != o.glen() - 1 ==> n.end == o.end,
            n.tag == o.tag,
            n.next_serial == o.next_serial,
        ensures
            n.groups_ok(),
            n.ids_ok(),
            n.reserved_ok(),
            sum_caps(n.groups@) == sum_caps(o.groups@),
            sum_active(n.groups@) == sum_active(o.groups@) - o.groups@[k].active_count
                + n.groups@[k].active_count,
            forall|k2: int| 0 <= k2 < n.glen() && k2 != k ==> #[trigger] n.e_of(k2) == o.e_of(k2),
    {
        let g2 = n.groups@[k];
        crate::contents::lemma_sum_update(o.groups@, k, g2, |g: Group<T>| g.active_count as int);
        crate::contents::lemma_sum_update(o.groups@, k, g2, |g: Group<T>| g.cap());
        assert(n.groups@ + n.reserved@ =~= (o.groups@ + o.reserved@).update(k, g2));
        assert forall|k2: int| 0 <= k2 < n.glen() implies (#[trigger] n.groups@[k2]).wf(n.e_of(k2)) by {
            if k2 != k {
                assert(n.groups@[k2] == o.groups@[k2]);
                assert(o.groups@[k2].wf(o.e_of(k2)));
            }
        }
        assert forall|k2: int| 0 <= k2 < n.glen() - 1 implies (#[trigger] n.groups@[k2]).active_count >= 1 by {
            if k2 != k {
                assert(n.groups@[k2] == o.groups@[k2]);
            }
        }
        if n.len > 0 {
            assert forall|k2: int| 0 <= k2 < n.glen() implies (#[trigger] n.groups@[k2]).active_count >= 1 by {
                if k2 != k {
                    assert(n.groups@[k2] == o.groups@[k2]);
                    if o.len == 0 {
                        assert(o.glen() == 1);
                    }
                    assert(o.groups@[k2].active_count >= 1);
                }
            }
        }
        let all_o = o.groups@ + o.reserved@;
        let all_n = n.groups@ + n.reserved@;
        assert forall|i: int, j: int|
            0 <= i < all_n.len() && 0 <= j < all_n.len() && i != j implies (#[trigger] all_n[i]).id
            != (#[trigger] all_n[j]).id by {
            assert(all_n[i].id == all_o[i].id);
            assert(all_n[j].id == all_o[j].id);
        }
        assert forall|i: int|
            0 <= i < all_n.len() && (#[trigger] all_n[i]).id.tag == n.tag implies all_n[i].id.serial
            < n.next_serial by {
            assert(all_n[i].id == all_o[i].id);
        }
    }

    /// Facts about filling a hole of block `k`.
    proof fn lemma_insert_reuse(o: Self, n: Self, k: int, idx: u16, value: T, emptied: bool)
        requires
            o.wf(),
            o.erasure_stack@.len() > 0,
            0 <= k < o.glen(),
            o.groups@[k].id == o.erasure_stack@.last(),
            o.groups@[k].is_run_start(idx as int, o.e_of(k)),
            n.groups@ == o.groups@.update(k, n.groups@[k]),
            n.groups@[k].wf(n.e_of(k)),
            n.groups@[k].id == o.groups@[k].id,
            n.groups@[k].capacity == o.groups@[k].capacity,
            n.groups@[k].slots@ == o.groups@[k].slots@.update(idx as int, Some(value)),
            n.groups@[k].active_count == o.groups@[k].active_count + 1,
            emptied == (n.groups@[k].free_order@.len() == 0),
            emptied ==> o.erasure_stack@ == n.erasure_stack@.push(o.groups@[k].id),
            !emptied ==> n.erasure_stack@ == o.erasure_stack@,
            n.begin == (if k == 0 && idx < o.begin.index {
                Cursor { group: Some(0), index: idx }
            } else {
                o.begin
            }),
            n.len == o.len + 1,
            n.end == o.end,
            n.reserved@ == o.reserved@,
            n.capacity == o.capacity,
            n.tag == o.tag,
            n.next_serial == o.next_serial,
            n.min_block_capacity == o.min_block_capacity,
            n.max_block_capacity == o.max_block_capacity,
            n.allocator == o.allocator,
        ensures
            Self::inserted(o, n, value, Handle { group: o.groups@[k].id, index: idx }),
            o.holes().contains(Handle { group: o.groups@[k].id, index: idx }),
            0 <= o.slot_position(Handle { group: o.groups@[k].id, index: idx }) <= o@.len(),
            n@ == o@.insert(o.slot_position(Handle { group: o.groups@[k].id, index: idx }), (
                Handle { group: o.groups@[k].id, index: idx },
                value,
            )),
    {
        let g = o.groups@[k];
        let g2 = n.groups@[k];
        let e = o.e_of(k);
        let h = Handle { group: g.id, index: idx };
        assert(g.wf(e));
        g.lemma_wf_unfold(e);
        assert(o.len > 0) by {
            if o.len == 0 {
                assert(o.glen() == 1);
            }
        }
        Self::lemma_update_group(o, n, k);
        // stack
        o.lemma_ids_distinct();
        let id = g.id;
        let st = o.erasure_stack@;
        assert(st[st.len() - 1] == id);
        if emptied {
            let ns = n.erasure_stack@;
            assert(ns =~= st.drop_last());
            assert forall|k2: int| 0 <= k2 < n.glen() implies (ns.contains(#[trigger] n.groups@[k2].id)
                <==> n.groups@[k2].free_order@.len() > 0) by {
                if k2 != k {
                    assert(n.groups@[k2] == o.groups@[k2]);
                    let id2 = o.groups@[k2].id;
                    assert(id2 != id);
                    if st.contains(id2) {
                        let j = st.index_of(id2);
                        assert(j != st.len() - 1);
                        assert(ns[j] == id2);
                    }
                    if ns.contains(id2) {
                        let j = ns.index_of(id2);
                        assert(st[j] == id2);
                    }
                } else {
                    assert(!ns.contains(id)) by {
                        if ns.contains(id) {
                            let j = ns.index_of(id);
                            assert(st[j] == id);
                        }
                    }
                }
            }
            assert forall|j: int| 0 <= j < ns.len() implies n.has_group(#[trigger] ns[j]) by {
                assert(st[j] == ns[j]);
                assert(o.has_group(st[j]));
                let m = choose|m: int| 0 <= m < o.glen() && #[trigger] o.groups@[m].id == st[j];
                assert(n.groups@[m].id == ns[j]);
            }
        } else {
            assert forall|k2: int| 0 <= k2 < n.glen() implies (n.erasure_stack@.contains(#[trigger] n.groups@[k2].id)
                <==> n.groups@[k2].free_order@.len() > 0) by {
                if k2 != k {
                    assert(n.groups@[k2] == o.groups@[k2]);
                }
            }
            assert forall|j: int| 0 <= j < st.len() implies n.has_group(#[trigger] st[j]) by {
                assert(o.has_group(st[j]));
                let m = choose|m: int| 0 <= m < o.glen() && #[trigger] o.groups@[m].id == st[j];
                assert(n.groups@[m].id == st[j]);
            }
        }
        // begin
        if k == 0 {
            if idx < o.begin.index {
                crate::group::lemma_count_live_mono(g.slots@, idx as int, o.begin.index as int);
                crate::group::lemma_count_live_update(g.slots@, idx as int, Some(value), idx as int);
            } else {
                crate::group::lemma_count_live_update(g.slots@, idx as int, Some(value), o.begin.index as int);
            }
        }
        // contents
        crate::contents::lemma_fill_slot(o.groups@, k, g2, idx as int, value);
        o.lemma_block_index(k);
        assert(o.slot_position(h) == crate::contents::rank(o.groups@, k, idx as int));
        o.lemma_view_len();
        if o.contains(h) {
            let k3 = o.lemma_contained_is_held(h);
            o.lemma_ids_distinct();
            assert(k3 == k);
        }
        assert(o.holes().contains(h)) by {
            assert(0 <= k < o.glen() && 0 <= idx < o.e_of(k) && !o.groups@[k].live(idx as int));
        }
        assert(n.wf());
    }

    /// Inserting into the slot at the head of the free list of block `k`.
    fn insert_reuse(&mut self, value: T, k: usize) -> (h: Handle)
        requires
            old(self).wf(),
            old(self).len < old(self).capacity,
            old(self).erasure_stack@.len() > 0,
            k < old(self).glen(),
            old(self).groups@[k as int].id == old(self).erasure_stack@.last(),
        ensures
            Self::inserted(*old(self), *final(self), value, h),
            old(self).holes().contains(h),
            0 <= old(self).slot_position(h) <= old(self)@.len(),
            final(self)@ == old(self)@.insert(old(self).slot_position(h), (h, value)),
            h == (Handle {
                group: old(self).groups@[k as int].id,
                index: old(self).groups@[k as int].free_order@[0] as u16,
            }),
            final(self).total_capacity() == old(self).total_capacity(),
            final(self).blocks_made() == old(self).blocks_made(),
            old(self).sizes_fit() ==> final(self).sizes_fit(),
            final(self).reserved_capacity() == old(self).reserved_capacity(),
    {
        let ghost o = *self;
        let ghost e = self.e_of(k as int);
        proof {
            self.lemma_len_le_capacity();
            let id = self.groups@[k as int].id;
            assert(self.erasure_stack@[self.erasure_stack@.len() - 1] == id);
            assert(self.erasure_stack@.contains(id));
            assert(self.groups@[k as int].wf(e));
        }
        let (idx, emptied) = self.groups[k].consume_head(value, Ghost(e));
        let id = self.groups[k].id;
        if emptied {
            self.erasure_stack.pop();
            assert(o.erasure_stack@ =~= self.erasure_stack@.push(id));
        }
        if k == 0 && idx < self.begin.index {
            self.begin = Cursor { group: Some(0), index: idx };
        }
        self.len = self.len + 1;
        proof {
            Self::lemma_insert_reuse(o, *self, k as int, idx, value, emptied);
        }
        Handle { group: id, index: idx }
    }
}


impl<T, A: Allocator> Hive<T, A> {
    /// Some other element shares the block of `h`.
    pub open spec fn has_neighbour(&self, h: Handle) -> bool {
        exists|h2: Handle| #[trigger] self.contains(h2) && h2 != h && h2.group == h.group
    }

    /// The capacity after an insertion into `o`: unchanged while `o` has
    /// a free slot; otherwise grown by one block of `o`'s length clamped to
    /// the block capacity limits. Blocks that fitted the limits still do.
    pub open spec fn insert_capacity(o: Self, n: Self) -> bool {
        &&& o.sizes_fit() ==> n.sizes_fit()
        &&& 0 <= n.reserved_capacity() <= o.reserved_capacity()
        &&& o@.len() < o.total_capacity() ==> n.total_capacity() == o.total_capacity() && n.blocks_made()
            == o.blocks_made()
        &&& o@.len() == o.total_capacity() ==> n.total_capacity() == o.total_capacity() + clamp(
            o@.len() as int,
            o.limits().min as int,
            o.limits().max as int,
        )
    }

    /// The hole the next insertion fills: the first slot of the first run
    /// of erased slots of the block that most recently gained holes.
    pub closed spec fn next_hole(&self) -> Handle {
        let id = self.erasure_stack@.last();
        let k = choose|k: int| 0 <= k < self.glen() && self.groups@[k].id == id;
        Handle { group: id, index: self.groups@[k].free_order@[0] as u16 }
    }

    /// An insertion under `h` into `o` fills the next of its holes, if it
    /// has any.
    pub open spec fn fills_hole(o: Self, h: Handle) -> bool {
        o.has_holes() ==> o.holes().contains(h) && h == o.next_hole()
    }

    /// Where an insertion of `v` under `h` puts `v` in `o`'s iteration
    /// order. When `o` has holes, `v` fills one and lands at that slot's
    /// position. Otherwise `v` goes after the last element; while `o` holds
    /// elements and its last block has a never-used slot, `v` goes into
    /// that block.
    pub open spec fn placed(o: Self, n: Self, h: Handle, v: T) -> bool {
        &&& o.has_holes() ==> 0 <= o.slot_position(h) <= o@.len() && n@ == o@.insert(
            o.slot_position(h),
            (h, v),
        )
        &&& !o.has_holes() ==> {
            &&& n@ == o@.push((h, v))
            &&& o@.len() > 0 && o@.len() + o.reserved_capacity() < o.total_capacity() ==> h.group
                == o@.last().0.group
        }
    }

    /// Position in iteration order of the block that carries `id`.
    pub closed spec fn block_index(&self, id: GroupId) -> int {
        choose|k: int| 0 <= k < self.glen() && self.groups@[k].id == id
    }

    /// `a` comes before `b` in iteration order: in an earlier block, or
    /// earlier in the same block.
    pub open spec fn precedes(&self, a: Handle, b: Handle) -> bool {
        ||| self.block_index(a.group) < self.block_index(b.group)
        ||| a.group == b.group && a.index < b.index
    }

    /// Number of elements that come before slot `h` in iteration order.
    pub closed spec fn slot_position(&self, h: Handle) -> int {
        crate::contents::rank(self.groups@, self.block_index(h.group), h.index as int)
    }

    /// Block `k` is at position `k`.
    proof fn lemma_block_index(&self, k: int)
        requires
            self.ids_ok(),
            0 <= k < self.glen(),
        ensures
            self.block_index(self.groups@[k].id) == k,
    {
        self.lemma_ids_distinct();
        let id = self.groups@[k].id;
        assert(0 <= k < self.glen() && self.groups@[k].id == id);
        let m = self.block_index(id);
        assert(0 <= m < self.glen() && self.groups@[m].id == id);
    }

    /// A hole sits between the elements that precede it and those that
    /// follow it: the elements before its position come before it in
    /// iteration order, the others after it.
    #[verifier::spinoff_prover]
    #[verifier::rlimit(50)]
    pub proof fn lemma_hole_position(&self, h: Handle)
        requires
            self.wf(),
            self.holes().contains(h),
        ensures
            0 <= self.slot_position(h) <= self@.len(),
            forall|j: int| 0 <= j < self.slot_position(h) ==> self.precedes(#[trigger] self@[j].0, h),
            forall|j: int| self.slot_position(h) <= j < self@.len() ==> self.precedes(h, #[trigger] self@[j].0),
    {
        let (k, i) = choose|k: int, i: int|
            0 <= k < self.groups@.len() && 0 <= i < self.e_of(k) && !self.groups@[k].live(i) && h == (Handle {
                group: self.groups@[k].id,
                index: i as u16,
            });
        let gs = self.groups@;
        let n = self.glen();
        let g = gs[k];
        assert(g.wf(self.e_of(k)));
        g.lemma_wf_unfold(self.e_of(k));
        assert(h.index as int == i);
        self.lemma_block_index(k);
        self.lemma_ids_distinct();
        crate::contents::lemma_groups_entries_split(gs, 0, k, n);
        crate::contents::lemma_groups_entries_split(gs, k, k + 1, n);
        assert(groups_entries(gs, k, k + 1) =~= group_entries(g)) by {
            assert(groups_entries(gs, k, k) =~= Seq::<(Handle, T)>::empty());
        }
        crate::contents::lemma_slot_entries_split(g, 0, i, g.cap());
        crate::contents::lemma_slot_entries_len(g, 0, i);
        assert(count_live(g.slots@, 0) == 0);
        let a = groups_entries(gs, 0, k);
        let b = crate::contents::slot_entries(g, 0, i);
        let c = crate::contents::slot_entries(g, i, g.cap());
        let d = groups_entries(gs, k + 1, n);
        assert(self@ =~= a + b + c + d);
        assert(self.slot_position(h) == a.len() + b.len());
        crate::contents::lemma_groups_entries_members(gs, 0, k);
        crate::contents::lemma_groups_entries_members(gs, k + 1, n);
        crate::contents::lemma_slot_entries_members(g, 0, i);
        crate::contents::lemma_slot_entries_members(g, i, g.cap());
        assert forall|j: int| 0 <= j < self.slot_position(h) implies self.precedes(#[trigger] self@[j].0, h) by {
            if j < a.len() {
                assert(self@[j] == a[j]);
                assert(crate::contents::entry_held(gs, 0, k, j));
                let m = choose|m: int| 0 <= m < k && #[trigger] crate::contents::held_by(gs, m, a[j]);
                self.lemma_block_index(m);
            } else {
                assert(self@[j] == b[j - a.len()]);
            }
        }
        assert forall|j: int| self.slot_position(h) <= j < self@.len() implies self.precedes(h, #[trigger] self@[j].0) by {
            let p = a.len() + b.len();
            if j < p + c.len() {
                assert(self@[j] == c[j - p]);
                let x = c[j - p];
                assert(x.0.index != i) by {
                    if x.0.index as int == i {
                        assert(g.slots@[i] == Some(x.1));
                    }
                }
            } else {
                let jd = j - p - c.len();
                assert(self@[j] == d[jd]);
                assert(crate::contents::entry_held(gs, k + 1, n, jd));
                let m = choose|m: int| k + 1 <= m < n && #[trigger] crate::contents::held_by(gs, m, d[jd]);
                self.lemma_block_index(m);
            }
        }
    }

    /// Whether some erased slot is waiting to be reused.
    pub open spec fn has_holes(&self) -> bool {
        exists|h: Handle| #[trigger] self.holes().contains(h)
    }

    proof fn lemma_glen_fits(&self)
        ensures
            self.glen() <= usize::MAX,
    {
        broadcast use vstd::std_specs::vec::axiom_spec_len;

        assert(self.groups.len() == self.groups@.len());
    }

    /// Blocks with the same ids, capacities and occupancy, under the same
    /// end cursor, have the same holes.
    proof fn lemma_same_holes(o: Self, n: Self)
        requires
            n.glen() == o.glen(),
            n.end == o.end,
            forall|k: int|
                0 <= k < n.glen() ==> (#[trigger] n.groups@[k]).id == o.groups@[k].id && n.groups@[k].capacity
                    == o.groups@[k].capacity,
            forall|k: int, i: int|
                0 <= k < n.glen() && 0 <= i < o.e_of(k) ==> n.groups@[k].live(i) == #[trigger] o.groups@[k].live(i),
        ensures
            n.holes() == o.holes(),
    {
        assert forall|h: Handle| n.holes().contains(h) <==> o.holes().contains(h) by {
            if n.holes().contains(h) {
                let (k, i) = choose|k: int, i: int|
                    0 <= k < n.groups@.len() && 0 <= i < n.e_of(k) && !n.groups@[k].live(i) && h == (Handle {
                        group: n.groups@[k].id,
                        index: i as u16,
                    });
                assert(n.groups@[k].id == o.groups@[k].id);
                assert(n.e_of(k) == o.e_of(k));
                assert(o.groups@[k].live(i) == n.groups@[k].live(i));
            }
            if o.holes().contains(h) {
                let (k, i) = choose|k: int, i: int|
                    0 <= k < o.groups@.len() && 0 <= i < o.e_of(k) && !o.groups@[k].live(i) && h == (Handle {
                        group: o.groups@[k].id,
                        index: i as u16,
                    });
                assert(n.groups@[k].id == o.groups@[k].id);
                assert(n.e_of(k) == o.e_of(k));
                assert(o.groups@[k].live(i) == n.groups@[k].live(i));
            }
        }
        assert(n.holes() =~= o.holes());
    }

    /// Holes exist exactly when some block's free list is non-empty.
    proof fn lemma_holes_iff_stack(&self)
        requires
            self.wf(),
        ensures
            self.has_holes() <==> self.erasure_stack@.len() > 0,
    {
        self.lemma_glen_fits();
        if self.erasure_stack@.len() > 0 {
            let id = self.erasure_stack@[0];
            assert(self.has_group(id));
            let k = choose|m: int| 0 <= m < self.glen() && #[trigger] self.groups@[m].id == id;
            assert(self.erasure_stack@.contains(self.groups@[k].id));
            let g = self.groups@[k];
            assert(g.wf(self.e_of(k)));
            g.lemma_wf_unfold(self.e_of(k));
            let s0 = g.free_order@[0];
            assert(g.is_run_start(s0, self.e_of(k)));
            let h = Handle { group: g.id, index: s0 as u16 };
            assert(self.holes().contains(h));
        } else if self.has_holes() {
            let h = choose|h: Handle| #[trigger] self.holes().contains(h);
            let (k, i) = choose|k: int, i: int|
                0 <= k < self.groups@.len() && 0 <= i < self.e_of(k) && !self.groups@[k].live(i) && h == (
                Handle { group: self.groups@[k].id, index: i as u16 });
            let g = self.groups@[k];
            assert(g.wf(self.e_of(k)));
            assert(!self.erasure_stack@.contains(g.id));
            g.lemma_no_free_all_live(self.e_of(k));
        }
    }

    /// With no hole, every block but the last is fully constructed and
    /// occupied, and the last holds exactly its constructed slots.
    proof fn lemma_no_holes_counts(&self)
        requires
            self.wf(),
            self.erasure_stack@.len() == 0,
        ensures
            forall|k: int| 0 <= k < self.glen() ==> (#[trigger] self.groups@[k]).active_count as int == self.e_of(k),
    {
        self.lemma_glen_fits();
        assert forall|k: int| 0 <= k < self.glen() implies (#[trigger] self.groups@[k]).active_count as int
            == self.e_of(k) by {
            let g = self.groups@[k];
            assert(g.wf(self.e_of(k)));
            assert(!self.erasure_stack@.contains(g.id));
            g.lemma_no_free_all_live(self.e_of(k));
        }
    }

    /// With no hole and its last block fully constructed, the elements fill
    /// every block but the reserved ones.
    proof fn lemma_blocks_full(&self)
        requires
            self.wf(),
            self.erasure_stack@.len() == 0,
            self.glen() == 0 || self.end.index == self.groups@[self.glen() - 1].capacity,
        ensures
            self.len + self.reserved_capacity() == self.capacity,
    {
        self.lemma_glen_fits();
        self.lemma_no_holes_counts();
        let wa = |g: Group<T>| g.active_count as int;
        let wc = |g: Group<T>| g.cap();
        assert forall|k: int| 0 <= k < self.glen() implies wc(#[trigger] self.groups@[k]) <= wa(self.groups@[k]) by {
            assert(self.groups@[k].active_count as int == self.e_of(k));
        }
        assert forall|k: int| 0 <= k < self.glen() implies wa(#[trigger] self.groups@[k]) <= wc(self.groups@[k]) by {
            assert(self.groups@[k].active_count as int == self.e_of(k));
        }
        crate::contents::lemma_sum_le(self.groups@, wc, wa);
        crate::contents::lemma_sum_le(self.groups@, wa, wc);
    }

    /// The last element of a non-empty hive sits in its last block.
    proof fn lemma_last_in_last_block(&self)
        requires
            self.wf(),
            self.len > 0,
        ensures
            self.glen() > 0,
            self@.last().0.group == self.groups@[self.glen() - 1].id,
    {
        let t = self.glen() - 1;
        let g = self.groups@[t];
        assert(g.wf(self.e_of(t)));
        g.lemma_wf_unfold(self.e_of(t));
        assert(g.active_count >= 1);
        crate::contents::lemma_slot_entries_len(g, 0, g.cap());
        assert(count_live(g.slots@, 0) == 0);
        crate::contents::lemma_slot_entries_members(g, 0, g.cap());
        let ge = group_entries(g);
        assert(self@ == groups_entries(self.groups@, 0, t) + ge);
        assert(ge.len() > 0);
        assert(self@.last() == ge[ge.len() - 1]);
    }

    /// Facts about appending to the last block.
    proof fn lemma_insert_append(o: Self, n: Self, value: T)
        requires
            o.wf(),
            o.erasure_stack@.len() == 0,
            o.glen() > 0,
            o.end.index < o.groups@[o.glen() - 1].capacity,
            n.groups@ == o.groups@.update(o.glen() - 1, n.groups@[o.glen() - 1]),
            n.groups@[o.glen() - 1].wf(o.end.index + 1),
            n.groups@[o.glen() - 1].id == o.groups@[o.glen() - 1].id,
            n.groups@[o.glen() - 1].capacity == o.groups@[o.glen() - 1].capacity,
            n.groups@[o.glen() - 1].slots@ == o.groups@[o.glen() - 1].slots@.update(o.end.index as int, Some(value)),
            n.groups@[o.glen() - 1].active_count == o.groups@[o.glen() - 1].active_count + 1,
            n.groups@[o.glen() - 1].free_order@ == o.groups@[o.glen() - 1].free_order@,
            n.erasure_stack@ == o.erasure_stack@,
            n.begin == o.begin,
            n.end == (Cursor { group: o.end.group, index: (o.end.index + 1) as u16 }),
            n.len == o.len + 1,
            n.reserved@ == o.reserved@,
            n.capacity == o.capacity,
            n.tag == o.tag,
            n.next_serial == o.next_serial,
            n.min_block_capacity == o.min_block_capacity,
            n.max_block_capacity == o.max_block_capacity,
            n.allocator == o.allocator,
        ensures
            Self::inserted(o, n, value, Handle { group: o.groups@[o.glen() - 1].id, index: o.end.index }),
            n@ == o@.push((Handle { group: o.groups@[o.glen() - 1].id, index: o.end.index }, value)),
    {
        let t = o.glen() - 1;
        let g = o.groups@[t];
        let g2 = n.groups@[t];
        let e = o.end.index as int;
        let h = Handle { group: g.id, index: o.end.index };
        assert(g.wf(e));
        g.lemma_wf_unfold(e);
        o.lemma_glen_fits();
        assert(!o.erasure_stack@.contains(g.id));
        assert(!g.live(e));
        Self::lemma_update_group(o, n, t);
        assert forall|k2: int| 0 <= k2 < n.glen() implies (n.erasure_stack@.contains(#[trigger] n.groups@[k2].id)
            <==> n.groups@[k2].free_order@.len() > 0) by {
            assert(!o.erasure_stack@.contains(o.groups@[k2].id));
            assert(o.groups@[k2].free_order@.len() == 0);
        }
        if o.len == 0 {
            assert(e == 0);
        }
        crate::contents::lemma_fill_slot(o.groups@, t, g2, e, value);
        o.lemma_view_len();
        o.lemma_no_holes_counts();
        assert(crate::contents::rank(o.groups@, t, e) == o@.len()) by {
            crate::contents::lemma_groups_entries_split(o.groups@, 0, t, o.glen());
            assert(groups_entries(o.groups@, t, o.glen()) =~= group_entries(g)) by {
                assert(groups_entries(o.groups@, t, t) == Seq::<(Handle, T)>::empty());
            }
            crate::contents::lemma_slot_entries_len(g, 0, g.cap());
            g.lemma_no_free_all_live(e);
            crate::group::lemma_count_live_vacant(g.slots@, e, g.cap());
        }
        assert(o@.insert(o@.len() as int, (h, value)) =~= o@.push((h, value)));
        if o.contains(h) {
            let k3 = o.lemma_contained_is_held(h);
            o.lemma_ids_distinct();
            assert(k3 == t);
        }
        if o.len == 0 {
            assert(t == 0);
        } else if t == 0 {
            assert(o.groups@[0].live(o.begin.index as int));
            g.lemma_wf_unfold(e);
            assert(o.begin.index < e);
            crate::group::lemma_count_live_update(g.slots@, e, Some(value), o.begin.index as int);
        } else {
            assert(n.groups@[0] == o.groups@[0]);
        }
        assert(n.groups_ok());
        assert(n.cursors_ok());
        assert(n.stack_ok());
        assert(n.len as int == sum_active(n.groups@));
        assert(n.capacity as int == sum_caps(n.groups@) + sum_caps(n.reserved@));
        assert(n.wf());
    }
}



impl<T, A: Allocator> Hive<T, A> {
    /// Capacity for a new block: the element count clamped to the limits.
    fn new_group_capacity(&self) -> (r: u16)
        requires
            limits_valid::<T>(self.limits()),
        ensures
            r as int == clamp(self.len as int, self.min_block_capacity as int, self.max_block_capacity as int),
            3 <= r,
    {
        let min = self.min_block_capacity as usize;
        let max = self.max_block_capacity as usize;
        let a = if self.len >= min {
            self.len
        } else {
            min
        };
        let b = if a <= max {
            a
        } else {
            max
        };
        b as u16
    }

    /// Constructs `value` in the next never-used slot of the last block.
    fn insert_append(&mut self, value: T) -> (h: Handle)
        requires
            old(self).wf(),
            old(self).len < old(self).capacity,
            old(self).erasure_stack@.len() == 0,
            old(self).glen() > 0,
            old(self).end.index < old(self).groups@[old(self).glen() - 1].capacity,
        ensures
            Self::inserted(*old(self), *final(self), value, h),
            final(self)@ == old(self)@.push((h, value)),
            final(self).total_capacity() == old(self).total_capacity(),
            final(self).erasure_stack@ == old(self).erasure_stack@,
            final(self).blocks_made() == old(self).blocks_made(),
            old(self).sizes_fit() ==> final(self).sizes_fit(),
            final(self).reserved_capacity() == old(self).reserved_capacity(),
            h.group == old(self).groups@[old(self).glen() - 1].id,
    {
        let ghost o = *self;
        proof {
            self.lemma_len_le_capacity();
            self.lemma_glen_fits();
        }
        let t = self.groups.len() - 1;
        let at = self.end.index;
        proof {
            assert(self.groups@[t as int].wf(self.e_of(t as int)));
        }
        self.groups[t].append_at(value, at);
        let id = self.groups[t].id;
        self.end = Cursor { group: Some(t), index: at + 1 };
        self.len = self.len + 1;
        proof {
            Self::lemma_insert_append(o, *self, value);
        }
        Handle { group: id, index: at }
    }

    /// Facts about opening a new last block holding just `value`.
    proof fn lemma_insert_new_group(o: Self, n: Self, value: T, g2: Group<T>, from_reserved: bool)
        requires
            o.wf(),
            o.erasure_stack@.len() == 0,
            o.glen() == 0 || o.end.index == o.groups@[o.glen() - 1].capacity,
            g2.wf(1),
            g2.active_count == 1,
            g2.slots@[0] == Some(value),
            crate::group::vacant_range(g2.slots@, 1, g2.cap()),
            g2.free_order@.len() == 0,
            n.groups@ == o.groups@.push(g2),
            from_reserved ==> o.reserved@.len() > 0 && n.reserved@ == o.reserved@.drop_last() && g2.id
                == o.reserved@.last().id && g2.capacity == o.reserved@.last().capacity && n.capacity
                == o.capacity && n.next_serial == o.next_serial,
            !from_reserved ==> n.reserved@ == o.reserved@ && g2.id == (GroupId { tag: o.tag, serial: o.next_serial })
                && n.next_serial == o.next_serial + 1 && n.capacity == o.capacity + g2.cap(),
            n.erasure_stack@ == o.erasure_stack@,
            n.begin == (if o.glen() == 0 {
                Cursor { group: Some(0), index: 0 }
            } else {
                o.begin
            }),
            n.end == (Cursor { group: Some(o.glen() as usize), index: 1 }),
            n.len == o.len + 1,
            n.tag == o.tag,
            n.min_block_capacity == o.min_block_capacity,
            n.max_block_capacity == o.max_block_capacity,
            n.allocator == o.allocator,
        ensures
            Self::inserted(o, n, value, Handle { group: g2.id, index: 0 }),
            n@ == o@.push((Handle { group: g2.id, index: 0 }, value)),
    {
        let h = Handle { group: g2.id, index: 0 };
        let t = o.glen();
        o.lemma_glen_fits();
        g2.lemma_wf_unfold(1);
        assert(n.glen() == t + 1);
        assert(n.groups@[t] == g2);
        // blocks
        assert forall|k: int| 0 <= k < n.glen() implies (#[trigger] n.groups@[k]).wf(n.e_of(k)) by {
            if k < t {
                assert(n.groups@[k] == o.groups@[k]);
                assert(o.groups@[k].wf(o.e_of(k)));
                if k == t - 1 {
                    assert(o.e_of(k) == o.groups@[k].cap());
                }
            }
        }
        if o.len == 0 && t > 0 {
            assert(t == 1);
            assert(o.end.index == 0);
            assert(o.groups@[0].wf(o.e_of(0)));
            o.groups@[0].lemma_wf_unfold(o.e_of(0));
            assert(false);
        }
        assert forall|k: int| 0 <= k < n.glen() - 1 implies (#[trigger] n.groups@[k]).active_count >= 1 by {
            assert(n.groups@[k] == o.groups@[k]);
        }
        assert forall|k: int| 0 <= k < n.glen() implies (#[trigger] n.groups@[k]).active_count >= 1 by {
            if k < t {
                assert(n.groups@[k] == o.groups@[k]);
            }
        }
        // begin
        if t == 0 {
            assert(count_live(g2.slots@, 0) == 0);
            assert(n.groups@[0].live(0));
        } else {
            assert(n.groups@[0] == o.groups@[0]);
            assert(o.len > 0);
        }
        assert(n.end.group == Some((n.glen() - 1) as usize));
        assert(n.end.index <= n.groups@[n.glen() - 1].capacity);
        assert(n.cursors_ok());
        // reserved blocks
        assert forall|r: int| 0 <= r < n.reserved@.len() implies (#[trigger] n.reserved@[r]).is_blank() by {
            assert(n.reserved@[r] == o.reserved@[r]);
        }
        // ids
        let all_o = o.groups@ + o.reserved@;
        let all_n = n.groups@ + n.reserved@;
        let rl = o.reserved@.len() as int;
        if from_reserved {
            assert(all_n.len() == all_o.len());
            let f = |i: int| if i < t {
                i
            } else if i == t {
                t + rl - 1
            } else {
                i - 1
            };
            assert forall|i: int| 0 <= i < all_n.len() implies (#[trigger] all_n[i]).id == all_o[f(i)].id by {
                if i < t {
                    assert(all_n[i] == o.groups@[i]);
                } else if i == t {
                    assert(all_n[i] == g2);
                    assert(all_o[t + rl - 1] == o.reserved@[rl - 1]);
                } else {
                    assert(all_n[i] == n.reserved@[i - t - 1]);
                    assert(all_n[i] == o.reserved@[i - t - 1]);
                }
            }
            assert forall|i: int, j: int|
                0 <= i < all_n.len() && 0 <= j < all_n.len() && i != j implies (#[trigger] all_n[i]).id
                != (#[trigger] all_n[j]).id by {
                assert(all_o[f(i)].id != all_o[f(j)].id);
            }
            assert forall|i: int|
                0 <= i < all_n.len() && (#[trigger] all_n[i]).id.tag == n.tag implies all_n[i].id.serial
                < n.next_serial by {
                assert(all_n[i].id == all_o[f(i)].id);
            }
            crate::contents::lemma_sum_push(o.reserved@.drop_last(), o.reserved@.last(), |g: Group<T>| g.cap());
            assert(o.reserved@.drop_last().push(o.reserved@.last()) =~= o.reserved@);
        } else {
            assert forall|i: int| 0 <= i < all_n.len() && i != t implies (#[trigger] all_n[i]).id == all_o[
                if i < t {
                    i
                } else {
                    i - 1
                }
            ].id by {
                if i < t {
                    assert(all_n[i] == o.groups@[i]);
                } else {
                    assert(all_n[i] == o.reserved@[i - t - 1]);
                }
            }
            assert forall|i: int, j: int|
                0 <= i < all_n.len() && 0 <= j < all_n.len() && i != j implies (#[trigger] all_n[i]).id
                != (#[trigger] all_n[j]).id by {
                if i == t {
                    assert(all_n[i] == g2);
                    let jj = if j < t {
                        j
                    } else {
                        j - 1
                    };
                    assert(all_n[j].id == all_o[jj].id);
                } else if j == t {
                    assert(all_n[j] == g2);
                    let ii = if i < t {
                        i
                    } else {
                        i - 1
                    };
                    assert(all_n[i].id == all_o[ii].id);
                } else {
                    let ii = if i < t {
                        i
                    } else {
                        i - 1
                    };
                    let jj = if j < t {
                        j
                    } else {
                        j - 1
                    };
                    assert(all_o[ii].id != all_o[jj].id);
                }
            }
            assert forall|i: int|
                0 <= i < all_n.len() && (#[trigger] all_n[i]).id.tag == n.tag implies all_n[i].id.serial
                < n.next_serial by {
                if i == t {
                    assert(all_n[i] == g2);
                } else {
                    let ii = if i < t {
                        i
                    } else {
                        i - 1
                    };
                    assert(all_n[i].id == all_o[ii].id);
                }
            }
        }
        // stack
        assert forall|k2: int| 0 <= k2 < n.glen() implies (n.erasure_stack@.contains(#[trigger] n.groups@[k2].id)
            <==> n.groups@[k2].free_order@.len() > 0) by {
            if k2 < t {
                assert(!o.erasure_stack@.contains(o.groups@[k2].id));
                assert(n.groups@[k2] == o.groups@[k2]);
            }
        }
        // sums
        crate::contents::lemma_sum_push(o.groups@, g2, |g: Group<T>| g.active_count as int);
        crate::contents::lemma_sum_push(o.groups@, g2, |g: Group<T>| g.cap());
        assert(n.wf());
        // contents
        crate::contents::lemma_groups_entries_push(o.groups@, g2);
        crate::contents::lemma_single_entry(g2);
        assert(n@ =~= o@.push((h, value)));
        o.lemma_view_len();
        if o.contains(h) {
            let k3 = o.lemma_contained_is_held(h);
            o.lemma_ids_distinct();
            if from_reserved {
                assert(all_o[k3] == o.groups@[k3]);
                assert(all_o[t + rl - 1] == o.reserved@[rl - 1]);
            } else {
                assert(all_o[k3] == o.groups@[k3]);
            }
        }
        assert(o@.insert(o@.len() as int, (h, value)) =~= o@.push((h, value)));
    }

    /// Opens a new last block, reused from the reserve or allocated, and
    /// constructs `value` in its first slot.
    fn insert_new_group(&mut self, value: T) -> (h: Handle)
        requires
            old(self).wf(),
            old(self).has_room() || old(self).reserved@.len() > 0,
            old(self).erasure_stack@.len() == 0,
            old(self).glen() == 0 || old(self).end.index == old(self).groups@[old(self).glen() - 1].capacity,
        ensures
            Self::inserted(*old(self), *final(self), value, h),
            final(self)@ == old(self)@.push((h, value)),
            final(self).erasure_stack@ == old(self).erasure_stack@,
            old(self).reserved@.len() > 0 ==> final(self).total_capacity() == old(self).total_capacity(),
            old(self).reserved@.len() == 0 ==> final(self).total_capacity() == old(self).total_capacity() + clamp(
                old(self).len as int,
                old(self).min_block_capacity as int,
                old(self).max_block_capacity as int,
            ),
            old(self).reserved@.len() > 0 ==> final(self).blocks_made() == old(self).blocks_made(),
            old(self).sizes_fit() ==> final(self).sizes_fit(),
            final(self).reserved_capacity() <= old(self).reserved_capacity(),
    {
        let ghost o = *self;
        proof {
            self.lemma_full();
            self.lemma_glen_fits();
            if self.reserved@.len() > 0 {
                let rs = self.reserved@;
                assert(rs.drop_last().push(rs.last()) =~= rs);
                crate::contents::lemma_sum_push(rs.drop_last(), rs.last(), |g: Group<T>| g.cap());
                assert(rs[rs.len() - 1].is_blank());
                rs.last().lemma_wf_unfold(0);
            }
        }
        let from_reserved = self.reserved.len() > 0;
        let mut g = if from_reserved {
            proof {
                assert(self.reserved@[self.reserved@.len() - 1].is_blank());
            }
            self.reserved.pop().unwrap()
        } else {
            let cap = self.new_group_capacity();
            let id = GroupId { tag: self.tag, serial: self.next_serial };
            self.next_serial = self.next_serial + 1;
            self.capacity = self.capacity + cap as usize;
            Group::new(cap, id)
        };
        proof {
            g.lemma_blank_no_free();
            g.lemma_wf_unfold(0);
        }
        let ghost g0 = g;
        g.append_at(value, 0);
        let id = g.id;
        let ghost g2 = g;
        proof {
            assert forall|j: int| 1 <= j < g2.cap() implies !(#[trigger] g2.slots@[j] is Some) by {
                assert(g2.slots@[j] == g0.slots@[j]);
            }
        }
        let t = self.groups.len();
        self.groups.push(g);
        if t == 0 {
            self.begin = Cursor { group: Some(0), index: 0 };
        }
        self.end = Cursor { group: Some(t), index: 1 };
        self.len = self.len + 1;
        proof {
            Self::lemma_insert_new_group(o, *self, value, g2, from_reserved);
        }
        Handle { group: id, index: 0 }
    }

    /// The hive is full (every slot of every block holds an element)
    /// exactly when it has no hole, no reserved block and no unconstructed
    /// slot in its last block.
    proof fn lemma_full(&self)
        requires
            self.wf(),
        ensures
            self.len <= self.capacity,
            (self.len == self.capacity) <==> (self.erasure_stack@.len() == 0 && self.reserved@.len() == 0 && (
            self.glen() == 0 || self.end.index == self.groups@[self.glen() - 1].capacity)),
    {
        self.lemma_len_le_capacity();
        self.lemma_glen_fits();
        let wa = |g: Group<T>| g.active_count as int;
        let wc = |g: Group<T>| g.cap();
        assert forall|k: int| 0 <= k < self.glen() implies wa(#[trigger] self.groups@[k]) <= wc(self.groups@[k]) by {
            assert(self.groups@[k].wf(self.e_of(k)));
            self.groups@[k].lemma_wf_unfold(self.e_of(k));
            crate::group::lemma_count_live_bounds(self.groups@[k].slots@, self.groups@[k].cap());
        }
        crate::contents::lemma_sum_le(self.groups@, wa, wc);
        crate::contents::lemma_sum_nonneg(self.reserved@, wc);
        if self.erasure_stack@.len() > 0 {
            let id = self.erasure_stack@[0];
            assert(self.has_group(id));
            let k = choose|m: int| 0 <= m < self.glen() && #[trigger] self.groups@[m].id == id;
            assert(self.erasure_stack@.contains(self.groups@[k].id));
            let g = self.groups@[k];
            assert(g.wf(self.e_of(k)));
            g.lemma_wf_unfold(self.e_of(k));
            let s0 = g.free_order@[0];
            assert(g.is_run_start(s0, self.e_of(k)));
            crate::group::lemma_count_live_lt(g.slots@, g.cap(), s0);
            crate::contents::lemma_sum_lt(self.groups@, wa, wc, k);
        } else if self.reserved@.len() > 0 {
            assert(self.reserved@[0].is_blank());
            self.reserved@[0].lemma_wf_unfold(0);
            assert(self.reserved@.drop_last().push(self.reserved@.last()) =~= self.reserved@);
            crate::contents::lemma_sum_push(self.reserved@.drop_last(), self.reserved@.last(), wc);
            crate::contents::lemma_sum_nonneg(self.reserved@.drop_last(), wc);
            assert(self.reserved@.last().is_blank());
            self.reserved@.last().lemma_wf_unfold(0);
        } else if self.glen() > 0 && self.end.index < self.groups@[self.glen() - 1].capacity {
            let t = self.glen() - 1;
            let g = self.groups@[t];
            assert(g.wf(self.e_of(t)));
            g.lemma_wf_unfold(self.e_of(t));
            crate::group::lemma_count_live_lt(g.slots@, g.cap(), self.end.index as int);
            crate::contents::lemma_sum_lt(self.groups@, wa, wc, t);
        } else {
            self.lemma_no_holes_counts();
            assert forall|k: int| 0 <= k < self.glen() implies wc(#[trigger] self.groups@[k]) <= wa(self.groups@[k]) by {
                assert(self.groups@[k].active_count as int == self.e_of(k));
            }
            crate::contents::lemma_sum_le(self.groups@, wc, wa);
            assert(self.reserved@ =~= Seq::<Group<T>>::empty());
        }
    }

    /// Inserts `value` and returns its handle.
    ///
    /// An erased slot is reused when there is one; otherwise the value goes
    /// after the last element, in the last block or in a new one. The
    /// capacity grows only when every slot is in use, and then by one block
    /// of the element count clamped to the block capacity limits.
    pub fn insert(&mut self, value: T) -> (h: Handle)
        requires
            old(self).wf(),
            old(self).can_insert(),
        ensures
            Self::inserted(*old(self), *final(self), value, h),
            Self::fills_hole(*old(self), h),
            Self::placed(*old(self), *final(self), h, value),
            !old(self).has_holes() ==> !final(self).has_holes(),
            Self::insert_capacity(*old(self), *final(self)),
    {
        proof {
            self.lemma_holes_iff_stack();
            self.lemma_full();
            self.lemma_view_len();
            self.lemma_glen_fits();
        }
        let n = self.erasure_stack.len();
        if n > 0 {
            let id = self.erasure_stack[n - 1];
            proof {
                assert(self.has_group(id));
            }
            let k = self.find_group(id);
            proof {
                self.lemma_ids_distinct();
                let kk = choose|kk: int| 0 <= kk < self.glen() && self.groups@[kk].id == id;
                assert(kk == k);
            }
            let h = self.insert_reuse(value, k);
            proof {
                self.lemma_reserved_capacity();
            }
            h
        } else {
            let t = self.groups.len();
            let h = if t > 0 && self.end.index < self.groups[t - 1].capacity {
                proof {
                    if self.len > 0 {
                        self.lemma_last_in_last_block();
                    }
                }
                self.insert_append(value)
            } else {
                proof {
                    self.lemma_blocks_full();
                }
                self.insert_new_group(value)
            };
            proof {
                self.lemma_holes_iff_stack();
                self.lemma_reserved_capacity();
            }
            h
        }
    }
}



/// Drops `id` from the erasure stack.
fn stack_forget(stack: &mut Vec<GroupId>, id: GroupId)
    requires
        old(stack)@.no_duplicates(),
    ensures
        final(stack)@.no_duplicates(),
        forall|x: GroupId| #[trigger] final(stack)@.contains(x) <==> (old(stack)@.contains(x) && x != id),
{
    let ghost s0 = stack@;
    let mut j: usize = 0;
    while j < stack.len() && stack[j] != id
        invariant
            stack@ == s0,
            j <= s0.len(),
            forall|i: int| 0 <= i < j ==> #[trigger] s0[i] != id,
        decreases s0.len() - j,
    {
        j = j + 1;
    }
    if j < stack.len() {
        stack.remove(j);
        proof {
            let r = stack@;
            assert(r =~= s0.remove(j as int));
            assert forall|x: GroupId| #[trigger] r.contains(x) <==> (s0.contains(x) && x != id) by {
                if r.contains(x) {
                    let i = r.index_of(x);
                    if i < j {
                        assert(s0[i] == x);
                    } else {
                        assert(s0[i + 1] == x);
                        assert(i + 1 != j);
                    }
                }
                if s0.contains(x) && x != id {
                    let i = s0.index_of(x);
                    assert(i != j);
                    if i < j {
                        assert(r[i] == x);
                    } else {
                        assert(r[i - 1] == x);
                    }
                }
            }
            assert forall|a: int, b: int| 0 <= a < r.len() && 0 <= b < r.len() && a != b implies r[a] != r[b] by {
                let a2 = if a < j {
                    a
                } else {
                    a + 1
                };
                let b2 = if b < j {
                    b
                } else {
                    b + 1
                };
                assert(r[a] == s0[a2] && r[b] == s0[b2]);
            }
        }
    } else {
        proof {
            assert forall|x: GroupId| #[trigger] stack@.contains(x) <==> (s0.contains(x) && x != id) by {
                if s0.contains(x) {
                    let i = s0.index_of(x);
                    assert(s0[i] != id);
                }
            }
        }
    }
}

impl<T, A: Allocator> Hive<T, A> {
    /// What every erasure of the element named `h` guarantees.
    pub open spec fn erased(o: Self, n: Self, h: Handle) -> bool {
        &&& n.wf()
        &&& n@ == o@.remove(o.handles().index_of(h))
        &&& o.has_neighbour(h) ==> n.holes() == o.holes().insert(h)
        &&& !o.has_neighbour(h) ==> n.holes() == o.holes().filter(|x: Handle| x.group != h.group)
        &&& o.has_neighbour(h) ==> n.reserved_count() == o.reserved_count() && n.reserved_capacity()
            == o.reserved_capacity()
        &&& !o.has_neighbour(h) ==> n.reserved_count() == o.reserved_count() + 1 && n.reserved_capacity()
            > o.reserved_capacity()
        &&& o.sizes_fit() ==> n.sizes_fit()
        &&& n.total_capacity() == o.total_capacity()
        &&& n.limits() == o.limits()
        &&& n.allocator_value() == o.allocator_value()
        &&& n.blocks_made() == o.blocks_made()
    }

    /// Emptying slot `idx` of block `k`, which stays, adds one hole.
    proof fn lemma_keep_holes(o: Self, n: Self, k: int, idx: u16)
        requires
            o.wf(),
            0 <= k < o.glen(),
            idx < o.e_of(k),
            o.groups@[k].live(idx as int),
            n.groups@ == o.groups@.update(k, n.groups@[k]),
            n.groups@[k].id == o.groups@[k].id,
            n.groups@[k].capacity == o.groups@[k].capacity,
            n.groups@[k].slots@ == o.groups@[k].slots@.update(idx as int, None),
            n.end == o.end,
        ensures
            n.holes() == o.holes().insert(Handle { group: o.groups@[k].id, index: idx }),
    {
        let h = Handle { group: o.groups@[k].id, index: idx };
        assert(o.groups@[k].wf(o.e_of(k)));
        o.groups@[k].lemma_wf_unfold(o.e_of(k));
        assert forall|k2: int| 0 <= k2 < n.glen() implies #[trigger] n.e_of(k2) == o.e_of(k2) by {
            if k2 != k {
                assert(n.groups@[k2] == o.groups@[k2]);
            }
        }
        assert forall|x: Handle| #[trigger] n.holes().contains(x) <==> o.holes().insert(h).contains(x) by {
            if n.holes().contains(x) {
                let (k2, i) = choose|k2: int, i: int|
                    0 <= k2 < n.groups@.len() && 0 <= i < n.e_of(k2) && !n.groups@[k2].live(i) && x == (Handle {
                        group: n.groups@[k2].id,
                        index: i as u16,
                    });
                if k2 == k && i == idx {
                    assert(x == h);
                } else {
                    if k2 == k {
                        assert(n.groups@[k].slots@[i] == o.groups@[k].slots@[i]);
                    } else {
                        assert(n.groups@[k2] == o.groups@[k2]);
                    }
                    assert(!o.groups@[k2].live(i));
                    assert(o.holes().contains(x));
                }
            }
            if o.holes().insert(h).contains(x) {
                if x == h {
                    assert(!n.groups@[k].live(idx as int));
                    assert(n.holes().contains(x));
                } else {
                    let (k2, i) = choose|k2: int, i: int|
                        0 <= k2 < o.groups@.len() && 0 <= i < o.e_of(k2) && !o.groups@[k2].live(i) && x == (Handle {
                            group: o.groups@[k2].id,
                            index: i as u16,
                        });
                    if k2 == k {
                        assert(i != idx);
                        assert(n.groups@[k].slots@[i] == o.groups@[k].slots@[i]);
                    } else {
                        assert(n.groups@[k2] == o.groups@[k2]);
                    }
                    assert(!n.groups@[k2].live(i));
                    assert(n.holes().contains(x));
                }
            }
        }
        assert(n.holes() =~= o.holes().insert(h));
    }

    /// No other element shares a block that holds one element.
    proof fn lemma_alone(o: Self, k: int, idx: u16)
        requires
            o.wf(),
            0 <= k < o.glen(),
            idx < o.groups@[k].cap(),
            o.groups@[k].live(idx as int),
            o.groups@[k].active_count == 1,
        ensures
            !o.has_neighbour(Handle { group: o.groups@[k].id, index: idx }),
    {
        let h = Handle { group: o.groups@[k].id, index: idx };
        if o.has_neighbour(h) {
            let h2 = choose|h2: Handle| #[trigger] o.contains(h2) && h2 != h && h2.group == h.group;
            let k2 = o.lemma_contained_is_held(h2);
            o.lemma_ids_distinct();
            assert(k2 == k);
            let g = o.groups@[k];
            assert(g.wf(o.e_of(k)));
            g.lemma_wf_unfold(o.e_of(k));
            assert(h2.index != idx);
            crate::group::lemma_count_live_pos(g.slots@, g.cap(), idx as int);
            let lo = if h2.index < idx { h2.index as int } else { idx as int };
            let hi = if h2.index < idx { idx as int } else { h2.index as int };
            crate::group::lemma_count_live_pos(g.slots@, hi, lo);
            crate::group::lemma_count_live_mono(g.slots@, hi + 1, g.cap());
            assert(false);
        }
    }

    /// Another element shares a block that holds two or more.
    proof fn lemma_neighbour(o: Self, k: int, idx: u16)
        requires
            o.wf(),
            0 <= k < o.glen(),
            idx < o.groups@[k].cap(),
            o.groups@[k].live(idx as int),
            o.groups@[k].active_count >= 2,
        ensures
            o.has_neighbour(Handle { group: o.groups@[k].id, index: idx }),
    {
        let g = o.groups@[k];
        let h = Handle { group: g.id, index: idx };
        assert(g.wf(o.e_of(k)));
        g.lemma_wf_unfold(o.e_of(k));
        if !(exists|j: int| 0 <= j < g.cap() && j != idx && #[trigger] g.slots@[j] is Some) {
            assert(crate::group::vacant_range(g.slots@, 0, idx as int));
            assert(crate::group::vacant_range(g.slots@, idx + 1, g.cap()));
            crate::group::lemma_count_live_one(g.slots@, g.cap(), idx as int);
            assert(false);
        }
        let j = choose|j: int| 0 <= j < g.cap() && j != idx && #[trigger] g.slots@[j] is Some;
        o.lemma_slot_view(k, j);
        let h2 = Handle { group: g.id, index: j as u16 };
        assert(h2 != h);
        assert(o.contains(h2));
    }

    /// Dropping block `k` while the others keep their construction bounds
    /// drops exactly the holes of block `k`.
    proof fn lemma_drop_block_holes(o: Self, n: Self, k: int)
        requires
            o.ids_ok(),
            0 <= k < o.glen(),
            n.groups@ == o.groups@.remove(k),
            forall|k2: int|
                0 <= k2 < n.glen() ==> #[trigger] n.e_of(k2) == o.e_of(
                    if k2 < k {
                        k2
                    } else {
                        k2 + 1
                    },
                ),
        ensures
            n.holes() == o.holes().filter(|x: Handle| x.group != o.groups@[k].id),
    {
        o.lemma_ids_distinct();
        let id = o.groups@[k].id;
        assert forall|h: Handle| n.holes().contains(h) <==> (o.holes().contains(h) && h.group != id) by {
            if n.holes().contains(h) {
                let (k2, i) = choose|k2: int, i: int|
                    0 <= k2 < n.groups@.len() && 0 <= i < n.e_of(k2) && !n.groups@[k2].live(i) && h == (Handle {
                        group: n.groups@[k2].id,
                        index: i as u16,
                    });
                let m = if k2 < k {
                    k2
                } else {
                    k2 + 1
                };
                assert(n.groups@[k2] == o.groups@[m]);
                assert(n.e_of(k2) == o.e_of(m));
                assert(o.groups@[m].id != o.groups@[k].id);
                assert(0 <= m < o.groups@.len() && 0 <= i < o.e_of(m) && !o.groups@[m].live(i));
            }
            if o.holes().contains(h) && h.group != id {
                let (m, i) = choose|m: int, i: int|
                    0 <= m < o.groups@.len() && 0 <= i < o.e_of(m) && !o.groups@[m].live(i) && h == (Handle {
                        group: o.groups@[m].id,
                        index: i as u16,
                    });
                assert(m != k);
                let k2 = if m < k {
                    m
                } else {
                    m - 1
                };
                assert(n.groups@[k2] == o.groups@[m]);
                assert(n.e_of(k2) == o.e_of(m));
                assert(0 <= k2 < n.groups@.len() && 0 <= i < n.e_of(k2) && !n.groups@[k2].live(i));
            }
        }
        assert(n.holes() =~= o.holes().filter(|x: Handle| x.group != id));
    }

    /// Facts about erasing from a block that keeps other elements.
    #[verifier::spinoff_prover]
    #[verifier::rlimit(40)]
    proof fn lemma_take_keep(o: Self, n: Self, k: int, idx: u16, v: T, was_empty: bool, b: u16)
        requires
            o.wf(),
            0 <= k < o.glen(),
            idx < o.e_of(k),
            o.groups@[k].slots@[idx as int] == Some(v),
            o.groups@[k].active_count >= 2,
            n.groups@ == o.groups@.update(k, n.groups@[k]),
            n.groups@[k].wf(o.e_of(k)),
            n.groups@[k].id == o.groups@[k].id,
            n.groups@[k].capacity == o.groups@[k].capacity,
            n.groups@[k].slots@ == o.groups@[k].slots@.update(idx as int, None),
            n.groups@[k].active_count == o.groups@[k].active_count - 1,
            n.groups@[k].free_order@.len() > 0,
            was_empty == (o.groups@[k].free_order@.len() == 0),
            was_empty ==> n.erasure_stack@ == o.erasure_stack@.push(o.groups@[k].id),
            !was_empty ==> n.erasure_stack@ == o.erasure_stack@,
            k == 0 && idx == o.begin.index ==> idx < b < o.e_of(0) && o.groups@[0].live(b as int)
                && crate::group::vacant_range(o.groups@[0].slots@, idx + 1, b as int),
            n.begin == (if k == 0 && idx == o.begin.index {
                Cursor { group: Some(0), index: b }
            } else {
                o.begin
            }),
            n.len == o.len - 1,
            n.end == o.end,
            n.reserved@ == o.reserved@,
            n.capacity == o.capacity,
            n.tag == o.tag,
            n.next_serial == o.next_serial,
            n.min_block_capacity == o.min_block_capacity,
            n.max_block_capacity == o.max_block_capacity,
            n.allocator == o.allocator,
        ensures
            Self::erased(o, n, Handle { group: o.groups@[k].id, index: idx }),
            o.value_of(Handle { group: o.groups@[k].id, index: idx }) == v,
    {
        let g = o.groups@[k];
        let g2 = n.groups@[k];
        let e = o.e_of(k);
        let h = Handle { group: g.id, index: idx };
        Self::lemma_neighbour(o, k, idx);
        assert(g.wf(e));
        g.lemma_wf_unfold(e);
        Self::lemma_keep_holes(o, n, k, idx);
        Self::lemma_update_group(o, n, k);
        assert forall|kk: int| 0 <= kk < n.glen() implies (#[trigger] n.groups@[kk]).capacity
            == o.groups@[kk].capacity by {
        }
        Self::lemma_sizes_same(o, n);
        // stack
        let id = g.id;
        let st = o.erasure_stack@;
        if was_empty {
            let ns = n.erasure_stack@;
            assert(!st.contains(id));
            assert forall|k2: int| 0 <= k2 < n.glen() implies (ns.contains(#[trigger] n.groups@[k2].id)
                <==> n.groups@[k2].free_order@.len() > 0) by {
                o.lemma_ids_distinct();
                if k2 != k {
                    assert(n.groups@[k2] == o.groups@[k2]);
                    let id2 = o.groups@[k2].id;
                    assert(id2 != id);
                    if st.contains(id2) {
                        let j = st.index_of(id2);
                        assert(ns[j] == id2);
                    }
                    if ns.contains(id2) {
                        let j = ns.index_of(id2);
                        assert(j < st.len());
                        assert(st[j] == id2);
                    }
                } else {
                    assert(ns[st.len() as int] == id);
                }
            }
            assert forall|j: int| 0 <= j < ns.len() implies n.has_group(#[trigger] ns[j]) by {
                if j < st.len() {
                    assert(st[j] == ns[j]);
                    assert(o.has_group(st[j]));
                    let m = choose|m: int| 0 <= m < o.glen() && #[trigger] o.groups@[m].id == st[j];
                    assert(n.groups@[m].id == ns[j]);
                } else {
                    assert(n.groups@[k].id == ns[j]);
                }
            }
            assert(ns.no_duplicates()) by {
                assert forall|a: int, c: int| 0 <= a < ns.len() && 0 <= c < ns.len() && a != c implies ns[a]
                    != ns[c] by {
                    if a < st.len() && c < st.len() {
                        assert(ns[a] == st[a] && ns[c] == st[c]);
                    } else if a < st.len() {
                        assert(ns[a] == st[a]);
                    } else if c < st.len() {
                        assert(ns[c] == st[c]);
                    }
                }
            }
        } else {
            assert forall|k2: int| 0 <= k2 < n.glen() implies (n.erasure_stack@.contains(#[trigger] n.groups@[k2].id)
                <==> n.groups@[k2].free_order@.len() > 0) by {
                if k2 != k {
                    assert(n.groups@[k2] == o.groups@[k2]);
                }
            }
            assert forall|j: int| 0 <= j < st.len() implies n.has_group(#[trigger] st[j]) by {
                assert(o.has_group(st[j]));
                let m = choose|m: int| 0 <= m < o.glen() && #[trigger] o.groups@[m].id == st[j];
                assert(n.groups@[m].id == st[j]);
            }
        }
        // begin
        assert(o.len >= 2) by {
            assert forall|j: int| 0 <= j < o.glen() implies (|g: Group<T>| g.active_count as int)(
                #[trigger] o.groups@[j],
            ) >= 0 by {
            }
            crate::contents::lemma_sum_pos(o.groups@, |g: Group<T>| g.active_count as int, k);
        }
        if k == 0 {
            let bi = o.begin.index as int;
            crate::group::lemma_count_live_bounds(g.slots@, idx as int);
            if idx as int == bi {
                crate::group::lemma_count_live_update(g.slots@, idx as int, None, idx as int);
                assert(count_live(g2.slots@, idx + 1) == count_live(g2.slots@, idx as int));
                assert(crate::group::vacant_range(g2.slots@, idx + 1, b as int)) by {
                    assert forall|j: int| idx + 1 <= j < b implies !(#[trigger] g2.slots@[j] is Some) by {
                        assert(g2.slots@[j] == g.slots@[j]);
                    }
                }
                crate::group::lemma_count_live_vacant(g2.slots@, idx + 1, b as int);
                assert(g2.live(b as int));
            } else {
                if (idx as int) < bi {
                    crate::group::lemma_count_live_mono(g.slots@, idx + 1, bi);
                    assert(false);
                }
                crate::group::lemma_count_live_update(g.slots@, idx as int, None, bi);
                assert(g2.live(bi));
            }
        } else {
            assert(n.groups@[0] == o.groups@[0]);
        }
        assert(n.cursors_ok());
        assert(n.stack_ok());
        assert(n.wf());
        // contents
        crate::contents::lemma_vacate_slot(o.groups@, k, g2, idx as int);
        let r = crate::contents::rank(o.groups@, k, idx as int);
        o.lemma_view_unique();
        assert(o.handles()[r] == h);
        let j = o.handles().index_of(h);
        assert(o.handles()[j] == h);
        assert(j == r) by {
            if j < r {
                assert(o@[j].0 != o@[r].0);
            } else if j > r {
                assert(o@[r].0 != o@[j].0);
            }
        }
    }

    /// Facts about erasing the last element of block `k`, which moves to
    /// the reserve.
    #[verifier::spinoff_prover]
    #[verifier::rlimit(60)]
    proof fn lemma_take_block(o: Self, n: Self, k: int, idx: u16, v: T, gb: Group<T>, b: u16)
        requires
            o.wf(),
            0 <= k < o.glen(),
            idx < o.groups@[k].cap(),
            o.groups@[k].slots@[idx as int] == Some(v),
            o.groups@[k].active_count == 1,
            gb.is_blank(),
            gb.id == o.groups@[k].id,
            gb.capacity == o.groups@[k].capacity,
            n.groups@ == o.groups@.remove(k),
            n.reserved@ == o.reserved@.push(gb),
            n.erasure_stack@.no_duplicates(),
            forall|x: GroupId| #[trigger] n.erasure_stack@.contains(x) <==> (o.erasure_stack@.contains(x) && x != gb.id),
            n.glen() == 0 ==> n.begin == (Cursor { group: None, index: 0 }) && n.end == (Cursor { group: None, index: 0 }),
            n.glen() > 0 ==> n.end == (if k == o.glen() - 1 {
                Cursor { group: Some((n.glen() - 1) as usize), index: n.groups@[n.glen() - 1].capacity }
            } else {
                Cursor { group: Some((n.glen() - 1) as usize), index: o.end.index }
            }),
            n.glen() > 0 && k == 0 ==> n.begin == (Cursor { group: Some(0), index: b }) && b <= n.e_of(0)
                && crate::group::vacant_range(n.groups@[0].slots@, 0, b as int) && (b < n.e_of(0) ==> n.groups@[0].live(
                b as int,
            )),
            n.glen() > 0 && k > 0 ==> n.begin == o.begin,
            n.len == o.len - 1,
            n.capacity == o.capacity,
            n.tag == o.tag,
            n.next_serial == o.next_serial,
            n.min_block_capacity == o.min_block_capacity,
            n.max_block_capacity == o.max_block_capacity,
            n.allocator == o.allocator,
        ensures
            Self::erased(o, n, Handle { group: gb.id, index: idx }),
            o.value_of(Handle { group: gb.id, index: idx }) == v,
    {
        let g = o.groups@[k];
        let h = Handle { group: gb.id, index: idx };
        let gl = o.glen();
        let wa = |x: Group<T>| x.active_count as int;
        let wc = |x: Group<T>| x.cap();
        assert(g.wf(o.e_of(k)));
        g.lemma_wf_unfold(o.e_of(k));
        Self::lemma_alone(o, k, idx);
        if o.sizes_fit() {
            assert forall|kk: int| 0 <= kk < n.glen() implies n.min_block_capacity <= (
            #[trigger] n.groups@[kk]).capacity <= n.max_block_capacity by {
                if kk < k {
                    assert(n.groups@[kk] == o.groups@[kk]);
                } else {
                    assert(n.groups@[kk] == o.groups@[kk + 1]);
                }
            }
            assert forall|r: int| 0 <= r < n.reserved@.len() implies n.min_block_capacity <= (
            #[trigger] n.reserved@[r]).capacity <= n.max_block_capacity by {
                if r < o.reserved@.len() {
                    assert(n.reserved@[r] == o.reserved@[r]);
                } else {
                    assert(n.reserved@[r] == gb);
                }
            }
            assert(n.sizes_fit());
        }
        o.lemma_ids_distinct();
        let f = |i: int| if i < k {
            i
        } else {
            i + 1
        };
        assert forall|i: int| 0 <= i < n.glen() implies #[trigger] n.groups@[i] == o.groups@[f(i)] by {
        }
        // counts
        assert forall|j: int| 0 <= j < gl implies wa(#[trigger] o.groups@[j]) >= 0 by {
        }
        crate::contents::lemma_sum_pos(o.groups@, wa, k);
        assert(o.len > 0);
        crate::contents::lemma_sum_remove(o.groups@, k, wa);
        crate::contents::lemma_sum_remove(o.groups@, k, wc);
        crate::contents::lemma_sum_push(o.reserved@, gb, wc);
        if n.glen() > 0 {
            assert forall|j: int| 0 <= j < n.glen() implies wa(#[trigger] n.groups@[j]) >= 0 by {
            }
            assert(n.groups@[0] == o.groups@[f(0)]);
            crate::contents::lemma_sum_pos(n.groups@, wa, 0);
            assert(n.len > 0);
        } else {
            assert(n.groups@ =~= Seq::<Group<T>>::empty());
            assert(n.len == 0);
        }
        // blocks
        assert forall|k2: int| 0 <= k2 < n.glen() implies #[trigger] n.e_of(k2) == o.e_of(f(k2)) by {
            if k2 == n.glen() - 1 {
                if k == gl - 1 {
                    assert(f(k2) == gl - 2);
                } else {
                    assert(f(k2) == gl - 1);
                }
            }
        }
        assert forall|k2: int| 0 <= k2 < n.glen() implies (#[trigger] n.groups@[k2]).wf(n.e_of(k2)) by {
            assert(n.groups@[k2] == o.groups@[f(k2)]);
            assert(n.e_of(k2) == o.e_of(f(k2)));
            assert(o.groups@[f(k2)].wf(o.e_of(f(k2))));
        }
        Self::lemma_drop_block_holes(o, n, k);
        gb.lemma_wf_unfold(0);
        assert forall|k2: int| 0 <= k2 < n.glen() implies (#[trigger] n.groups@[k2]).active_count >= 1 by {
            assert(n.groups@[k2] == o.groups@[f(k2)]);
        }
        assert(n.groups_ok());
        // cursors
        if n.glen() > 0 {
            let t = n.glen() - 1;
            assert(n.groups@[t] == o.groups@[f(t)]);
            if k != gl - 1 {
                assert(o.groups@[gl - 1] == n.groups@[t]);
            }
            if k == 0 {
                let g0 = n.groups@[0];
                let e0 = n.e_of(0);
                assert(g0.wf(e0));
                g0.lemma_wf_unfold(e0);
                if b as int == e0 {
                    assert(crate::group::vacant_range(g0.slots@, 0, g0.cap())) by {
                        assert forall|j: int| 0 <= j < g0.cap() implies !(#[trigger] g0.slots@[j] is Some) by {
                            if j >= e0 {
                                assert(!g0.live(j));
                            }
                        }
                    }
                    crate::group::lemma_count_live_vacant(g0.slots@, 0, g0.cap());
                    assert(false);
                }
                crate::group::lemma_count_live_vacant(g0.slots@, 0, b as int);
            } else {
                assert(n.groups@[0] == o.groups@[0]);
            }
        }
        assert(n.cursors_ok());
        // reserve
        assert forall|r: int| 0 <= r < n.reserved@.len() implies (#[trigger] n.reserved@[r]).is_blank() by {
            if r < o.reserved@.len() {
                assert(n.reserved@[r] == o.reserved@[r]);
            }
        }
        // ids
        let all_o = o.groups@ + o.reserved@;
        let all_n = n.groups@ + n.reserved@;
        let rl = o.reserved@.len() as int;
        let fi = |i: int| if i < k {
            i
        } else if i < gl - 1 + rl {
            i + 1
        } else {
            k
        };
        assert forall|i: int| 0 <= i < all_n.len() implies (#[trigger] all_n[i]).id == all_o[fi(i)].id by {
            if i < gl - 1 {
                assert(all_n[i] == n.groups@[i]);
                assert(all_o[fi(i)] == o.groups@[f(i)]);
            } else if i < gl - 1 + rl {
                assert(all_n[i] == o.reserved@[i - (gl - 1)]);
                assert(all_o[i + 1] == o.reserved@[i - (gl - 1)]);
            } else {
                assert(all_n[i] == gb);
                assert(all_o[k] == g);
            }
        }
        assert forall|i: int, j: int|
            0 <= i < all_n.len() && 0 <= j < all_n.len() && i != j implies (#[trigger] all_n[i]).id
            != (#[trigger] all_n[j]).id by {
            assert(all_o[fi(i)].id != all_o[fi(j)].id);
        }
        assert forall|i: int|
            0 <= i < all_n.len() && (#[trigger] all_n[i]).id.tag == n.tag implies all_n[i].id.serial
            < n.next_serial by {
            assert(all_n[i].id == all_o[fi(i)].id);
        }
        // stack
        assert forall|j: int| 0 <= j < n.erasure_stack@.len() implies n.has_group(#[trigger] n.erasure_stack@[j]) by {
            let x = n.erasure_stack@[j];
            assert(n.erasure_stack@.contains(x));
            assert(o.erasure_stack@.contains(x));
            let jo = o.erasure_stack@.index_of(x);
            assert(o.has_group(o.erasure_stack@[jo]));
            let m = choose|m: int| 0 <= m < o.glen() && #[trigger] o.groups@[m].id == x;
            assert(m != k);
            let m2 = if m < k {
                m
            } else {
                m - 1
            };
            assert(n.groups@[m2] == o.groups@[f(m2)]);
            assert(n.groups@[m2].id == x);
        }
        assert forall|k2: int| 0 <= k2 < n.glen() implies (n.erasure_stack@.contains(#[trigger] n.groups@[k2].id)
            <==> n.groups@[k2].free_order@.len() > 0) by {
            assert(n.groups@[k2] == o.groups@[f(k2)]);
            assert(o.groups@[f(k2)].id != gb.id);
        }
        assert(n.wf());
        // contents
        crate::contents::lemma_groups_entries_remove(o.groups@, k);
        crate::contents::lemma_group_entries_single(g, idx as int);
        let pre = groups_entries(o.groups@, 0, k);
        let post = groups_entries(o.groups@, k + 1, gl);
        crate::contents::lemma_seq_remove_mid(pre, post, (h, v));
        assert(o@ == pre + seq![(h, v)] + post);
        assert(n@ == pre + post);
        let r = pre.len() as int;
        assert(o@[r] == (h, v));
        o.lemma_view_unique();
        assert(o.handles()[r] == h);
        let j = o.handles().index_of(h);
        assert(o.handles()[j] == h);
        assert(j == r) by {
            if j < r {
                assert(o@[j].0 != o@[r].0);
            } else if j > r {
                assert(o@[r].0 != o@[j].0);
            }
        }
    }

    /// Removes the element named `h` and hands it back.
    pub(crate) fn take(&mut self, h: Handle) -> (v: T)
        requires
            old(self).wf(),
            old(self).contains(h),
        ensures
            Self::erased(*old(self), *final(self), h),
            v == old(self).value_of(h),
    {
        let ghost o = *self;
        let ghost k0 = self.lemma_contained_is_held(h);
        proof {
            assert(self.has_group(h.group));
            self.lemma_glen_fits();
        }
        let k = self.find_group(h.group);
        proof {
            self.lemma_ids_distinct();
            assert(k == k0);
            assert(self.groups@[k as int].wf(self.e_of(k as int)));
            self.groups@[k as int].lemma_wf_unfold(self.e_of(k as int));
            assert(self.groups@[k as int].live(h.index as int));
            if h.index as int >= self.e_of(k as int) {
                assert(!self.groups@[k as int].live(h.index as int));
            }
        }
        let idx = h.index;
        if self.groups[k].active_count > 1 {
            let ghost e = self.e_of(k as int);
            let mut b: u16 = 0;
            if k == 0 && idx == self.begin.index {
                b = self.groups[0].next_live(idx, Ghost(e));
                proof {
                    let g = self.groups@[0];
                    if b as int == e {
                        assert(crate::group::vacant_range(g.slots@, 0, idx as int)) by {
                            assert forall|j: int| 0 <= j < idx implies !(#[trigger] g.slots@[j] is Some) by {
                                if g.slots@[j] is Some {
                                    crate::group::lemma_count_live_pos(g.slots@, idx as int, j);
                                }
                            }
                        }
                        assert(crate::group::vacant_range(g.slots@, idx + 1, g.cap())) by {
                            assert forall|j: int| idx + 1 <= j < g.cap() implies !(#[trigger] g.slots@[j] is Some) by {
                                if j >= e {
                                    assert(!g.live(j));
                                }
                            }
                        }
                        crate::group::lemma_count_live_one(g.slots@, g.cap(), idx as int);
                        assert(false);
                    }
                }
            }
            let (v, was_empty) = self.groups[k].erase_at(idx, Ghost(e));
            if was_empty {
                let id = self.groups[k].id;
                self.erasure_stack.push(id);
            }
            if k == 0 && idx == self.begin.index {
                self.begin = Cursor { group: Some(0), index: b };
            }
            self.len = self.len - 1;
            proof {
                Self::lemma_take_keep(o, *self, k as int, idx, v, was_empty, b);
            }
            v
        } else {
            let mut g = self.groups.remove(k);
            let mut taken: Option<T> = None;
            core::mem::swap(&mut g.slots[idx as usize], &mut taken);
            let v = taken.unwrap();
            g.clear();
            let id = g.id;
            let ghost gb = g;
            self.reserved.push(g);
            stack_forget(&mut self.erasure_stack, id);
            self.len = self.len - 1;
            let gl = self.groups.len();
            let mut b: u16 = 0;
            if gl == 0 {
                self.begin = Cursor::null();
                self.end = Cursor::null();
            } else {
                if k == gl {
                    let c = self.groups[gl - 1].capacity;
                    self.end = Cursor { group: Some(gl - 1), index: c };
                } else {
                    self.end = Cursor { group: Some(gl - 1), index: self.end.index };
                }
                if k == 0 {
                    proof {
                        assert(self.groups@[0] == o.groups@[1]);
                        assert(o.groups@[1].wf(o.e_of(1)));
                        assert(self.e_of(0) == o.e_of(1));
                        o.groups@[1].lemma_wf_unfold(o.e_of(1));
                    }
                    b = self.groups[0].first_live(Ghost(self.e_of(0)));
                    self.begin = Cursor { group: Some(0), index: b };
                }
            }
            proof {
                Self::lemma_take_block(o, *self, k as int, idx, v, gb, b);
            }
            v
        }
    }

    /// Erases the element named `h`; its slot becomes a hole that a later
    /// insertion may reuse, unless it was the last element of its block,
    /// which then moves to the reserve and takes its holes along.
    pub fn erase(&mut self, h: Handle)
        requires
            old(self).wf(),
            old(self).contains(h),
        ensures
            Self::erased(*old(self), *final(self), h),
    {
        let _ = self.take(h);
    }
}



impl<T, A: Allocator> Hive<T, A> {
    /// Position of the block that carries `id`, if any.
    fn find_group_opt(&self, id: GroupId) -> (r: Option<usize>)
        ensures
            match r {
                Some(k) => k < self.glen() && self.groups@[k as int].id == id,
                None => !self.has_group(id),
            },
    {
        let mut k: usize = 0;
        while k < self.groups.len()
            invariant
                k <= self.groups@.len(),
                forall|j: int| 0 <= j < k ==> #[trigger] self.groups@[j].id != id,
            decreases self.groups@.len() - k,
        {
            if self.groups[k].id == id {
                return Some(k);
            }
            k = k + 1;
        }
        None
    }

    /// Slot `i` of block `k` is in the hive exactly when it is occupied,
    /// with the value it holds.
    proof fn lemma_slot_view(&self, k: int, i: int)
        requires
            self.wf(),
            0 <= k < self.glen(),
            0 <= i < self.groups@[k].cap(),
        ensures
            self.groups@[k].live(i) ==> self.contains(Handle { group: self.groups@[k].id, index: i as u16 })
                && self.value_of(Handle { group: self.groups@[k].id, index: i as u16 }) == self.groups@[k].slots@[i]->0,
            !self.groups@[k].live(i) ==> !self.contains(Handle { group: self.groups@[k].id, index: i as u16 }),
    {
        let g = self.groups@[k];
        let h = Handle { group: g.id, index: i as u16 };
        assert(g.wf(self.e_of(k)));
        g.lemma_wf_unfold(self.e_of(k));
        self.lemma_ids_distinct();
        if g.live(i) {
            let x = g.slots@[i]->0;
            assert(g.slots@ =~= g.slots@.update(i, Some(x)));
            crate::contents::lemma_set_slot(self.groups@, k, g, i, x);
            let r = crate::contents::rank(self.groups@, k, i);
            assert(self.handles()[r] == h);
            self.lemma_view_unique();
            let j = self.handles().index_of(h);
            assert(self.handles()[j] == h);
            assert(j == r) by {
                if j < r {
                    assert(self@[j].0 != self@[r].0);
                } else if j > r {
                    assert(self@[r].0 != self@[j].0);
                }
            }
        } else if self.contains(h) {
            let k3 = self.lemma_contained_is_held(h);
            assert(k3 == k);
        }
    }

    /// The element named `h`, if it is in the hive.
    pub fn get(&self, h: Handle) -> (r: Option<&T>)
        requires
            self.wf(),
        ensures
            r is Some <==> self.contains(h),
            r matches Some(x) ==> *x == self.value_of(h),
    {
        match self.find_group_opt(h.group) {
            None => {
                proof {
                    if self.contains(h) {
                        let k3 = self.lemma_contained_is_held(h);
                    }
                }
                None
            },
            Some(k) => {
                if h.index < self.groups[k].capacity {
                    proof {
                        self.lemma_slot_view(k as int, h.index as int);
                        assert(self.groups@[k as int].wf(self.e_of(k as int)));
                        self.groups@[k as int].lemma_wf_unfold(self.e_of(k as int));
                    }
                    match &self.groups[k].slots[h.index as usize] {
                        Some(x) => Some(x),
                        None => None,
                    }
                } else {
                    proof {
                        if self.contains(h) {
                            let k3 = self.lemma_contained_is_held(h);
                            self.lemma_ids_distinct();
                            assert(k3 == k);
                        }
                    }
                    None
                }
            },
        }
    }
}



impl<T, A: Allocator> Hive<T, A> {
    /// What every change of the value named `h` to `x` guarantees.
    pub open spec fn assigned(o: Self, n: Self, h: Handle, x: T) -> bool {
        &&& n.wf()
        &&& n.sizes_fit() == o.sizes_fit()
        &&& n@ == o@.update(o.handles().index_of(h), (h, x))
        &&& n.holes() == o.holes()
        &&& n.reserved_capacity() == o.reserved_capacity()
        &&& n.total_capacity() == o.total_capacity()
        &&& n.limits() == o.limits()
        &&& n.allocator_value() == o.allocator_value()
        &&& n.blocks_made() == o.blocks_made()
    }

    /// `n` is `o` with the value in slot `i` of block `k` set to `x`.
    spec fn slot_set(o: Self, n: Self, k: int, i: int, x: T) -> bool {
        &&& n.groups@ == o.groups@.update(k, n.groups@[k])
        &&& n.groups@[k].slots@ == o.groups@[k].slots@.update(i, Some(x))
        &&& n.groups@[k].id == o.groups@[k].id
        &&& n.groups@[k].capacity == o.groups@[k].capacity
        &&& n.groups@[k].active_count == o.groups@[k].active_count
        &&& n.groups@[k].free_list_head == o.groups@[k].free_list_head
        &&& n.groups@[k].skipfield == o.groups@[k].skipfield
        &&& n.groups@[k].prev_free == o.groups@[k].prev_free
        &&& n.groups@[k].next_free == o.groups@[k].next_free
        &&& n.groups@[k].free_order == o.groups@[k].free_order
        &&& n.reserved == o.reserved
        &&& n.erasure_stack == o.erasure_stack
        &&& n.begin == o.begin
        &&& n.end == o.end
        &&& n.len == o.len
        &&& n.capacity == o.capacity
        &&& n.min_block_capacity == o.min_block_capacity
        &&& n.max_block_capacity == o.max_block_capacity
        &&& n.tag == o.tag
        &&& n.next_serial == o.next_serial
        &&& n.allocator == o.allocator
    }

    /// A change of one value that keeps the blocks' shape.
    pub(crate) closed spec fn mutated(o: Self, n: Self, h: Handle, x: T) -> bool {
        &&& Self::assigned(o, n, h, x)
        &&& Self::same_shape(o, n)
    }

    pub(crate) proof fn lemma_mutated(o: Self, n: Self, h: Handle, x: T)
        requires
            Self::mutated(o, n, h, x),
        ensures
            Self::assigned(o, n, h, x),
            Self::same_shape(o, n),
    {
    }

    /// Cursors keep pointing at the same positions across a change that
    /// keeps the shape.
    pub(crate) proof fn lemma_same_shape_at(o: Self, n: Self, c: Cursor, p: int)
        requires
            o.wf(),
            n.wf(),
            Self::same_shape(o, n),
            o.at(c, p),
        ensures
            n.at(c, p),
    {
        let k = c.group->0 as int;
        let wa = |g: Group<T>| g.active_count as int;
        assert(o.groups@[k].wf(o.e_of(k)));
        o.groups@[k].lemma_wf_unfold(o.e_of(k));
        assert forall|j: int| 0 <= j < k implies (#[trigger] o.groups@[j]).active_count as int == count_live(
            o.groups@[j].slots@,
            o.groups@[j].cap(),
        ) by {
            assert(o.groups@[j].wf(o.e_of(j)));
            o.groups@[j].lemma_wf_unfold(o.e_of(j));
        }
        assert forall|j: int| 0 <= j < k implies (#[trigger] n.groups@[j]).active_count as int == count_live(
            n.groups@[j].slots@,
            n.groups@[j].cap(),
        ) by {
            assert(n.groups@[j].wf(n.e_of(j)));
            n.groups@[j].lemma_wf_unfold(n.e_of(j));
        }
        crate::contents::lemma_groups_entries_len(o.groups@, k);
        crate::contents::lemma_groups_entries_len(n.groups@, k);
        assert forall|j: int| 0 <= j < k implies wa(#[trigger] o.groups@.subrange(0, k)[j]) == wa(
            n.groups@.subrange(0, k)[j],
        ) by {
            assert(o.groups@.subrange(0, k)[j] == o.groups@[j]);
            assert(n.groups@.subrange(0, k)[j] == n.groups@[j]);
        }
        crate::contents::lemma_sum_eq(o.groups@.subrange(0, k), n.groups@.subrange(0, k), wa);
        assert forall|j: int| 0 <= j < c.index implies (#[trigger] o.groups@[k].slots@[j] is Some) == (
        n.groups@[k].slots@[j] is Some) by {
            assert(o.groups@[k].live(j) == n.groups@[k].live(j));
        }
        crate::group::lemma_count_live_same(o.groups@[k].slots@, n.groups@[k].slots@, c.index as int);
        assert(n.groups@[k].live(c.index as int) == o.groups@[k].live(c.index as int));
    }

    /// Setting the value of an occupied slot keeps the structure and
    /// changes one entry.
    proof fn lemma_slot_set(o: Self, k: int, i: int)
        requires
            o.wf(),
            0 <= k < o.glen(),
            0 <= i < o.groups@[k].cap(),
            o.groups@[k].live(i),
        ensures
            forall|n: Self, x: T|
                #[trigger] Self::assigned(o, n, Handle { group: o.groups@[k].id, index: i as u16 }, x)
                    <== Self::slot_set(o, n, k, i, x),
            forall|n: Self, x: T|
                #[trigger] Self::mutated(o, n, Handle { group: o.groups@[k].id, index: i as u16 }, x)
                    <== Self::slot_set(o, n, k, i, x),
    {
        assert forall|n: Self, x: T|
            Self::slot_set(o, n, k, i, x) implies #[trigger] Self::assigned(
            o,
            n,
            Handle { group: o.groups@[k].id, index: i as u16 },
            x,
        ) by {
            let g = o.groups@[k];
            let g2 = n.groups@[k];
            let e = o.e_of(k);
            assert(g.wf(e));
            g.lemma_wf_unfold(e);
            assert(g2.shape_ok());
            assert(forall|j: int| 0 <= j < g.cap() ==> g2.live(j) == g.live(j));
            assert forall|a: int, b: int| 0 <= a <= b <= g.cap() && crate::group::vacant_range(g.slots@, a, b) implies
                #[trigger] crate::group::vacant_range(g2.slots@, a, b) by {
                assert forall|j: int| a <= j < b implies !(#[trigger] g2.slots@[j] is Some) by {
                    assert(!(g.slots@[j] is Some));
                }
            }
            assert forall|j: int| 0 <= j < e implies (#[trigger] g2.live(j) <==> g2.sf(j) == 0) by {
                assert(g.live(j) <==> g.sf(j) == 0);
            }
            assert forall|j: int| e <= j <= g2.cap() implies #[trigger] g2.sf(j) == 0 by {
                assert(g.sf(j) == 0);
            }
            assert forall|j: int| e <= j < g2.cap() implies !#[trigger] g2.live(j) by {
                assert(!g.live(j));
            }
            assert forall|t: int| #[trigger] g2.is_run_start(t, e) implies g2.run_start_ok(t, e) by {
                assert(g.is_run_start(t, e));
                assert(g.run_start_ok(t, e));
                let l = g.sf(t);
                assert(crate::group::vacant_range(g2.slots@, t, t + l));
            }
            assert forall|t: int| #[trigger] g2.is_run_end(t, e) implies g2.run_end_ok(t, e) by {
                assert(g.is_run_end(t, e));
                assert(g.run_end_ok(t, e));
                let l = g.sf(t);
                assert(g.is_run_start(t - l + 1, e));
            }
            assert(g2.skip_ok(e));
            assert(g2.free_ok(e)) by {
                assert forall|s: int| #[trigger] g2.is_run_start(s, e) <==> g.is_run_start(s, e) by {
                }
                let q = g2.free_order@;
                assert forall|kk: int| 0 <= kk < q.len() implies g2.is_run_start(#[trigger] q[kk], e) by {
                    assert(g.is_run_start(q[kk], e));
                }
            }
            crate::group::lemma_count_live_update(g.slots@, i, Some(x), g.cap());
            g2.lemma_wf_fold(e);
            Self::lemma_update_group(o, n, k);
            assert forall|k2: int| 0 <= k2 < n.glen() implies (n.erasure_stack@.contains(#[trigger] n.groups@[k2].id)
                <==> n.groups@[k2].free_order@.len() > 0) by {
                if k2 != k {
                    assert(n.groups@[k2] == o.groups@[k2]);
                }
            }
            assert forall|j: int| 0 <= j < n.erasure_stack@.len() implies n.has_group(#[trigger] n.erasure_stack@[j]) by {
                assert(o.has_group(o.erasure_stack@[j]));
                let m = choose|m: int| 0 <= m < o.glen() && #[trigger] o.groups@[m].id == o.erasure_stack@[j];
                assert(n.groups@[m].id == n.erasure_stack@[j]);
            }
            if k == 0 {
                crate::group::lemma_count_live_update(g.slots@, i, Some(x), o.begin.index as int);
            } else {
                assert(n.groups@[0] == o.groups@[0]);
            }
            assert(n.wf());
            assert forall|kk: int| 0 <= kk < n.glen() implies (#[trigger] n.groups@[kk]).capacity
                == o.groups@[kk].capacity by {
            }
            Self::lemma_sizes_same(o, n);
            assert forall|kk: int, ii: int| 0 <= kk < n.glen() && 0 <= ii < o.e_of(kk) implies n.groups@[kk].live(ii)
                == #[trigger] o.groups@[kk].live(ii) by {
                if kk != k {
                    assert(n.groups@[kk] == o.groups@[kk]);
                }
            }
            Self::lemma_same_holes(o, n);
            crate::contents::lemma_set_slot(o.groups@, k, g2, i, x);
            let h = Handle { group: g.id, index: i as u16 };
            let r = crate::contents::rank(o.groups@, k, i);
            o.lemma_view_unique();
            assert(o.handles()[r] == h);
            let j = o.handles().index_of(h);
            assert(o.handles()[j] == h);
            assert(j == r) by {
                if j < r {
                    assert(o@[j].0 != o@[r].0);
                } else if j > r {
                    assert(o@[r].0 != o@[j].0);
                }
            }
        }
        assert forall|n: Self, x: T|
            Self::slot_set(o, n, k, i, x) implies #[trigger] Self::mutated(
            o,
            n,
            Handle { group: o.groups@[k].id, index: i as u16 },
            x,
        ) by {
            assert(Self::assigned(o, n, Handle { group: o.groups@[k].id, index: i as u16 }, x));
            assert(o.groups@[k].wf(o.e_of(k)));
            o.groups@[k].lemma_wf_unfold(o.e_of(k));
            assert forall|k2: int, j: int| 0 <= k2 < o.glen() && 0 <= j < o.groups@[k2].slots@.len() implies
                #[trigger] n.groups@[k2].live(j) == o.groups@[k2].live(j) by {
                if k2 != k {
                    assert(n.groups@[k2] == o.groups@[k2]);
                } else if j == i {
                    assert(o.groups@[k].live(i));
                    assert(n.groups@[k].slots@[i] == Some(x));
                } else {
                    assert(n.groups@[k].slots@[j] == o.groups@[k].slots@[j]);
                }
            }
            assert forall|k2: int| 0 <= k2 < o.glen() implies (#[trigger] n.groups@[k2]).capacity
                == o.groups@[k2].capacity && n.groups@[k2].slots@.len() == o.groups@[k2].slots@.len()
                && n.groups@[k2].active_count == o.groups@[k2].active_count by {
                if k2 != k {
                    assert(n.groups@[k2] == o.groups@[k2]);
                } else {
                    assert(n.groups@[k].slots@.len() == o.groups@[k].slots@.len());
                }
            }
        }
    }

    /// Mutable access to the element named `h`, if it is in the hive.
    pub fn get_mut(&mut self, h: Handle) -> (r: Option<&mut T>)
        requires
            old(self).wf(),
        ensures
            r is Some <==> old(self).contains(h),
            r is None ==> *final(self) == *old(self),
            r matches Some(m) ==> *m == old(self).value_of(h) && Self::assigned(*old(self), *final(self), h, *final(m)),
    {
        let ghost o = *self;
        match self.find_group_opt(h.group) {
            None => {
                proof {
                    if self.contains(h) {
                        let k3 = self.lemma_contained_is_held(h);
                    }
                }
                None
            },
            Some(k) => {
                proof {
                    assert(self.groups@[k as int].wf(self.e_of(k as int)));
                    self.groups@[k as int].lemma_wf_unfold(self.e_of(k as int));
                    if self.contains(h) {
                        let k3 = self.lemma_contained_is_held(h);
                        self.lemma_ids_distinct();
                        assert(k3 == k);
                    }
                }
                if h.index < self.groups[k].capacity && self.groups[k].slots[h.index as usize].is_some() {
                    proof {
                        self.lemma_slot_view(k as int, h.index as int);
                        Self::lemma_slot_set(o, k as int, h.index as int);
                    }
                    let g = &mut self.groups[k];
                    let slot = &mut g.slots[h.index as usize];
                    slot.as_mut()
                } else {
                    proof {
                        if h.index < self.groups@[k as int].capacity {
                            self.lemma_slot_view(k as int, h.index as int);
                        }
                    }
                    None
                }
            },
        }
    }
}



impl<T, A: Allocator> Hive<T, A> {
    /// Cursor `c` points at the element in position `p` of the hive.
    pub(crate) closed spec fn at(&self, c: Cursor, p: int) -> bool {
        &&& c.group is Some
        &&& (c.group->0 as int) < self.glen()
        &&& (c.index as int) < self.e_of(c.group->0 as int)
        &&& self.groups@[c.group->0 as int].live(c.index as int)
        &&& crate::contents::rank(self.groups@, c.group->0 as int, c.index as int) == p
    }

    /// Same blocks with the same occupied slots, whatever the values.
    pub(crate) closed spec fn same_shape(o: Self, n: Self) -> bool {
        &&& n.groups@.len() == o.groups@.len()
        &&& n.end == o.end
        &&& forall|k: int|
            0 <= k < o.glen() ==> (#[trigger] n.groups@[k]).capacity == o.groups@[k].capacity && n.groups@[k].slots@.len()
                == o.groups@[k].slots@.len() && n.groups@[k].active_count == o.groups@[k].active_count
        &&& forall|k: int, i: int|
            0 <= k < o.glen() && 0 <= i < o.groups@[k].slots@.len() ==> #[trigger] n.groups@[k].live(i)
                == o.groups@[k].live(i)
    }

    /// Block `k` has `e_of(k)` constructed slots.
    fn constructed(&self, k: usize) -> (r: u16)
        requires
            self.wf(),
            k < self.glen(),
        ensures
            r == self.e_of(k as int),
    {
        if k == self.groups.len() - 1 {
            self.end.index
        } else {
            self.groups[k].capacity
        }
    }

    /// The entry a cursor points at.
    proof fn lemma_at(&self, c: Cursor, p: int)
        requires
            self.wf(),
            self.at(c, p),
        ensures
            0 <= p < self@.len(),
            self@[p] == (
            Handle { group: self.groups@[c.group->0 as int].id, index: c.index },
            self.groups@[c.group->0 as int].slots@[c.index as int]->0,
            ),
    {
        let k = c.group->0 as int;
        let g = self.groups@[k];
        let i = c.index as int;
        assert(g.wf(self.e_of(k)));
        g.lemma_wf_unfold(self.e_of(k));
        let x = g.slots@[i]->0;
        assert(g.slots@ =~= g.slots@.update(i, Some(x)));
        crate::contents::lemma_set_slot(self.groups@, k, g, i, x);
    }

    /// Entries of the blocks before `k`, of block `k`, and after it.
    proof fn lemma_split_at(&self, k: int)
        requires
            self.wf(),
            0 <= k < self.glen(),
        ensures
            self@.len() == groups_entries(self.groups@, 0, k).len() + count_live(
                self.groups@[k].slots@,
                self.groups@[k].cap(),
            ) + groups_entries(self.groups@, k + 1, self.glen()).len(),
            groups_entries(self.groups@, 0, k + 1).len() == groups_entries(self.groups@, 0, k).len() + count_live(
                self.groups@[k].slots@,
                self.groups@[k].cap(),
            ),
    {
        crate::contents::lemma_groups_entries_update(self.groups@, k, self.groups@[k]);
        crate::contents::lemma_slot_entries_len(self.groups@[k], 0, self.groups@[k].cap());
        assert(count_live(self.groups@[k].slots@, 0) == 0);
    }

    /// A block of a non-empty hive has an occupied constructed slot, so the
    /// first occupied slot found is constructed.
    proof fn lemma_first_in(&self, k: int, f: int)
        requires
            self.wf(),
            self.len > 0,
            0 <= k < self.glen(),
            0 <= f <= self.e_of(k),
            crate::group::vacant_range(self.groups@[k].slots@, 0, f),
        ensures
            f < self.e_of(k),
    {
        let g = self.groups@[k];
        let e = self.e_of(k);
        assert(g.wf(e));
        g.lemma_wf_unfold(e);
        if f == e {
            assert(crate::group::vacant_range(g.slots@, 0, g.cap())) by {
                assert forall|j: int| 0 <= j < g.cap() implies !(#[trigger] g.slots@[j] is Some) by {
                    if j >= e {
                        assert(!g.live(j));
                    }
                }
            }
            crate::group::lemma_count_live_vacant(g.slots@, 0, g.cap());
        }
    }

    /// A cursor at the first element.
    pub(crate) fn first_cursor(&self) -> (c: Cursor)
        requires
            self.wf(),
            self@.len() > 0,
        ensures
            self.at(c, 0),
    {
        proof {
            self.lemma_view_len();
            let g = self.groups@[0];
            assert(g.wf(self.e_of(0)));
            g.lemma_wf_unfold(self.e_of(0));
            if self.begin.index as int >= self.e_of(0) {
                assert(!g.live(self.begin.index as int));
            }
            assert(groups_entries(self.groups@, 0, 0).len() == 0);
        }
        self.begin
    }

    /// A cursor at the last element.
    #[verifier::spinoff_prover]
    #[verifier::rlimit(30)]
    pub(crate) fn last_cursor(&self) -> (c: Cursor)
        requires
            self.wf(),
            self@.len() > 0,
        ensures
            self.at(c, self@.len() - 1),
    {
        proof {
            self.lemma_view_len();
            self.lemma_glen_fits();
        }
        let t = self.groups.len() - 1;
        let ghost e = self.e_of(t as int);
        let ghost g = self.groups@[t as int];
        proof {
            assert(g.wf(e));
            g.lemma_wf_unfold(e);
            self.lemma_split_at(t as int);
            assert(groups_entries(self.groups@, t + 1, self.glen()).len() == 0);
        }
        let r = self.groups[t].prev_live(self.end.index, Ghost(e));
        match r {
            Some(j) => {
                proof {
                    assert(crate::group::vacant_range(g.slots@, j + 1, g.cap())) by {
                        assert forall|x: int| j + 1 <= x < g.cap() implies !(#[trigger] g.slots@[x] is Some) by {
                            if x >= e {
                                assert(!g.live(x));
                            }
                        }
                    }
                    crate::group::lemma_count_live_vacant(g.slots@, j + 1, g.cap());
                }
                Cursor { group: Some(t), index: j }
            },
            None => {
                proof {
                    self.lemma_first_in(t as int, e);
                }
                Cursor::null()
            },
        }
    }

    /// A cursor at the element after the one `c` points at.
    #[verifier::spinoff_prover]
    #[verifier::rlimit(30)]
    pub(crate) fn cursor_next(&self, c: Cursor, Ghost(p): Ghost<int>) -> (r: Cursor)
        requires
            self.wf(),
            self.at(c, p),
            p + 1 < self@.len(),
        ensures
            self.at(r, p + 1),
    {
        proof {
            self.lemma_view_len();
            self.lemma_glen_fits();
        }
        let k = c.group.unwrap();
        let e = self.constructed(k);
        let ghost g = self.groups@[k as int];
        proof {
            assert(g.wf(e as int));
            g.lemma_wf_unfold(e as int);
        }
        let j = self.groups[k].next_live(c.index, Ghost(e as int));
        proof {
            crate::group::lemma_count_live_vacant(g.slots@, c.index + 1, j as int);
        }
        if j < e {
            Cursor { group: Some(k), index: j }
        } else {
            proof {
                assert(crate::group::vacant_range(g.slots@, c.index + 1, g.cap())) by {
                    assert forall|x: int| c.index + 1 <= x < g.cap() implies !(#[trigger] g.slots@[x] is Some) by {
                        if x >= e {
                            assert(!g.live(x));
                        }
                    }
                }
                crate::group::lemma_count_live_vacant(g.slots@, c.index + 1, g.cap());
                self.lemma_split_at(k as int);
                if k + 1 == self.glen() {
                    assert(groups_entries(self.groups@, k + 1, self.glen()).len() == 0);
                    assert(false);
                }
            }
            let k2 = k + 1;
            let e2 = self.constructed(k2);
            let ghost g2 = self.groups@[k2 as int];
            proof {
                assert(g2.wf(e2 as int));
                g2.lemma_wf_unfold(e2 as int);
            }
            let f = self.groups[k2].first_live(Ghost(e2 as int));
            proof {
                self.lemma_first_in(k2 as int, f as int);
                crate::group::lemma_count_live_vacant(g2.slots@, 0, f as int);
            }
            Cursor { group: Some(k2), index: f }
        }
    }

    /// A cursor at the element before the one `c` points at.
    #[verifier::spinoff_prover]
    #[verifier::rlimit(30)]
    pub(crate) fn cursor_prev(&self, c: Cursor, Ghost(p): Ghost<int>) -> (r: Cursor)
        requires
            self.wf(),
            self.at(c, p),
            p >= 1,
        ensures
            self.at(r, p - 1),
    {
        proof {
            self.lemma_view_len();
            self.lemma_glen_fits();
        }
        let k = c.group.unwrap();
        let e = self.constructed(k);
        let ghost g = self.groups@[k as int];
        proof {
            assert(g.wf(e as int));
            g.lemma_wf_unfold(e as int);
        }
        let r = self.groups[k].prev_live(c.index, Ghost(e as int));
        match r {
            Some(j) => {
                proof {
                    crate::group::lemma_count_live_vacant(g.slots@, j + 1, c.index as int);
                }
                Cursor { group: Some(k), index: j }
            },
            None => {
                proof {
                    crate::group::lemma_count_live_vacant(g.slots@, 0, c.index as int);
                    if k == 0 {
                        assert(groups_entries(self.groups@, 0, 0).len() == 0);
                        assert(false);
                    }
                }
                let k2 = k - 1;
                let e2 = self.constructed(k2);
                let ghost g2 = self.groups@[k2 as int];
                proof {
                    assert(g2.wf(e2 as int));
                    g2.lemma_wf_unfold(e2 as int);
                    self.lemma_split_at(k2 as int);
                }
                let r2 = self.groups[k2].prev_live(e2, Ghost(e2 as int));
                match r2 {
                    Some(j) => {
                        proof {
                            assert(crate::group::vacant_range(g2.slots@, j + 1, g2.cap())) by {
                                assert forall|x: int| j + 1 <= x < g2.cap() implies !(#[trigger] g2.slots@[x] is Some) by {
                                    if x >= e2 {
                                        assert(!g2.live(x));
                                    }
                                }
                            }
                            crate::group::lemma_count_live_vacant(g2.slots@, j + 1, g2.cap());
                        }
                        Cursor { group: Some(k2), index: j }
                    },
                    None => {
                        proof {
                            self.lemma_first_in(k2 as int, e2 as int);
                        }
                        Cursor::null()
                    },
                }
            },
        }
    }

    /// The element a cursor points at.
    pub(crate) fn cursor_get(&self, c: Cursor, Ghost(p): Ghost<int>) -> (r: &T)
        requires
            self.wf(),
            self.at(c, p),
        ensures
            0 <= p < self@.len(),
            *r == self@[p].1,
    {
        proof {
            self.lemma_at(c, p);
            let k = c.group->0 as int;
            assert(self.groups@[k].wf(self.e_of(k)));
            self.groups@[k].lemma_wf_unfold(self.e_of(k));
        }
        let k = c.group.unwrap();
        self.groups[k].slots[c.index as usize].as_ref().unwrap()
    }

    /// The handle of the element a cursor points at.
    pub(crate) fn cursor_handle(&self, c: Cursor, Ghost(p): Ghost<int>) -> (r: Handle)
        requires
            self.wf(),
            self.at(c, p),
        ensures
            0 <= p < self@.len(),
            r == self@[p].0,
    {
        proof {
            self.lemma_at(c, p);
        }
        let k = c.group.unwrap();
        Handle { group: self.groups[k].id, index: c.index }
    }
}



impl<T, A: Allocator> Hive<T, A> {
    /// Mutable access to the element a cursor points at.
    pub(crate) fn cursor_get_mut(&mut self, c: Cursor, Ghost(p): Ghost<int>) -> (r: &mut T)
        requires
            old(self).wf(),
            old(self).at(c, p),
        ensures
            0 <= p < old(self)@.len(),
            *r == old(self)@[p].1,
            Self::mutated(*old(self), *final(self), old(self)@[p].0, *final(r)),
    {
        let ghost o = *self;
        proof {
            self.lemma_at(c, p);
            let k = c.group->0 as int;
            assert(self.groups@[k].wf(self.e_of(k)));
            self.groups@[k].lemma_wf_unfold(self.e_of(k));
            Self::lemma_slot_set(o, k, c.index as int);
        }
        let k = c.group.unwrap();
        let g = &mut self.groups[k];
        let slot = &mut g.slots[c.index as usize];
        slot.as_mut().unwrap()
    }
}



impl<T, A: Allocator> Hive<T, A> {
    /// Two cursors point at the same position exactly when they are equal.
    pub(crate) proof fn lemma_at_unique(&self, c1: Cursor, p1: int, c2: Cursor, p2: int)
        requires
            self.wf(),
            self.at(c1, p1),
            self.at(c2, p2),
        ensures
            (c1 == c2) <==> (p1 == p2),
    {
        self.lemma_at(c1, p1);
        self.lemma_at(c2, p2);
        self.lemma_ids_distinct();
        if p1 == p2 {
            let k1 = c1.group->0 as int;
            let k2 = c2.group->0 as int;
            assert(self.groups@[k1].id == self.groups@[k2].id);
            assert(k1 == k2);
        }
    }

    /// A change of one value keeps cursors at their positions and every
    /// other element in place.
    pub(crate) proof fn lemma_mutated_at(o: Self, c1: Cursor, p1: int, c2: Cursor, p2: int)
        requires
            o.wf(),
            o.at(c1, p1),
            o.at(c2, p2),
        ensures
            forall|n: Self, h: Handle, x: T|
                #[trigger] Self::mutated(o, n, h, x) ==> Self::assigned(o, n, h, x) && n.at(c1, p1) && n.at(c2, p2),
    {
        assert forall|n: Self, h: Handle, x: T|
            #[trigger] Self::mutated(o, n, h, x) implies Self::assigned(o, n, h, x) && n.at(c1, p1) && n.at(
            c2,
            p2,
        ) by {
            Self::lemma_mutated(o, n, h, x);
            Self::lemma_same_shape_at(o, n, c1, p1);
            Self::lemma_same_shape_at(o, n, c2, p2);
        }
    }

    /// A cursor at the element named `h`, if it is in the hive.
    pub(crate) fn cursor_of(&self, h: Handle) -> (r: Option<Cursor>)
        requires
            self.wf(),
        ensures
            r is Some <==> self.contains(h),
            r matches Some(c) ==> self.at(c, self.handles().index_of(h)),
    {
        match self.find_group_opt(h.group) {
            None => {
                proof {
                    if self.contains(h) {
                        let k3 = self.lemma_contained_is_held(h);
                    }
                }
                None
            },
            Some(k) => {
                proof {
                    assert(self.groups@[k as int].wf(self.e_of(k as int)));
                    self.groups@[k as int].lemma_wf_unfold(self.e_of(k as int));
                    if self.contains(h) {
                        let k3 = self.lemma_contained_is_held(h);
                        self.lemma_ids_distinct();
                        assert(k3 == k);
                    }
                }
                if h.index < self.groups[k].capacity && self.groups[k].slots[h.index as usize].is_some() {
                    let c = Cursor { group: Some(k), index: h.index };
                    proof {
                        self.lemma_slot_view(k as int, h.index as int);
                        let g = self.groups@[k as int];
                        if h.index as int >= self.e_of(k as int) {
                            assert(!g.live(h.index as int));
                        }
                        let x = g.slots@[h.index as int]->0;
                        assert(g.slots@ =~= g.slots@.update(h.index as int, Some(x)));
                        crate::contents::lemma_set_slot(self.groups@, k as int, g, h.index as int, x);
                        let r = crate::contents::rank(self.groups@, k as int, h.index as int);
                        self.lemma_view_unique();
                        let j = self.handles().index_of(h);
                        assert(self.handles()[r] == h);
                        assert(self.handles()[j] == h);
                        assert(j == r) by {
                            if j < r {
                                assert(self@[j].0 != self@[r].0);
                            } else if j > r {
                                assert(self@[r].0 != self@[j].0);
                            }
                        }
                    }
                    Some(c)
                } else {
                    proof {
                        if h.index < self.groups@[k as int].capacity {
                            self.lemma_slot_view(k as int, h.index as int);
                        }
                    }
                    None
                }
            },
        }
    }

    /// Number of elements from position `p`, where `c` points, to the end.
    pub(crate) fn count_from(&self, c: Cursor, Ghost(p): Ghost<int>) -> (n: usize)
        requires
            self.wf(),
            self.at(c, p),
        ensures
            n == self@.len() - p,
    {
        proof {
            self.lemma_at(c, p);
            self.lemma_view_len();
        }
        let last = self.last_cursor();
        let mut cur = c;
        let mut n: usize = 1;
        while cur != last
            invariant
                self.wf(),
                self.at(last, self@.len() - 1),
                self@.len() == self.len,
                0 <= p,
                1 <= n,
                p + n <= self@.len(),
                self.at(cur, p + n - 1),
            decreases self@.len() - (p + n),
        {
            proof {
                if p + n == self@.len() {
                    self.lemma_at_unique(cur, p + n - 1, last, self@.len() - 1);
                }
            }
            cur = self.cursor_next(cur, Ghost(p + n - 1));
            n = n + 1;
        }
        proof {
            self.lemma_at_unique(cur, p + n - 1, last, self@.len() - 1);
        }
        n
    }
}



impl<T, A: Allocator> Hive<T, A> {
    /// The handle in position `n` names the element in position `n`.
    pub proof fn lemma_handle_at(&self, n: int)
        requires
            self.wf(),
            0 <= n < self@.len(),
        ensures
            self.contains(self@[n].0),
            self.handles().index_of(self@[n].0) == n,
            self.value_of(self@[n].0) == self@[n].1,
    {
        let h = self@[n].0;
        self.lemma_view_unique();
        assert(self.handles()[n] == h);
        let j = self.handles().index_of(h);
        assert(self.handles()[j] == h);
        assert(j == n) by {
            if j < n {
                assert(self@[j].0 != self@[n].0);
            } else if j > n {
                assert(self@[n].0 != self@[j].0);
            }
        }
    }
}



impl<T, A: Allocator> Hive<T, A> {
    /// A change of the value in position `p` leaves the elements of any
    /// range without `p` as they were.
    pub(crate) proof fn lemma_mutated_rest(o: Self, p: int, a: int, b: int)
        requires
            o.wf(),
            0 <= p < o@.len(),
            0 <= a <= b <= o@.len(),
            !(a <= p < b),
        ensures
            forall|n: Self, x: T|
                #[trigger] Self::mutated(o, n, o@[p].0, x) ==> Self::assigned(o, n, o@[p].0, x) && n@ == o@.update(
                    p,
                    (o@[p].0, x),
                ) && n.elems().subrange(a, b) == o.elems().subrange(a, b),
    {
        o.lemma_handle_at(p);
        assert forall|n: Self, x: T|
            #[trigger] Self::mutated(o, n, o@[p].0, x) implies Self::assigned(o, n, o@[p].0, x) && n@ == o@.update(
            p,
            (o@[p].0, x),
        ) && n.elems().subrange(a, b) == o.elems().subrange(a, b) by {
            Self::lemma_mutated(o, n, o@[p].0, x);
            assert(n.elems().subrange(a, b) =~= o.elems().subrange(a, b));
        }
    }
}



impl<T, A: Allocator> Hive<T, A> {
    /// Inserts `value` and returns its handle; the same as [`Hive::insert`],
    /// for callers that go on to change the element through
    /// [`Hive::get_mut`].
    pub fn insert_mut(&mut self, value: T) -> (h: Handle)
        requires
            old(self).wf(),
            old(self).can_insert(),
        ensures
            Self::inserted(*old(self), *final(self), value, h),
            Self::fills_hole(*old(self), h),
            Self::placed(*old(self), *final(self), h, value),
            !old(self).has_holes() ==> !final(self).has_holes(),
            Self::insert_capacity(*old(self), *final(self)),
    {
        self.insert(value)
    }

    /// Inserts the value that `f` builds; `f` runs before the hive changes.
    pub fn emplace<F: FnOnce() -> T>(&mut self, f: F) -> (h: Handle)
        requires
            old(self).wf(),
            old(self).can_insert(),
            call_requires(f, ()),
        ensures
            exists|v: T|
                call_ensures(f, (), v) && #[trigger] Self::inserted(*old(self), *final(self), v, h) && Self::placed(
                    *old(self),
                    *final(self),
                    h,
                    v,
                ),
            Self::fills_hole(*old(self), h),
            !old(self).has_holes() ==> !final(self).has_holes(),
            Self::insert_capacity(*old(self), *final(self)),
    {
        let v = f();
        self.insert(v)
    }

    /// Inserts the value that `f` builds; the same as [`Hive::emplace`].
    pub fn emplace_mut<F: FnOnce() -> T>(&mut self, f: F) -> (h: Handle)
        requires
            old(self).wf(),
            old(self).can_insert(),
            call_requires(f, ()),
        ensures
            exists|v: T|
                call_ensures(f, (), v) && #[trigger] Self::inserted(*old(self), *final(self), v, h) && Self::placed(
                    *old(self),
                    *final(self),
                    h,
                    v,
                ),
            Self::fills_hole(*old(self), h),
            !old(self).has_holes() ==> !final(self).has_holes(),
            Self::insert_capacity(*old(self), *final(self)),
    {
        self.emplace(f)
    }

    /// A change of the value just inserted is an insertion of the changed
    /// value.
    proof fn lemma_inserted_assigned(o: Self, m: Self, n: Self, d: T, x: T, h: Handle)
        requires
            Self::inserted(o, m, d, h),
            Self::assigned(m, n, h, x),
        ensures
            Self::inserted(o, n, x, h),
            Self::placed(o, m, h, d) ==> Self::placed(o, n, h, x),
    {
        let p = choose|p: int| 0 <= p <= o@.len() && m@ == o@.insert(p, (h, d));
        assert(m@[p] == (h, d));
        m.lemma_handle_at(p);
        assert(n@ =~= o@.insert(p, (h, x)));
        if Self::placed(o, m, h, d) && !o.has_holes() {
            let q = o@.len() as int;
            assert(m@[q] == (h, d));
            m.lemma_handle_at(q);
            assert(n@ =~= o@.push((h, x)));
        }
        if Self::placed(o, m, h, d) && o.has_holes() {
            let q = o.slot_position(h);
            assert(m@[q] == (h, d));
            m.lemma_handle_at(q);
            assert(n@ =~= o@.insert(q, (h, x)));
        }
    }

    /// Inserts `T::default()`, then lets `f` change the new element in
    /// place.
    pub fn insert_with<F: FnOnce(&mut T)>(&mut self, f: F) -> (h: Handle)
        where
            T: Default,
        requires
            old(self).wf(),
            old(self).can_insert(),
            forall|x: &mut T| call_requires(f, (x,)),
        ensures
            exists|m: &mut T|
                call_ensures(T::default, (), *m) && call_ensures(f, (m,), ()) && #[trigger] Self::inserted(
                    *old(self),
                    *final(self),
                    *final(m),
                    h,
                ) && Self::placed(*old(self), *final(self), h, *final(m)),
            Self::fills_hole(*old(self), h),
            Self::insert_capacity(*old(self), *final(self)),
    {
        self.insert_with_mut(f)
    }

    /// Inserts `T::default()`, then lets `f` change it; the same as
    /// [`Hive::insert_with`].
    pub fn insert_with_mut<F: FnOnce(&mut T)>(&mut self, f: F) -> (h: Handle)
        where
            T: Default,
        requires
            old(self).wf(),
            old(self).can_insert(),
            forall|x: &mut T| call_requires(f, (x,)),
        ensures
            exists|m: &mut T|
                call_ensures(T::default, (), *m) && call_ensures(f, (m,), ()) && #[trigger] Self::inserted(
                    *old(self),
                    *final(self),
                    *final(m),
                    h,
                ) && Self::placed(*old(self), *final(self), h, *final(m)),
            Self::fills_hole(*old(self), h),
            Self::insert_capacity(*old(self), *final(self)),
    {
        let ghost o = *self;
        let d = T::default();
        let h = self.insert(d);
        let ghost mid = *self;
        proof {
            let p = choose|p: int| 0 <= p <= o@.len() && mid@ == o@.insert(p, (h, d));
            assert(mid@[p] == (h, d));
            mid.lemma_handle_at(p);
        }
        let m = self.get_mut(h).unwrap();
        f(m);
        proof {
            assert forall|n: Self, x: T| #[trigger] Self::assigned(mid, n, h, x) implies Self::inserted(o, n, x, h)
                && Self::placed(o, n, h, x) by {
                Self::lemma_inserted_assigned(o, mid, n, d, x, h);
            }
        }
        h
    }

    /// Removes every element. The blocks move to the reserve, where later
    /// insertions reuse them; the capacity does not change.
    pub fn clear(&mut self)
        requires
            old(self).wf(),
        ensures
            final(self).wf(),
            final(self)@ == Seq::<(Handle, T)>::empty(),
            !final(self).has_holes(),
            final(self).total_capacity() == old(self).total_capacity(),
            final(self).limits() == old(self).limits(),
            final(self).allocator_value() == old(self).allocator_value(),
            final(self).blocks_made() == old(self).blocks_made(),
            old(self).sizes_fit() ==> final(self).sizes_fit(),
    {
        let ghost o = *self;
        while !self.is_empty()
            invariant
                self.wf(),
                self.total_capacity() == o.total_capacity(),
                self.limits() == o.limits(),
                self.allocator_value() == o.allocator_value(),
                self.blocks_made() == o.blocks_made(),
                o.sizes_fit() ==> self.sizes_fit(),
            decreases self@.len(),
        {
            let c = self.first_cursor();
            let h = self.cursor_handle(c, Ghost(0));
            proof {
                self.lemma_handle_at(0);
            }
            self.erase(h);
        }
        proof {
            self.lemma_glen_empty();
        }
    }
}



/// Reserving overshoots by less than one minimum block.
pub proof fn lemma_reserve_growth_bound(rem: int, lo: int, hi: int)
    requires
        1 <= lo <= hi,
    ensures
        reserve_growth(rem, lo, hi) <= (if rem > 0 {
            rem
        } else {
            0
        }) + lo,
    decreases rem,
{
    if rem > 0 {
        let c = if rem < lo {
            lo
        } else if rem > hi {
            hi
        } else {
            rem
        };
        if rem > c {
            lemma_reserve_growth_bound(rem - c, lo, hi);
        }
    }
}

/// Reserving covers what it was asked for.
pub proof fn lemma_reserve_growth_covers(rem: int, lo: int, hi: int)
    requires
        1 <= lo <= hi,
    ensures
        reserve_growth(rem, lo, hi) >= rem,
        reserve_growth(rem, lo, hi) >= 0,
    decreases rem,
{
    if rem > 0 {
        let c = if rem < lo {
            lo
        } else if rem > hi {
            hi
        } else {
            rem
        };
        if rem > c {
            lemma_reserve_growth_covers(rem - c, lo, hi);
        }
    }
}

impl<T, A: Allocator> Hive<T, A> {
    /// Room to add `additional` slots in blocks of at least three.
    pub open spec fn has_room_for(&self, additional: int) -> bool {
        &&& self.total_capacity() + additional + 65535 <= usize::MAX
        &&& self.blocks_made() + additional + 1 <= u64::MAX
    }

    /// Ensures room for at least `additional` more elements, adding blocks
    /// to the reserve: each holds what is still missing clamped to the
    /// block capacity limits. An empty hive without blocks makes the first
    /// such block its own.
    pub fn reserve(&mut self, additional: usize)
        requires
            old(self).wf(),
            old(self).has_room_for(additional as int),
        ensures
            final(self).wf(),
            final(self)@ == old(self)@,
            final(self).total_capacity() == old(self).total_capacity() + reserve_growth(
                old(self)@.len() + additional - old(self).total_capacity(),
                old(self).limits().min as int,
                old(self).limits().max as int,
            ),
            final(self).total_capacity() >= old(self)@.len() + additional,
            final(self).has_holes() == old(self).has_holes(),
            final(self).limits() == old(self).limits(),
            final(self).allocator_value() == old(self).allocator_value(),
            final(self).blocks_made() <= old(self).blocks_made() + additional,
            old(self)@.len() > 0 ==> final(self).total_capacity() - final(self).reserved_capacity() == old(
                self,
            ).total_capacity() - old(self).reserved_capacity(),
            old(self).total_capacity() == 0 && additional <= old(self).limits().max
                ==> final(self).reserved_capacity() == 0,
            old(self).sizes_fit() ==> final(self).sizes_fit(),
    {
        let ghost o = *self;
        proof {
            self.lemma_view_len();
            self.lemma_len_le_capacity();
            self.lemma_holes_iff_stack();
            self.lemma_reserved_capacity();
            if self.capacity == 0 {
                self.lemma_no_capacity();
            }
            lemma_reserve_growth_covers(
                self.len + additional - self.capacity,
                self.min_block_capacity as int,
                self.max_block_capacity as int,
            );
        }
        let needed = self.len + additional;
        if needed <= self.capacity {
            return;
        }
        let mut remaining = needed - self.capacity;
        let ghost lo = self.min_block_capacity as int;
        let ghost hi = self.max_block_capacity as int;
        while remaining > 0
            invariant
                self.wf(),
                self@ == o@,
                self.groups@ == o.groups@,
                self.erasure_stack@ == o.erasure_stack@,
                self.limits() == o.limits(),
                self.allocator == o.allocator,
                lo == self.min_block_capacity,
                hi == self.max_block_capacity,
                self.capacity + reserve_growth(remaining as int, lo, hi) == o.capacity + reserve_growth(
                    needed - o.capacity,
                    lo,
                    hi,
                ),
                self.capacity >= o.capacity,
                self.next_serial - o.next_serial + remaining <= additional,
                self.next_serial >= o.next_serial,
                remaining <= additional,
                o.capacity + additional + 65535 <= usize::MAX,
                o.next_serial + additional + 1 <= u64::MAX,
                remaining > 0 ==> self.capacity + remaining <= o.capacity + additional,
                self.capacity <= o.capacity + additional + 65535,
                1 <= lo <= hi <= 65535,
                o.sizes_fit() ==> self.sizes_fit(),
                o.capacity == 0 && additional <= hi ==> self.reserved@.len() + (if remaining > 0 {
                    1int
                } else {
                    0int
                }) == 1 && remaining <= hi,
            decreases remaining,
        {
            let ghost before = *self;
            let cap = if remaining < self.min_block_capacity as usize {
                self.min_block_capacity
            } else if remaining > self.max_block_capacity as usize {
                self.max_block_capacity
            } else {
                remaining as u16
            };
            assert(reserve_growth(remaining as int, lo, hi) == cap + reserve_growth(remaining - cap, lo, hi)) by {
                if remaining <= cap {
                    assert(reserve_growth(remaining - cap, lo, hi) == 0);
                }
            }
            let id = GroupId { tag: self.tag, serial: self.next_serial };
            self.next_serial = self.next_serial + 1;
            let g = Group::new(cap, id);
            let ghost gb = g;
            self.reserved.push(g);
            self.capacity = self.capacity + cap as usize;
            remaining = if remaining > cap as usize {
                remaining - cap as usize
            } else {
                0
            };
            proof {
                Self::lemma_reserve_push(before, *self, gb);
            }
        }
        if self.groups.len() == 0 {
            let ghost before = *self;
            proof {
                assert(self.reserved@.len() > 0) by {
                    if self.reserved@.len() == 0 {
                        crate::contents::lemma_sum_nonneg(self.reserved@, |g: Group<T>| g.cap());
                        assert(self.groups@ =~= Seq::<Group<T>>::empty());
                    }
                }
                assert(self.reserved@[self.reserved@.len() - 1].is_blank());
            }
            let g = self.reserved.pop().unwrap();
            let ghost gb = g;
            self.groups.push(g);
            assert(self.groups@ =~= seq![gb]);
            self.begin = Cursor { group: Some(0), index: 0 };
            self.end = Cursor { group: Some(0), index: 0 };
            proof {
                Self::lemma_reserve_activate(before, *self, gb);
            }
        }
        proof {
            self.lemma_holes_iff_stack();
            o.lemma_view_len();
            if o.len > 0 {
                assert(o.glen() > 0);
                assert(self.groups@ == o.groups@);
            }
            self.lemma_reserved_capacity();
        }
    }

    /// A hive without capacity has no block at all.
    proof fn lemma_no_capacity(&self)
        requires
            self.wf(),
            self.capacity == 0,
        ensures
            self.glen() == 0,
            self.reserved@.len() == 0,
    {
        let wc = |g: Group<T>| g.cap();
        assert forall|r: int| 0 <= r < self.reserved@.len() implies wc(#[trigger] self.reserved@[r]) >= 1 by {
            assert(self.reserved@[r].is_blank());
            self.reserved@[r].lemma_wf_unfold(0);
        }
        assert forall|k: int| 0 <= k < self.glen() implies wc(#[trigger] self.groups@[k]) >= 1 by {
            assert(self.groups@[k].wf(self.e_of(k)));
            self.groups@[k].lemma_wf_unfold(self.e_of(k));
        }
        crate::contents::lemma_sum_nonneg_on(self.reserved@, wc);
        crate::contents::lemma_sum_nonneg_on(self.groups@, wc);
        if self.reserved@.len() > 0 {
            crate::contents::lemma_sum_pos(self.reserved@, wc, 0);
        }
        if self.glen() > 0 {
            crate::contents::lemma_sum_pos(self.groups@, wc, 0);
        }
    }

    /// Facts about adding a fresh blank block to the reserve.
    proof fn lemma_reserve_push(o: Self, n: Self, g: Group<T>)
        requires
            o.wf(),
            g.is_blank(),
            g.id == (GroupId { tag: o.tag, serial: o.next_serial }),
            n.reserved@ == o.reserved@.push(g),
            n.next_serial == o.next_serial + 1,
            n.capacity == o.capacity + g.cap(),
            n.groups@ == o.groups@,
            n.erasure_stack@ == o.erasure_stack@,
            n.begin == o.begin,
            n.end == o.end,
            n.len == o.len,
            n.tag == o.tag,
            n.min_block_capacity == o.min_block_capacity,
            n.max_block_capacity == o.max_block_capacity,
        ensures
            n.wf(),
            n@ == o@,
            o.sizes_fit() && o.min_block_capacity <= g.capacity <= o.max_block_capacity ==> n.sizes_fit(),
    {
        let all_o = o.groups@ + o.reserved@;
        let all_n = n.groups@ + n.reserved@;
        assert(all_n =~= all_o.push(g));
        if o.sizes_fit() && o.min_block_capacity <= g.capacity <= o.max_block_capacity {
            assert forall|r: int| 0 <= r < n.reserved@.len() implies n.min_block_capacity <= (
            #[trigger] n.reserved@[r]).capacity <= n.max_block_capacity by {
                if r < o.reserved@.len() {
                    assert(n.reserved@[r] == o.reserved@[r]);
                }
            }
        }
        assert forall|i: int, j: int|
            0 <= i < all_n.len() && 0 <= j < all_n.len() && i != j implies (#[trigger] all_n[i]).id
            != (#[trigger] all_n[j]).id by {
            if i < all_o.len() && j < all_o.len() {
                assert(all_n[i] == all_o[i] && all_n[j] == all_o[j]);
            } else if i < all_o.len() {
                assert(all_n[i] == all_o[i]);
            } else if j < all_o.len() {
                assert(all_n[j] == all_o[j]);
            }
        }
        assert forall|i: int|
            0 <= i < all_n.len() && (#[trigger] all_n[i]).id.tag == n.tag implies all_n[i].id.serial
            < n.next_serial by {
            if i < all_o.len() {
                assert(all_n[i] == all_o[i]);
            }
        }
        assert forall|r: int| 0 <= r < n.reserved@.len() implies (#[trigger] n.reserved@[r]).is_blank() by {
            if r < o.reserved@.len() {
                assert(n.reserved@[r] == o.reserved@[r]);
            }
        }
        crate::contents::lemma_sum_push(o.reserved@, g, |x: Group<T>| x.cap());
        assert forall|j: int| 0 <= j < n.erasure_stack@.len() implies n.has_group(#[trigger] n.erasure_stack@[j]) by {
            assert(o.has_group(o.erasure_stack@[j]));
            let m = choose|m: int| 0 <= m < o.glen() && #[trigger] o.groups@[m].id == o.erasure_stack@[j];
            assert(n.groups@[m].id == n.erasure_stack@[j]);
        }
        assert(n.wf());
    }

    /// Facts about making the top reserved block the only block of an
    /// empty hive.
    proof fn lemma_reserve_activate(o: Self, n: Self, g: Group<T>)
        requires
            o.wf(),
            o.glen() == 0,
            o.reserved@.len() > 0,
            g == o.reserved@.last(),
            n.reserved@ == o.reserved@.drop_last(),
            n.groups@ == seq![g],
            n.erasure_stack@ == o.erasure_stack@,
            n.begin == (Cursor { group: Some(0), index: 0 }),
            n.end == (Cursor { group: Some(0), index: 0 }),
            n.len == o.len,
            n.capacity == o.capacity,
            n.tag == o.tag,
            n.next_serial == o.next_serial,
            n.min_block_capacity == o.min_block_capacity,
            n.max_block_capacity == o.max_block_capacity,
        ensures
            n.wf(),
            n@ == o@,
            o.sizes_fit() ==> n.sizes_fit(),
    {
        if o.sizes_fit() {
            assert(o.reserved@[o.reserved@.len() - 1] == g);
            assert forall|r: int| 0 <= r < n.reserved@.len() implies n.min_block_capacity <= (
            #[trigger] n.reserved@[r]).capacity <= n.max_block_capacity by {
                assert(n.reserved@[r] == o.reserved@[r]);
            }
            assert(n.groups@[0] == g);
        }
        assert(g.is_blank());
        g.lemma_blank_no_free();
        g.lemma_wf_unfold(0);
        assert(o.len == 0);
        let all_o = o.groups@ + o.reserved@;
        let all_n = n.groups@ + n.reserved@;
        let rl = o.reserved@.len() as int;
        assert(all_o =~= o.reserved@);
        let f = |i: int| if i == 0 {
            rl - 1
        } else {
            i - 1
        };
        assert forall|i: int| 0 <= i < all_n.len() implies #[trigger] all_n[i] == all_o[f(i)] by {
        }
        assert forall|i: int, j: int|
            0 <= i < all_n.len() && 0 <= j < all_n.len() && i != j implies (#[trigger] all_n[i]).id
            != (#[trigger] all_n[j]).id by {
            assert(all_o[f(i)].id != all_o[f(j)].id);
        }
        assert forall|i: int|
            0 <= i < all_n.len() && (#[trigger] all_n[i]).id.tag == n.tag implies all_n[i].id.serial
            < n.next_serial by {
            assert(all_n[i] == all_o[f(i)]);
        }
        assert forall|r: int| 0 <= r < n.reserved@.len() implies (#[trigger] n.reserved@[r]).is_blank() by {
            assert(n.reserved@[r] == o.reserved@[r]);
        }
        assert(o.reserved@.drop_last().push(g) =~= o.reserved@);
        crate::contents::lemma_sum_push(o.reserved@.drop_last(), g, |x: Group<T>| x.cap());
        crate::contents::lemma_sum_push(Seq::<Group<T>>::empty(), g, |x: Group<T>| x.cap());
        crate::contents::lemma_sum_push(Seq::<Group<T>>::empty(), g, |x: Group<T>| x.active_count as int);
        assert(seq![g] =~= Seq::<Group<T>>::empty().push(g));
        assert(o.erasure_stack@.len() == 0) by {
            if o.erasure_stack@.len() > 0 {
                assert(o.has_group(o.erasure_stack@[0]));
            }
        }
        assert(n.groups@[0].wf(n.e_of(0)));
        assert(n.groups_ok());
        assert(n.cursors_ok());
        assert(n.wf());
        crate::contents::lemma_groups_entries_push(Seq::<Group<T>>::empty(), g);
        crate::contents::lemma_slot_entries_vacant(g, 0, g.cap());
        assert(n@ =~= o@);
    }
}

impl<T> Hive<T, Global> {
    /// An empty hive with room for at least `cap` elements.
    pub fn with_capacity(cap: usize) -> (h: Self)
        requires
            cap + 65535 <= usize::MAX,
        ensures
            h.wf(),
            h@ == Seq::<(Handle, T)>::empty(),
            h.total_capacity() == reserve_growth(
                cap as int,
                Self::default_limits().min as int,
                Self::default_limits().max as int,
            ),
            h.total_capacity() >= cap,
            h.limits() == Self::default_limits(),
            h.blocks_made() <= cap,
            !h.has_holes(),
            h.sizes_fit(),
    {
        let mut h = Self::new();
        assert(usize::MAX <= u64::MAX);
        h.reserve(cap);
        h
    }
}



impl<T, A: Allocator> Hive<T, A> {
    /// Capacity of the reserved blocks.
    pub closed spec fn reserved_capacity(&self) -> int {
        crate::contents::sum_caps(self.reserved@)
    }

    /// Capacities of the reserved blocks, in the order they were reserved.
    pub closed spec fn reserved_capacities(&self) -> Seq<int> {
        self.reserved@.map_values(|g: Group<T>| g.cap())
    }

    /// Number of reserved blocks.
    pub closed spec fn reserved_count(&self) -> int {
        self.reserved@.len() as int
    }

    /// Capacity of reserved block `r`.
    pub closed spec fn reserved_block_capacity(&self, r: int) -> int {
        self.reserved@[r].cap()
    }

    proof fn lemma_reserved_capacity(&self)
        requires
            self.wf(),
        ensures
            0 <= self.reserved_capacity() <= self.total_capacity(),
            self.reserved_count() == 0 ==> self.reserved_capacity() == 0,
    {
        crate::contents::lemma_sum_nonneg(self.reserved@, |g: Group<T>| g.cap());
        crate::contents::lemma_sum_nonneg(self.groups@, |g: Group<T>| g.cap());
        if self.reserved@.len() == 0 {
            assert(self.reserved@ =~= Seq::<Group<T>>::empty());
        }
    }

    /// Facts about dropping reserved block `j`.
    proof fn lemma_drop_reserved(o: Self, n: Self, j: int)
        requires
            o.wf(),
            0 <= j < o.reserved@.len(),
            n.reserved@ == o.reserved@.remove(j),
            n.capacity == o.capacity - o.reserved@[j].cap(),
            n.groups@ == o.groups@,
            n.erasure_stack@ == o.erasure_stack@,
            n.begin == o.begin,
            n.end == o.end,
            n.len == o.len,
            n.tag == o.tag,
            n.next_serial == o.next_serial,
            n.min_block_capacity == o.min_block_capacity,
            n.max_block_capacity == o.max_block_capacity,
        ensures
            n.wf(),
            n@ == o@,
            n.reserved_capacity() == o.reserved_capacity() - o.reserved@[j].cap(),
            o.sizes_fit() ==> n.sizes_fit(),
    {
        if o.sizes_fit() {
            assert forall|r: int| 0 <= r < n.reserved@.len() implies n.min_block_capacity <= (
            #[trigger] n.reserved@[r]).capacity <= n.max_block_capacity by {
                if r < j {
                    assert(n.reserved@[r] == o.reserved@[r]);
                } else {
                    assert(n.reserved@[r] == o.reserved@[r + 1]);
                }
            }
        }
        let all_o = o.groups@ + o.reserved@;
        let all_n = n.groups@ + n.reserved@;
        let gl = o.glen();
        let f = |i: int| if i < gl + j {
            i
        } else {
            i + 1
        };
        assert forall|i: int| 0 <= i < all_n.len() implies #[trigger] all_n[i] == all_o[f(i)] by {
        }
        assert forall|i: int, k: int|
            0 <= i < all_n.len() && 0 <= k < all_n.len() && i != k implies (#[trigger] all_n[i]).id
            != (#[trigger] all_n[k]).id by {
            assert(all_o[f(i)].id != all_o[f(k)].id);
        }
        assert forall|i: int|
            0 <= i < all_n.len() && (#[trigger] all_n[i]).id.tag == n.tag implies all_n[i].id.serial
            < n.next_serial by {
            assert(all_n[i] == all_o[f(i)]);
        }
        assert forall|r: int| 0 <= r < n.reserved@.len() implies (#[trigger] n.reserved@[r]).is_blank() by {
            assert(n.reserved@[r] == o.reserved@[if r < j {
                r
            } else {
                r + 1
            }]);
        }
        crate::contents::lemma_sum_remove(o.reserved@, j, |g: Group<T>| g.cap());
        assert forall|i: int| 0 <= i < n.erasure_stack@.len() implies n.has_group(#[trigger] n.erasure_stack@[i]) by {
            assert(o.has_group(o.erasure_stack@[i]));
            let m = choose|m: int| 0 <= m < o.glen() && #[trigger] o.groups@[m].id == o.erasure_stack@[i];
            assert(n.groups@[m].id == n.erasure_stack@[i]);
        }
        assert(n.wf());
    }

    /// Frees every reserved block; the blocks that hold elements, and the
    /// elements, stay as they are.
    pub fn trim_capacity(&mut self)
        requires
            old(self).wf(),
        ensures
            final(self).wf(),
            final(self)@ == old(self)@,
            final(self).total_capacity() == old(self).total_capacity() - old(self).reserved_capacity(),
            final(self).reserved_count() == 0,
            final(self).limits() == old(self).limits(),
            final(self).allocator_value() == old(self).allocator_value(),
            final(self).blocks_made() == old(self).blocks_made(),
            old(self).sizes_fit() ==> final(self).sizes_fit(),
            forall|l: BlockCapacityLimits| #[trigger] final(self).blocks_fit(l) == old(self).blocks_fit(l),
    {
        let ghost o = *self;
        while self.reserved.len() > 0
            invariant
                self.wf(),
                self@ == o@,
                self.groups@ == o.groups@,
                self.total_capacity() - self.reserved_capacity() == o.total_capacity() - o.reserved_capacity(),
                self.limits() == o.limits(),
                self.allocator == o.allocator,
                self.next_serial == o.next_serial,
                o.sizes_fit() ==> self.sizes_fit(),
            decreases self.reserved@.len(),
        {
            let ghost before = *self;
            let j = self.reserved.len() - 1;
            proof {
                crate::contents::lemma_sum_remove(self.reserved@, j as int, |g: Group<T>| g.cap());
                crate::contents::lemma_sum_nonneg(self.reserved@.remove(j as int), |g: Group<T>| g.cap());
                crate::contents::lemma_sum_nonneg(self.groups@, |g: Group<T>| g.cap());
            }
            let g = self.reserved.remove(j);
            self.capacity = self.capacity - g.capacity as usize;
            proof {
                Self::lemma_drop_reserved(before, *self, j as int);
            }
        }
    }

    /// Frees reserved blocks, from the most recently reserved down, as long
    /// as the capacity stays at least `retain_capacity`. Nothing changes
    /// when the capacity is already at most that. Blocks holding elements
    /// are never touched: when the reserved blocks cannot bring the
    /// capacity down to the target, all of them are freed.
    pub fn trim_capacity_to(&mut self, retain_capacity: usize)
        requires
            old(self).wf(),
        ensures
            final(self).wf(),
            final(self)@ == old(self)@,
            old(self).total_capacity() <= retain_capacity ==> *final(self) == *old(self),
            old(self).total_capacity() > retain_capacity ==> (final(self).total_capacity() >= retain_capacity
                && forall|r: int|
                0 <= r < final(self).reserved_count() ==> final(self).total_capacity()
                    - #[trigger] final(self).reserved_block_capacity(r) < retain_capacity),
            old(self).total_capacity() > retain_capacity && final(self).reserved_count() > 0
                ==> final(self).total_capacity() - final(self).reserved_capacity() < retain_capacity,
            old(self).total_capacity() - old(self).reserved_capacity() >= retain_capacity
                ==> final(self).reserved_count() == 0 && final(self).total_capacity()
                == old(self).total_capacity() - old(self).reserved_capacity(),
            final(self).total_capacity() <= old(self).total_capacity(),
            final(self).total_capacity() - final(self).reserved_capacity() == old(self).total_capacity()
                - old(self).reserved_capacity(),
            final(self).limits() == old(self).limits(),
            final(self).allocator_value() == old(self).allocator_value(),
            final(self).blocks_made() == old(self).blocks_made(),
            old(self).sizes_fit() ==> final(self).sizes_fit(),
    {
        proof {
            self.lemma_view_len();
            self.lemma_reserved_capacity();
            if self.reserved@.len() > 0 {
                assert forall|r: int| 0 <= r < self.reserved@.len() implies (|g: Group<T>| g.cap())(
                    #[trigger] self.reserved@[r],
                ) >= 0 by {
                }
                crate::contents::lemma_sum_pos(self.reserved@, |g: Group<T>| g.cap(), 0);
                assert(self.reserved@[0].is_blank());
                self.reserved@[0].lemma_wf_unfold(0);
            }
        }
        if self.capacity <= retain_capacity {
            return;
        }
        let ghost o = *self;
        let mut j = self.reserved.len();
        while j > 0
            invariant
                self.wf(),
                self@ == o@,
                self.total_capacity() - self.reserved_capacity() == o.total_capacity() - o.reserved_capacity(),
                self.capacity <= o.capacity,
                self.capacity >= retain_capacity,
                self.limits() == o.limits(),
                self.allocator == o.allocator,
                self.next_serial == o.next_serial,
                o.sizes_fit() ==> self.sizes_fit(),
                j <= self.reserved@.len(),
                forall|r: int| j <= r < self.reserved@.len() ==> self.capacity - (#[trigger] self.reserved@[r]).cap()
                    < retain_capacity,
            ensures
                self.wf(),
                self@ == o@,
                self.total_capacity() - self.reserved_capacity() == o.total_capacity() - o.reserved_capacity(),
                self.capacity <= o.capacity,
                self.capacity >= retain_capacity,
                self.limits() == o.limits(),
                self.allocator == o.allocator,
                self.next_serial == o.next_serial,
                o.sizes_fit() ==> self.sizes_fit(),
                forall|r: int| 0 <= r < self.reserved@.len() ==> self.capacity - (#[trigger] self.reserved@[r]).cap()
                    < retain_capacity,
            decreases j,
        {
            if self.capacity <= retain_capacity {
                proof {
                    assert forall|r: int| 0 <= r < self.reserved@.len() implies self.capacity - (
                    #[trigger] self.reserved@[r]).cap() < retain_capacity by {
                        assert(self.reserved@[r].is_blank());
                        self.reserved@[r].lemma_wf_unfold(0);
                    }
                }
                break;
            }
            j = j - 1;
            let c = self.reserved[j].capacity as usize;
            proof {
                assert forall|r: int| 0 <= r < self.reserved@.len() implies (|g: Group<T>| g.cap())(
                    #[trigger] self.reserved@[r],
                ) >= 0 by {
                }
                crate::contents::lemma_sum_pos(self.reserved@, |g: Group<T>| g.cap(), j as int);
                crate::contents::lemma_sum_nonneg(self.groups@, |g: Group<T>| g.cap());
            }
            if self.capacity - c >= retain_capacity {
                let ghost before = *self;
                let g = self.reserved.remove(j);
                self.capacity = self.capacity - c;
                proof {
                    Self::lemma_drop_reserved(before, *self, j as int);
                    assert forall|r: int| j <= r < self.reserved@.len() implies self.capacity - (
                    #[trigger] self.reserved@[r]).cap() < retain_capacity by {
                        assert(self.reserved@[r] == before.reserved@[r + 1]);
                    }
                }
            }
        }
        proof {
            if self.reserved@.len() > 0 {
                assert forall|r: int| 0 <= r < self.reserved@.len() implies (|g: Group<T>| g.cap())(
                    #[trigger] self.reserved@[r],
                ) >= 0 by {
                }
                crate::contents::lemma_sum_pos(self.reserved@, |g: Group<T>| g.cap(), 0);
                assert(self.capacity - self.reserved@[0].cap() < retain_capacity);
            } else {
                assert(self.reserved@ =~= Seq::<Group<T>>::empty());
            }
        }
    }
}

impl<T, A: Allocator> Hive<T, A> {
    /// An insertion adds one element to the multiset of elements.
    proof fn lemma_inserted_elems(o: Self, n: Self, v: T, h: Handle)
        requires
            Self::inserted(o, n, v, h),
        ensures
            n.elems().to_multiset() == o.elems().to_multiset().insert(v),
            n@.len() == o@.len() + 1,
    {
        let p = choose|p: int| 0 <= p <= o@.len() && n@ == o@.insert(p, (h, v));
        assert(n.elems() =~= o.elems().insert(p, v));
        vstd::seq_lib::to_multiset_insert(o.elems(), p, v);
    }

    /// Inserts the elements of `items`, one by one, in order.
    pub fn insert_many(&mut self, items: Vec<T>)
        requires
            old(self).wf(),
            old(self).total_capacity() + items.len() + 131070 <= usize::MAX,
            old(self).blocks_made() + items.len() + 1 <= u64::MAX,
        ensures
            final(self).wf(),
            final(self)@.len() == old(self)@.len() + items.len(),
            final(self).elems().to_multiset() == old(self).elems().to_multiset().add(items@.to_multiset()),
            !old(self).has_holes() ==> final(self).elems() == old(self).elems() + items@,
            exists|hs: Seq<Handle>| Self::added(*old(self), *final(self), items@, hs),
            exists|hs: Seq<Handle>, st: Seq<Self>| Self::inserted_each(*old(self), *final(self), items@, hs, st),
            final(self).total_capacity() >= old(self).total_capacity(),
            final(self).total_capacity() <= old(self).total_capacity() + items.len() + 65535,
            0 <= final(self).reserved_capacity() <= old(self).reserved_capacity(),
            old(self)@.len() + items.len() <= old(self).total_capacity() ==> final(self).total_capacity()
                == old(self).total_capacity(),
            final(self).blocks_made() <= old(self).blocks_made() + items.len(),
            old(self)@.len() + items.len() <= old(self).total_capacity() ==> final(self).blocks_made()
                == old(self).blocks_made(),
            old(self).sizes_fit() ==> final(self).sizes_fit(),
            final(self).limits() == old(self).limits(),
            final(self).allocator_value() == old(self).allocator_value(),
    {
        let ghost o = *self;
        let ghost all = items@;
        let ghost mut hs: Seq<Handle> = Seq::empty();
        let ghost mut st: Seq<Self> = seq![o];
        proof {
            self.lemma_view_len();
            self.lemma_len_le_capacity();
            self.lemma_reserved_capacity();
            assert(all.subrange(0, 0) =~= Seq::<T>::empty());
            Self::lemma_added_nothing(o);
            vstd::seq_lib::lemma_multiset_commutative(o.elems(), Seq::<T>::empty());
            assert(o.elems() + Seq::<T>::empty() =~= o.elems());
        }
        for x in it: items
            invariant
                all == it.seq(),
                self.wf(),
                self@.len() == o@.len() + it.index(),
                self.elems().to_multiset() == o.elems().to_multiset().add(all.subrange(0, it.index() as int).to_multiset()),
                !o.has_holes() ==> self.elems() == o.elems() + all.subrange(0, it.index() as int) && !self.has_holes(),
                Self::added(o, *self, all.subrange(0, it.index() as int), hs),
                Self::inserted_each(o, *self, all.subrange(0, it.index() as int), hs, st),
                self.total_capacity() <= o.total_capacity() + it.index() + 65535,
                self.total_capacity() >= o.total_capacity(),
                o@.len() + all.len() <= o.total_capacity() ==> self.total_capacity() == o.total_capacity(),
                o@.len() + all.len() <= o.total_capacity() ==> self.blocks_made() == o.blocks_made(),
                o.sizes_fit() ==> self.sizes_fit(),
                0 <= self.reserved_capacity() <= o.reserved_capacity(),
                self.blocks_made() <= o.blocks_made() + it.index(),
                o.total_capacity() + all.len() + 131070 <= usize::MAX,
                o.blocks_made() + all.len() + 1 <= u64::MAX,
                o@.len() <= o.total_capacity(),
                self.limits() == o.limits(),
                self.allocator_value() == o.allocator_value(),
        {
            let ghost before = *self;
            let ghost i = it.index();
            proof {
                self.lemma_full();
                self.lemma_view_len();
            }
            let h = self.insert(x);
            proof {
                Self::lemma_inserted_elems(before, *self, x, h);
                assert(all.subrange(0, i + 1) =~= all.subrange(0, i as int).push(x));
                Self::lemma_added_then_inserted(o, before, *self, all.subrange(0, i as int), hs, x, h);
                let st0 = st;
                let hs0 = hs;
                hs = hs.push(h);
                st = st.push(*self);
                let xs = all.subrange(0, i + 1);
                assert forall|j: int| 0 <= j < xs.len() implies Self::inserted(st[j], st[j + 1], xs[j], #[trigger] hs[j])
                    && Self::fills_hole(st[j], hs[j]) && Self::placed(st[j], st[j + 1], hs[j], xs[j])
                    && Self::insert_capacity(st[j], st[j + 1]) by {
                    if j < i {
                        assert(hs0[j] == hs[j]);
                        assert(xs[j] == all.subrange(0, i as int)[j]);
                        assert(Self::inserted(st0[j], st0[j + 1], all.subrange(0, i as int)[j], hs0[j]));
                    } else {
                        assert(st[j] == before);
                    }
                }
                vstd::seq_lib::to_multiset_build(all.subrange(0, i as int), x);
                assert(self.elems().to_multiset() =~= o.elems().to_multiset().add(all.subrange(0, i + 1).to_multiset()));
                if !o.has_holes() {
                    assert(self.elems() =~= before.elems().push(x));
                    assert(self.elems() =~= o.elems() + all.subrange(0, i + 1));
                }
            }
        }
        proof {
            assert(all.subrange(0, all.len() as int) =~= all);
            assert(Self::added(o, *self, all, hs));
            assert(Self::inserted_each(o, *self, all, hs, st));
        }
    }
}


impl<T, A: Allocator> Hive<T, A> {
    /// Reserves room for the elements of `items`, then inserts them in
    /// order.
    pub fn extend(&mut self, items: Vec<T>)
        requires
            old(self).wf(),
            old(self).has_room_for(2 * items.len() + 131070),
        ensures
            final(self).wf(),
            final(self)@.len() == old(self)@.len() + items.len(),
            final(self).elems().to_multiset() == old(self).elems().to_multiset().add(items@.to_multiset()),
            !old(self).has_holes() ==> final(self).elems() == old(self).elems() + items@,
            exists|hs: Seq<Handle>| Self::added(*old(self), *final(self), items@, hs),
            exists|m: Self, hs: Seq<Handle>, st: Seq<Self>|
                m@ == old(self)@ && m.has_holes() == old(self).has_holes() && m.limits() == old(self).limits()
                    && #[trigger] Self::inserted_each(m, *final(self), items@, hs, st),
            final(self).total_capacity() >= old(self)@.len() + items.len(),
            final(self).total_capacity() == old(self).total_capacity() + reserve_growth(
                old(self)@.len() + items.len() - old(self).total_capacity(),
                old(self).limits().min as int,
                old(self).limits().max as int,
            ),
            final(self).total_capacity() <= old(self).total_capacity() + items.len() + 65535,
            final(self).reserved_capacity() >= 0,
            old(self).total_capacity() == 0 && items.len() <= old(self).limits().max
                ==> final(self).reserved_capacity() == 0,
            final(self).blocks_made() <= old(self).blocks_made() + items.len(),
            old(self).sizes_fit() ==> final(self).sizes_fit(),
            final(self).limits() == old(self).limits(),
            final(self).allocator_value() == old(self).allocator_value(),
    {
        let ghost o = *self;
        proof {
            self.lemma_view_len();
            self.lemma_len_le_capacity();
            lemma_reserve_growth_bound(
                self.len + items.len() - self.capacity,
                self.min_block_capacity as int,
                self.max_block_capacity as int,
            );
        }
        let ghost all = items@;
        self.reserve(items.len());
        let ghost mid = *self;
        self.insert_many(items);
        proof {
            let hs = choose|hs: Seq<Handle>| Self::added(mid, *self, all, hs);
            Self::lemma_added_same_view(o, mid, *self, all, hs);
            let (hs2, st2) = choose|hs2: Seq<Handle>, st2: Seq<Self>| Self::inserted_each(mid, *self, all, hs2, st2);
            assert(Self::inserted_each(mid, *self, all, hs2, st2));
        }
    }

    /// Removes every element, then inserts the elements of `items` in
    /// order.
    pub fn assign_from_iter(&mut self, items: Vec<T>)
        requires
            old(self).wf(),
            old(self).has_room_for(2 * items.len() + 131070),
        ensures
            final(self).wf(),
            final(self).elems() == items@,
            final(self).total_capacity() >= items.len(),
            final(self).total_capacity() == old(self).total_capacity() + reserve_growth(
                items.len() - old(self).total_capacity(),
                old(self).limits().min as int,
                old(self).limits().max as int,
            ),
            final(self).total_capacity() <= old(self).total_capacity() + items.len() + 65535,
            final(self).blocks_made() <= old(self).blocks_made() + items.len(),
            old(self).sizes_fit() ==> final(self).sizes_fit(),
            final(self).limits() == old(self).limits(),
            final(self).allocator_value() == old(self).allocator_value(),
    {
        self.clear();
        proof {
            self.lemma_glen_empty();
            assert(self.elems() =~= Seq::<T>::empty());
        }
        self.extend(items);
        proof {
            assert(Seq::<T>::empty() + items@ =~= items@);
        }
    }

    /// An empty hive has no block with an element, hence no hole.
    proof fn lemma_glen_empty(&self)
        requires
            self.wf(),
            self@.len() == 0,
        ensures
            !self.has_holes(),
    {
        self.lemma_view_len();
        self.lemma_holes_iff_stack();
        if self.erasure_stack@.len() > 0 {
            assert(self.has_group(self.erasure_stack@[0]));
            let k = choose|m: int| 0 <= m < self.glen() && #[trigger] self.groups@[m].id == self.erasure_stack@[0];
            assert(self.erasure_stack@.contains(self.groups@[k].id));
            assert(self.groups@[k].free_order@.len() > 0);
            assert(self.glen() == 1);
            assert(self.groups@[0].wf(self.e_of(0)));
            self.groups@[0].lemma_blank_no_free();
        }
    }
}

impl<T: Clone, A: Allocator> Hive<T, A> {
    /// Removes every element, then inserts `len` clones of `value`.
    pub fn assign(&mut self, len: usize, value: T)
        requires
            old(self).wf(),
            old(self).has_room_for(2 * len + 131070),
        ensures
            final(self).wf(),
            final(self).elems().len() == len,
            forall|i: int| 0 <= i < len ==> cloned::<T>(value, #[trigger] final(self).elems()[i]),
            final(self).total_capacity() >= len,
            final(self).total_capacity() == old(self).total_capacity() + reserve_growth(
                len - old(self).total_capacity(),
                old(self).limits().min as int,
                old(self).limits().max as int,
            ),
            final(self).total_capacity() <= old(self).total_capacity() + len + 65535,
            final(self).blocks_made() <= old(self).blocks_made() + len,
            old(self).sizes_fit() ==> final(self).sizes_fit(),
            final(self).limits() == old(self).limits(),
            final(self).allocator_value() == old(self).allocator_value(),
    {
        let ghost o = *self;
        self.clear();
        proof {
            self.lemma_glen_empty();
            lemma_reserve_growth_bound(
                len - self.capacity,
                self.min_block_capacity as int,
                self.max_block_capacity as int,
            );
            self.lemma_view_len();
        }
        self.reserve(len);
        let ghost mid = *self;
        let mut i: usize = 0;
        while i < len
            invariant
                self.wf(),
                i <= len,
                !self.has_holes(),
                self.elems().len() == i,
                forall|j: int| 0 <= j < i ==> cloned::<T>(value, #[trigger] self.elems()[j]),
                self.total_capacity() == mid.total_capacity(),
                mid.total_capacity() >= len,
                self.limits() == o.limits(),
                self.allocator_value() == o.allocator_value(),
                self.blocks_made() == mid.blocks_made(),
                mid.blocks_made() <= o.blocks_made() + len,
                o.sizes_fit() ==> self.sizes_fit(),
            decreases len - i,
        {
            let v = value.clone();
            let ghost before = *self;
            proof {
                before.lemma_view_len();
            }
            let h = self.insert(v);
            proof {
                assert(self.elems() =~= before.elems().push(v));
            }
            i = i + 1;
        }
    }

    /// A hive with the same limits and clones of the elements, in the same
    /// order.
    pub fn clone(&self) -> (r: Self)
        where
            A: Clone,
        requires
            self.wf(),
            self@.len() + 131070 <= usize::MAX,
        ensures
            r.wf(),
            r.elems().len() == self.elems().len(),
            forall|i: int| 0 <= i < self.elems().len() ==> cloned::<T>(self.elems()[i], #[trigger] r.elems()[i]),
            r.limits() == self.limits(),
            cloned::<A>(self.allocator_value(), r.allocator_value()),
            r.total_capacity() == reserve_growth(
                self@.len() as int,
                self.limits().min as int,
                self.limits().max as int,
            ),
            r.blocks_made() <= self@.len(),
            r.sizes_fit(),
            !r.has_holes(),
    {
        let alloc = self.allocator.clone();
        let mut new = Self::empty_with(alloc, self.block_capacity_limits());
        proof {
            self.lemma_view_len();
            assert(usize::MAX <= u64::MAX);
        }
        new.reserve(self.len);
        proof {
            new.lemma_glen_empty();
        }
        let ghost mid = new;
        let mut it = self.iter();
        let n = self.len;
        let mut i: usize = 0;
        while i < n
            invariant
                new.wf(),
                self.wf(),
                n == self@.len(),
                i <= n,
                it.wf(),
                it.rest() == self.elems().subrange(i as int, n as int),
                !new.has_holes(),
                new.elems().len() == i,
                forall|j: int| 0 <= j < i ==> cloned::<T>(self.elems()[j], #[trigger] new.elems()[j]),
                new.total_capacity() == mid.total_capacity(),
                mid.total_capacity() >= n,
                new.limits() == self.limits(),
                new.allocator_value() == alloc,
                cloned::<A>(self.allocator_value(), alloc),
                mid.total_capacity() == reserve_growth(
                    self@.len() as int,
                    self.limits().min as int,
                    self.limits().max as int,
                ),
                new.blocks_made() == mid.blocks_made(),
                mid.blocks_made() <= n,
                new.sizes_fit(),
            decreases n - i,
        {
            let x = it.next().unwrap();
            let v = x.clone();
            let ghost before = new;
            proof {
                before.lemma_view_len();
            }
            new.insert(v);
            proof {
                assert(new.elems() =~= before.elems().push(v));
                assert(self.elems().subrange(i as int, n as int).drop_first() =~= self.elems().subrange(i + 1, n as int));
            }
            i = i + 1;
        }
        new
    }
}

impl<T> Hive<T, Global> {
    /// A hive of the elements of `items`, in order, with room reserved for
    /// them first.
    pub fn from_iter(items: Vec<T>) -> (h: Self)
        requires
            2 * items.len() + 196605 <= usize::MAX,
        ensures
            h.wf(),
            h.elems() == items@,
            h.limits() == Self::default_limits(),
            h.total_capacity() == reserve_growth(
                items.len() as int,
                Self::default_limits().min as int,
                Self::default_limits().max as int,
            ),
            h.blocks_made() <= items.len(),
            h.sizes_fit(),
    {
        let n = items.len();
        let l = Self::block_capacity_default_limits();
        let mut h = Self::with_capacity(n);
        proof {
            lemma_reserve_growth_bound(n as int, l.min as int, l.max as int);
            h.lemma_glen_empty();
            assert(usize::MAX <= u64::MAX);
            h.lemma_view_len();
        }
        h.insert_many(items);
        proof {
            assert(Seq::<T>::empty() + items@ =~= items@);
        }
        h
    }
}


/// The elements of `s` whose flag in `keep` is set, in order.
pub open spec fn select<X>(s: Seq<X>, keep: Seq<bool>) -> Seq<X>
    decreases s.len(),
{
    if s.len() == 0 {
        Seq::empty()
    } else if keep.len() > 0 && keep.last() {
        select(s.drop_last(), keep.drop_last()).push(s.last())
    } else {
        select(s.drop_last(), keep.drop_last())
    }
}

/// Position of the last set flag before `i` (zero if none).
pub open spec fn last_kept(keep: Seq<bool>, i: int) -> int
    decreases i,
{
    if i <= 0 {
        0
    } else if keep[i - 1] {
        i - 1
    } else {
        last_kept(keep, i - 1)
    }
}

/// Number of cleared flags.
pub open spec fn dropped(keep: Seq<bool>) -> int
    decreases keep.len(),
{
    if keep.len() == 0 {
        0
    } else {
        dropped(keep.drop_last()) + if keep.last() {
            0int
        } else {
            1int
        }
    }
}

proof fn lemma_select_step<X>(s: Seq<X>, keep: Seq<bool>, i: int, b: bool)
    requires
        0 <= i < s.len(),
        keep.len() == i,
    ensures
        select(s.subrange(0, i + 1), keep.push(b)) == if b {
            select(s.subrange(0, i), keep).push(s[i])
        } else {
            select(s.subrange(0, i), keep)
        },
{
    assert(s.subrange(0, i + 1).drop_last() =~= s.subrange(0, i));
    assert(keep.push(b).drop_last() =~= keep);
}

impl<T, A: Allocator> Hive<T, A> {
    /// The handles of the elements, in iteration order.
    pub fn handles_vec(&self) -> (r: Vec<Handle>)
        requires
            self.wf(),
        ensures
            r@ == self.handles(),
    {
        let n = self.len();
        let mut r: Vec<Handle> = Vec::new();
        if n == 0 {
            proof {
                assert(r@ =~= self.handles());
            }
            return r;
        }
        let mut c = self.first_cursor();
        let mut i: usize = 0;
        while i < n
            invariant
                self.wf(),
                n == self@.len(),
                i <= n,
                r@ == self.handles().subrange(0, i as int),
                i < n ==> self.at(c, i as int),
            decreases n - i,
        {
            let h = self.cursor_handle(c, Ghost(i as int));
            r.push(h);
            if i + 1 < n {
                c = self.cursor_next(c, Ghost(i as int));
            }
            proof {
                assert(r@ =~= self.handles().subrange(0, i + 1));
            }
            i = i + 1;
        }
        proof {
            assert(self.handles().subrange(0, n as int) =~= self.handles());
        }
        r
    }

    /// Keeps the elements for which `f` returns `true` and erases the
    /// others; the kept ones stay in place, in order.
    pub fn retain<F: Fn(&T) -> bool>(&mut self, f: F)
        requires
            old(self).wf(),
            forall|x: &T| call_requires(f, (x,)),
        ensures
            final(self).wf(),
            exists|keep: Seq<bool>|
                #![trigger select(old(self)@, keep)]
                keep.len() == old(self)@.len() && (forall|i: int|
                    0 <= i < old(self)@.len() ==> call_ensures(f, (&old(self)@[i].1,), #[trigger] keep[i]))
                    && final(self)@ == select(old(self)@, keep),
            final(self).total_capacity() == old(self).total_capacity(),
            final(self).limits() == old(self).limits(),
            final(self).allocator_value() == old(self).allocator_value(),
            final(self).blocks_made() == old(self).blocks_made(),
            old(self).sizes_fit() ==> final(self).sizes_fit(),
    {
        let ghost o = *self;
        let hs = self.handles_vec();
        let n = hs.len();
        let ghost mut keep: Seq<bool> = Seq::empty();
        let mut i: usize = 0;
        proof {
            assert(select(o@.subrange(0, 0), keep) =~= Seq::<(Handle, T)>::empty());
            assert(o@.subrange(0, n as int) =~= o@);
            assert(Seq::<(Handle, T)>::empty() + o@ =~= o@);
            o.lemma_view_len();
        }
        while i < n
            invariant
                self.wf(),
                o.wf(),
                n == o@.len(),
                hs@ == o.handles(),
                i <= n,
                keep.len() == i,
                forall|j: int| 0 <= j < i ==> call_ensures(f, (&o@[j].1,), #[trigger] keep[j]),
                forall|x: &T| call_requires(f, (x,)),
                self@ == select(o@.subrange(0, i as int), keep) + o@.subrange(i as int, n as int),
                self.total_capacity() == o.total_capacity(),
                self.limits() == o.limits(),
                self.allocator_value() == o.allocator_value(),
                self.blocks_made() == o.blocks_made(),
                o.sizes_fit() ==> self.sizes_fit(),
            decreases n - i,
        {
            let h = hs[i];
            let ghost pre = select(o@.subrange(0, i as int), keep);
            let ghost pos = pre.len() as int;
            proof {
                assert(self@[pos] == o@[i as int]);
                self.lemma_handle_at(pos);
            }
            let x = self.get(h).unwrap();
            let b = f(x);
            proof {
                lemma_select_step(o@, keep, i as int, b);
            }
            if !b {
                self.erase(h);
                proof {
                    assert(self@ =~= pre + o@.subrange(i + 1, n as int));
                }
            } else {
                proof {
                    assert(self@ =~= pre.push(o@[i as int]) + o@.subrange(i + 1, n as int));
                }
            }
            proof {
                keep = keep.push(b);
            }
            i = i + 1;
        }
        proof {
            assert(o@.subrange(0, n as int) =~= o@);
            assert(self@ =~= select(o@, keep));
        }
    }

    /// Erases each element that `same_bucket` finds equal to the last kept
    /// element before it, and returns how many were erased. Meant for a
    /// sorted hive, where it leaves one element of each run of equal ones.
    #[verifier::spinoff_prover]
    #[verifier::rlimit(80)]
    pub fn unique_by<F: Fn(&T, &T) -> bool>(&mut self, same_bucket: F) -> (r: usize)
        requires
            old(self).wf(),
            forall|x: &T, y: &T| call_requires(same_bucket, (x, y)),
        ensures
            final(self).wf(),
            exists|keep: Seq<bool>|
                #![trigger select(old(self)@, keep)]
                keep.len() == old(self)@.len() && (old(self)@.len() > 0 ==> keep[0]) && (forall|i: int|
                    1 <= i < old(self)@.len() ==> call_ensures(
                        same_bucket,
                        (&old(self)@[last_kept(keep, i)].1, &old(self)@[i].1),
                        !#[trigger] keep[i],
                    )) && final(self)@ == select(old(self)@, keep) && r == dropped(keep),
            final(self).total_capacity() == old(self).total_capacity(),
            final(self).limits() == old(self).limits(),
            final(self).allocator_value() == old(self).allocator_value(),
            final(self).blocks_made() == old(self).blocks_made(),
            old(self).sizes_fit() ==> final(self).sizes_fit(),
    {
        let ghost o = *self;
        let hs = self.handles_vec();
        let n = hs.len();
        proof {
            o.lemma_view_len();
        }
        if n < 2 {
            proof {
                let keep = Seq::new(n as nat, |j: int| true);
                assert(select(o@, keep) =~= o@) by {
                    if n == 1 {
                        assert(o@.drop_last() =~= Seq::<(Handle, T)>::empty());
                        assert(select(o@.drop_last(), keep.drop_last()) =~= Seq::<(Handle, T)>::empty());
                    } else {
                        assert(o@ =~= Seq::<(Handle, T)>::empty());
                    }
                }
                if n == 1 {
                    assert(keep.drop_last() =~= Seq::<bool>::empty());
                }
                assert(dropped(keep) == 0) by {
                    if n == 1 {
                        assert(dropped(keep.drop_last()) == 0);
                    }
                }
                assert(select(o@, keep) == o@);
            }
            return 0;
        }
        let ghost mut keep: Seq<bool> = seq![true];
        let mut prev = hs[0];
        let mut removed: usize = 0;
        let mut i: usize = 1;
        proof {
            assert(o@.subrange(0, 1).drop_last() =~= Seq::<(Handle, T)>::empty());
            assert(keep.drop_last() =~= Seq::<bool>::empty());
            assert(select(o@.subrange(0, 1).drop_last(), keep.drop_last()) =~= Seq::<(Handle, T)>::empty());
            assert(select(o@.subrange(0, 1), keep) =~= o@.subrange(0, 1));
            assert(o@.subrange(0, 1) + o@.subrange(1, n as int) =~= o@);
            assert(dropped(keep) == 0) by {
                assert(dropped(keep.drop_last()) == 0);
            }
        }
        while i < n
            invariant
                self.wf(),
                o.wf(),
                n == o@.len(),
                hs@ == o.handles(),
                1 <= i <= n,
                keep.len() == i,
                keep[0],
                prev == o@[last_kept(keep, i as int)].0,
                0 <= last_kept(keep, i as int) < i,
                keep[last_kept(keep, i as int)],
                forall|j: int| 1 <= j < i ==> call_ensures(
                    same_bucket,
                    (&o@[last_kept(keep, j)].1, &o@[j].1),
                    !#[trigger] keep[j],
                ),
                forall|x: &T, y: &T| call_requires(same_bucket, (x, y)),
                self@ == select(o@.subrange(0, i as int), keep) + o@.subrange(i as int, n as int),
                removed == dropped(keep),
                removed <= i,
                self.total_capacity() == o.total_capacity(),
                self.limits() == o.limits(),
                self.allocator_value() == o.allocator_value(),
                self.blocks_made() == o.blocks_made(),
                o.sizes_fit() ==> self.sizes_fit(),
            decreases n - i,
        {
            let h = hs[i];
            let ghost pre = select(o@.subrange(0, i as int), keep);
            let ghost pos = pre.len() as int;
            let ghost lk = last_kept(keep, i as int);
            proof {
                assert(self@[pos] == o@[i as int]);
                self.lemma_handle_at(pos);
                lemma_select_kept(o@, keep, i as int);
                let pp = select(o@.subrange(0, i as int), keep).len() - 1;
                assert(self@[pp] == o@[lk]);
                self.lemma_handle_at(pp);
            }
            let x = self.get(prev).unwrap();
            let y = self.get(h).unwrap();
            let b = same_bucket(x, y);
            proof {
                lemma_select_step(o@, keep, i as int, !b);
                assert(keep.push(!b).drop_last() =~= keep);
            }
            if b {
                self.erase(h);
                removed = removed + 1;
                proof {
                    assert(self@ =~= pre + o@.subrange(i + 1, n as int));
                }
            } else {
                prev = h;
                proof {
                    assert(self@ =~= pre.push(o@[i as int]) + o@.subrange(i + 1, n as int));
                }
            }
            proof {
                let k2 = keep.push(!b);
                assert forall|j: int| 0 <= j <= i implies last_kept(k2, j) == last_kept(keep, j) by {
                    lemma_last_kept_prefix(keep, k2, j);
                }
                keep = k2;
            }
            i = i + 1;
        }
        proof {
            assert(o@.subrange(0, n as int) =~= o@);
            assert(self@ =~= select(o@, keep));
        }
        removed
    }
}

/// The last kept element of a prefix is the last element of its selection.
proof fn lemma_select_kept<X>(s: Seq<X>, keep: Seq<bool>, i: int)
    requires
        1 <= i <= s.len(),
        keep.len() == i,
        keep[last_kept(keep, i)],
        0 <= last_kept(keep, i) < i,
    ensures
        select(s.subrange(0, i), keep).len() >= 1,
        select(s.subrange(0, i), keep).last() == s[last_kept(keep, i)],
    decreases i,
{
    assert(s.subrange(0, i).drop_last() =~= s.subrange(0, i - 1));
    if !keep[i - 1] {
        assert(keep.drop_last()[last_kept(keep.drop_last(), i - 1)] == keep[last_kept(keep, i)]) by {
            lemma_last_kept_prefix(keep.drop_last(), keep, i - 1);
        }
        lemma_last_kept_prefix(keep.drop_last(), keep, i - 1);
        lemma_select_kept(s, keep.drop_last(), i - 1);
    }
}

/// Flags agreeing on a prefix agree on the last set flag within it.
proof fn lemma_last_kept_prefix(a: Seq<bool>, b: Seq<bool>, i: int)
    requires
        0 <= i <= a.len(),
        i <= b.len(),
        forall|j: int| 0 <= j < i ==> a[j] == b[j],
    ensures
        last_kept(a, i) == last_kept(b, i),
    decreases i,
{
    if i > 0 {
        lemma_last_kept_prefix(a, b, i - 1);
    }
}



impl<T: PartialEq, A: Allocator> Hive<T, A> {
    /// Erases each element equal (by `==`) to the last kept element before
    /// it, and returns how many were erased. Meant for a sorted hive.
    pub fn unique(&mut self) -> (r: usize)
        requires
            old(self).wf(),
        ensures
            final(self).wf(),
            exists|keep: Seq<bool>|
                #![trigger select(old(self)@, keep)]
                keep.len() == old(self)@.len() && (old(self)@.len() > 0 ==> keep[0]) && (T::obeys_eq_spec()
                    ==> forall|i: int|
                    1 <= i < old(self)@.len() ==> #[trigger] keep[i] == !old(self)@[last_kept(keep, i)].1.eq_spec(
                        &old(self)@[i].1,
                    )) && final(self)@ == select(old(self)@, keep) && r == dropped(keep),
            final(self).total_capacity() == old(self).total_capacity(),
            final(self).limits() == old(self).limits(),
            final(self).allocator_value() == old(self).allocator_value(),
            final(self).blocks_made() == old(self).blocks_made(),
            old(self).sizes_fit() ==> final(self).sizes_fit(),
    {
        let eq = |a: &T, b: &T| -> (r: bool)
            ensures
                T::obeys_eq_spec() ==> r == a.eq_spec(b),
            { a == b };
        self.unique_by(eq)
    }
}



impl<T, A: Allocator> Hive<T, A> {
    /// No handle names two elements.
    pub proof fn lemma_handles_unique(&self)
        requires
            self.wf(),
        ensures
            handles_unique(self@),
    {
        self.lemma_view_unique();
    }
}


impl<T, A: Allocator> Hive<T, A> {
    /// Every block that holds elements has a capacity within `l`.
    pub closed spec fn blocks_fit(&self, l: BlockCapacityLimits) -> bool {
        forall|k: int| 0 <= k < self.glen() ==> l.min <= (#[trigger] self.groups@[k]).capacity <= l.max
    }

    /// Every block, holding elements or reserved, fits the hive's own
    /// limits.
    pub closed spec fn sizes_fit(&self) -> bool {
        &&& forall|k: int|
            0 <= k < self.glen() ==> self.min_block_capacity <= (#[trigger] self.groups@[k]).capacity
                <= self.max_block_capacity
        &&& forall|r: int|
            0 <= r < self.reserved@.len() ==> self.min_block_capacity <= (#[trigger] self.reserved@[r]).capacity
                <= self.max_block_capacity
    }

    /// Blocks of the same capacities, place by place, under the same limits
    /// fit them alike.
    proof fn lemma_sizes_same(o: Self, n: Self)
        requires
            n.groups@.len() == o.groups@.len(),
            forall|k: int| 0 <= k < n.glen() ==> (#[trigger] n.groups@[k]).capacity == o.groups@[k].capacity,
            n.reserved@.len() == o.reserved@.len(),
            forall|r: int| 0 <= r < n.reserved@.len() ==> (#[trigger] n.reserved@[r]).capacity == o.reserved@[r].capacity,
            n.min_block_capacity == o.min_block_capacity,
            n.max_block_capacity == o.max_block_capacity,
        ensures
            n.sizes_fit() == o.sizes_fit(),
    {
        if o.sizes_fit() {
            assert forall|k: int| 0 <= k < n.glen() implies n.min_block_capacity <= (#[trigger] n.groups@[k]).capacity
                <= n.max_block_capacity by {
                assert(o.groups@[k].capacity == n.groups@[k].capacity);
            }
            assert forall|r: int| 0 <= r < n.reserved@.len() implies n.min_block_capacity <= (
            #[trigger] n.reserved@[r]).capacity <= n.max_block_capacity by {
                assert(o.reserved@[r].capacity == n.reserved@[r].capacity);
            }
        }
        if n.sizes_fit() {
            assert forall|k: int| 0 <= k < o.glen() implies o.min_block_capacity <= (#[trigger] o.groups@[k]).capacity
                <= o.max_block_capacity by {
                assert(o.groups@[k].capacity == n.groups@[k].capacity);
            }
            assert forall|r: int| 0 <= r < o.reserved@.len() implies o.min_block_capacity <= (
            #[trigger] o.reserved@[r]).capacity <= o.max_block_capacity by {
                assert(o.reserved@[r].capacity == n.reserved@[r].capacity);
            }
        }
    }

    /// Blocks that fit the hive's own limits fit them as `blocks_fit` asks,
    /// and fit any limits that are at least as wide.
    pub proof fn lemma_sizes_fit(&self)
        requires
            self.sizes_fit(),
        ensures
            self.blocks_fit(self.limits()),
            forall|l: BlockCapacityLimits|
                l.min <= self.limits().min && self.limits().max <= l.max ==> #[trigger] self.blocks_fit(l),
            forall|r: int|
                0 <= r < self.reserved_count() ==> self.limits().min <= #[trigger] self.reserved_block_capacity(r)
                    <= self.limits().max,
    {
    }

    /// A hive that holds elements in blocks fitting its own limits has a
    /// block outside any limits that share no capacity with its own.
    pub proof fn lemma_blocks_outside(&self, l: BlockCapacityLimits)
        requires
            self.wf(),
            self.sizes_fit(),
            self@.len() > 0,
            l.max < self.limits().min || self.limits().max < l.min,
        ensures
            !self.blocks_fit(l),
    {
        self.lemma_view_len();
        assert(self.glen() > 0);
        assert(self.min_block_capacity <= self.groups@[0].capacity <= self.max_block_capacity);
    }

    /// A hive's block capacity limits are always valid for `T`.
    pub proof fn lemma_limits_valid(&self)
        requires
            self.wf(),
        ensures
            limits_valid::<T>(self.limits()),
    {
    }

    /// `n` is `o` with possibly other limits and allocator.
    spec fn same_but_settings(o: Self, n: Self) -> bool {
        &&& n.groups == o.groups
        &&& n.reserved == o.reserved
        &&& n.erasure_stack == o.erasure_stack
        &&& n.begin == o.begin
        &&& n.end == o.end
        &&& n.len == o.len
        &&& n.capacity == o.capacity
        &&& n.tag == o.tag
        &&& n.next_serial == o.next_serial
    }

    proof fn lemma_same_but_settings(o: Self, n: Self)
        requires
            o.wf(),
            Self::same_but_settings(o, n),
            limits_valid::<T>(n.limits()),
        ensures
            n.wf(),
            n@ == o@,
            n.total_capacity() == o.total_capacity(),
            n.reserved_capacity() == o.reserved_capacity(),
            n.blocks_made() == o.blocks_made(),
            n.has_holes() == o.has_holes(),
            forall|l: BlockCapacityLimits| n.blocks_fit(l) == o.blocks_fit(l),
            n.reserved_count() == o.reserved_count(),
            forall|r: int| #[trigger] n.reserved_block_capacity(r) == o.reserved_block_capacity(r),
    {
        assert forall|j: int| 0 <= j < n.erasure_stack@.len() implies n.has_group(#[trigger] n.erasure_stack@[j]) by {
            assert(o.has_group(o.erasure_stack@[j]));
            let m = choose|m: int| 0 <= m < o.glen() && #[trigger] o.groups@[m].id == o.erasure_stack@[j];
            assert(n.groups@[m].id == n.erasure_stack@[j]);
        }
        assert(n.wf());
        o.lemma_holes_iff_stack();
        n.lemma_holes_iff_stack();
    }

    /// Whether every block that holds elements fits `limits`.
    fn groups_fit_limits(&self, limits: BlockCapacityLimits) -> (r: bool)
        ensures
            r == self.blocks_fit(limits),
    {
        let mut k: usize = 0;
        while k < self.groups.len()
            invariant
                k <= self.groups@.len(),
                forall|j: int| 0 <= j < k ==> limits.min <= (#[trigger] self.groups@[j]).capacity <= limits.max,
            decreases self.groups@.len() - k,
        {
            let c = self.groups[k].capacity;
            if c < limits.min || c > limits.max {
                return false;
            }
            k = k + 1;
        }
        true
    }

    /// Frees the reserved blocks whose capacity is outside `limits`.
    fn deallocate_reserved_outside_limits(&mut self, limits: BlockCapacityLimits)
        requires
            old(self).wf(),
        ensures
            final(self).wf(),
            final(self)@ == old(self)@,
            final(self).total_capacity() - final(self).reserved_capacity() == old(self).total_capacity()
                - old(self).reserved_capacity(),
            forall|r: int|
                0 <= r < final(self).reserved_count() ==> limits.min <= #[trigger] final(self).reserved_block_capacity(r)
                    <= limits.max,
            final(self).reserved_capacities() == old(self).reserved_capacities().filter(
                |c: int| limits.min <= c <= limits.max,
            ),
            final(self).limits() == old(self).limits(),
            final(self).allocator_value() == old(self).allocator_value(),
            final(self).blocks_made() == old(self).blocks_made(),
            old(self).sizes_fit() ==> final(self).sizes_fit(),
            final(self).has_holes() == old(self).has_holes(),
            forall|l: BlockCapacityLimits| final(self).blocks_fit(l) == old(self).blocks_fit(l),
    {
        let ghost o = *self;
        let ghost oc = o.reserved_capacities();
        let ghost pr = |c: int| limits.min <= c <= limits.max;
        let ghost mut m: int = 0;
        proof {
            assert(oc.subrange(0, 0) =~= Seq::<int>::empty());
            reveal_with_fuel(Seq::filter, 1);
            assert(oc.subrange(0, 0).filter(pr) =~= Seq::<int>::empty());
            assert(self.reserved_capacities() =~= oc.subrange(0, 0).filter(pr) + oc.subrange(0, oc.len() as int));
        }
        let mut j: usize = 0;
        while j < self.reserved.len()
            invariant
                self.wf(),
                self@ == o@,
                self.groups@ == o.groups@,
                self.erasure_stack@ == o.erasure_stack@,
                self.end == o.end,
                self.total_capacity() - self.reserved_capacity() == o.total_capacity() - o.reserved_capacity(),
                self.limits() == o.limits(),
                self.allocator == o.allocator,
                self.next_serial == o.next_serial,
                o.sizes_fit() ==> self.sizes_fit(),
                j <= self.reserved@.len(),
                forall|r: int| 0 <= r < j ==> limits.min <= (#[trigger] self.reserved@[r]).capacity <= limits.max,
                oc == o.reserved_capacities(),
                pr == (|c: int| limits.min <= c <= limits.max),
                0 <= m <= oc.len(),
                j == oc.subrange(0, m).filter(pr).len(),
                self.reserved_capacities() == oc.subrange(0, m).filter(pr) + oc.subrange(m, oc.len() as int),
            decreases self.reserved@.len() - j,
        {
            proof {
                assert(self.reserved_capacities().len() == self.reserved@.len());
                assert(self.reserved_capacities()[j as int] == oc[m]);
                assert(oc.subrange(0, m + 1).drop_last() =~= oc.subrange(0, m));
                reveal_with_fuel(Seq::filter, 1);
                assert(oc.subrange(0, m + 1).last() == oc[m]);
            }
            let c = self.reserved[j].capacity;
            if c < limits.min || c > limits.max {
                let ghost before = *self;
                proof {
                    assert forall|r: int| 0 <= r < self.reserved@.len() implies (|g: Group<T>| g.cap())(
                        #[trigger] self.reserved@[r],
                    ) >= 0 by {
                    }
                    crate::contents::lemma_sum_pos(self.reserved@, |g: Group<T>| g.cap(), j as int);
                    crate::contents::lemma_sum_nonneg(self.groups@, |g: Group<T>| g.cap());
                }
                let g = self.reserved.remove(j);
                self.capacity = self.capacity - c as usize;
                proof {
                    Self::lemma_drop_reserved(before, *self, j as int);
                    assert forall|r: int| 0 <= r < j implies limits.min <= (#[trigger] self.reserved@[r]).capacity
                        <= limits.max by {
                        assert(self.reserved@[r] == before.reserved@[r]);
                    }
                    assert(!pr(oc[m]));
                    assert(oc.subrange(0, m + 1).filter(pr) == oc.subrange(0, m).filter(pr));
                    assert(self.reserved_capacities() =~= before.reserved_capacities().remove(j as int));
                    assert(self.reserved_capacities() =~= oc.subrange(0, m + 1).filter(pr) + oc.subrange(
                        m + 1,
                        oc.len() as int,
                    ));
                    m = m + 1;
                }
            } else {
                proof {
                    assert(pr(oc[m]));
                    assert(oc.subrange(0, m + 1).filter(pr) == oc.subrange(0, m).filter(pr).push(oc[m]));
                    assert(self.reserved_capacities() =~= oc.subrange(0, m + 1).filter(pr) + oc.subrange(
                        m + 1,
                        oc.len() as int,
                    ));
                    m = m + 1;
                }
                j = j + 1;
            }
        }
        proof {
            assert(self.reserved_capacities().len() == self.reserved@.len());
            assert(oc.subrange(0, oc.len() as int) =~= oc);
            assert(self.reserved_capacities() =~= oc.filter(pr));
            o.lemma_holes_iff_stack();
            self.lemma_holes_iff_stack();
        }
    }

    /// Moves every element, in order, into fresh blocks that fit `limits`,
    /// with room reserved for them first. Handles change.
    fn compact_to_limits(&mut self, limits: BlockCapacityLimits)
        where
            A: Clone,
        requires
            old(self).wf(),
            limits_valid::<T>(limits),
            old(self)@.len() + 131070 <= usize::MAX,
        ensures
            final(self).wf(),
            final(self).elems() == old(self).elems(),
            final(self).limits() == limits,
            final(self).allocator_value() == old(self).allocator_value(),
            final(self).total_capacity() == reserve_growth(old(self)@.len() as int, limits.min as int, limits.max as int),
            final(self).blocks_made() <= old(self)@.len(),
            final(self).sizes_fit(),
    {
        let ghost o = *self;
        proof {
            self.lemma_view_len();
            assert(usize::MAX <= u64::MAX);
        }
        let mut temp = Self::empty_with(self.allocator.clone(), limits);
        let ghost t0 = temp;
        let ghost s0 = *self;
        core::mem::swap(&mut temp.allocator, &mut self.allocator);
        proof {
            Self::lemma_same_but_settings(t0, temp);
            Self::lemma_same_but_settings(s0, *self);
        }
        let n = self.len;
        temp.reserve(n);
        proof {
            temp.lemma_glen_empty();
            assert(temp.elems() =~= o.elems().subrange(0, 0));
            assert(self.elems() =~= o.elems().subrange(0, n as int));
        }
        let ghost mid = temp;
        let mut i: usize = 0;
        while i < n
            invariant
                self.wf(),
                temp.wf(),
                n == o@.len(),
                i <= n,
                self.elems() == o.elems().subrange(i as int, n as int),
                temp.elems() == o.elems().subrange(0, i as int),
                self@.len() == n - i,
                temp@.len() == i,
                !temp.has_holes(),
                temp.total_capacity() == mid.total_capacity(),
                mid.total_capacity() >= n,
                mid.total_capacity() == reserve_growth(n as int, limits.min as int, limits.max as int),
                temp.limits() == limits,
                temp.allocator_value() == o.allocator_value(),
                temp.blocks_made() <= n,
                temp.sizes_fit(),
            decreases n - i,
        {
            let ghost bs = *self;
            let ghost bt = temp;
            proof {
                self.lemma_view_len();
                temp.lemma_view_len();
            }
            let c = self.first_cursor();
            let h = self.cursor_handle(c, Ghost(0));
            proof {
                self.lemma_handle_at(0);
            }
            let v = self.take(h);
            temp.insert(v);
            proof {
                assert(self.elems() =~= bs.elems().drop_first());
                assert(temp.elems() =~= bt.elems().push(v));
                assert(bs.elems()[0] == o.elems()[i as int]);
                assert(self.elems() =~= o.elems().subrange(i + 1, n as int));
                assert(temp.elems() =~= o.elems().subrange(0, i + 1));
            }
            i = i + 1;
        }
        proof {
            assert(temp.elems() =~= o.elems());
        }
        *self = temp;
    }

    /// Changes the block capacity limits, or fails if they are out of
    /// bounds. When some block that holds elements does not fit the new
    /// limits, the elements move, in order, into fresh blocks that fit
    /// (handles change); otherwise they stay where they are, and reserved
    /// blocks outside the limits are freed (all of them when the hive is
    /// empty).
    pub fn reshape(&mut self, limits: BlockCapacityLimits) -> (r: Result<(), InvalidBlockCapacityLimits>)
        where
            A: Clone,
        requires
            old(self).wf(),
            old(self)@.len() + 131070 <= usize::MAX,
        ensures
            r is Ok <==> limits_valid::<T>(limits),
            r is Err ==> *final(self) == *old(self),
            final(self).wf(),
            r is Ok ==> final(self).limits() == limits && final(self).elems() == old(self).elems()
                && final(self).allocator_value() == old(self).allocator_value(),
            r is Ok && (old(self)@.len() == 0 || old(self).blocks_fit(limits)) ==> final(self)@ == old(self)@,
            r is Ok && (old(self)@.len() == 0 || old(self).blocks_fit(limits)) ==> final(self).total_capacity()
                - final(self).reserved_capacity() == old(self).total_capacity() - old(self).reserved_capacity(),
            r is Ok && (old(self)@.len() == 0 || old(self).blocks_fit(limits)) ==> forall|i: int|
                0 <= i < final(self).reserved_count() ==> limits.min <= #[trigger] final(self).reserved_block_capacity(i)
                    <= limits.max,
            r is Ok && old(self)@.len() == 0 ==> final(self).reserved_count() == 0,
            r is Ok && old(self)@.len() != 0 && !old(self).blocks_fit(limits) ==> final(self).total_capacity()
                == reserve_growth(old(self)@.len() as int, limits.min as int, limits.max as int),
            r is Ok && (old(self)@.len() != 0 || old(self).blocks_fit(limits)) ==> final(self).sizes_fit(),
            r is Ok && old(self)@.len() != 0 && old(self).blocks_fit(limits) ==> final(self).reserved_capacities()
                == old(self).reserved_capacities().filter(|c: int| limits.min <= c <= limits.max)
                && final(self).total_capacity() == old(self).total_capacity() - seq_sum(
                old(self).reserved_capacities().filter(|c: int| c < limits.min || c > limits.max),
            ),
            final(self).blocks_made() <= old(self).blocks_made() + old(self)@.len(),
    {
        match Self::check_block_capacity_limits(limits) {
            Err(e) => {
                return Err(e);
            },
            Ok(()) => {},
        }
        proof {
            self.lemma_view_len();
        }
        if self.len != 0 && !self.groups_fit_limits(limits) {
            self.compact_to_limits(limits);
        } else {
            let ghost o = *self;
            self.deallocate_reserved_outside_limits(limits);
            proof {
                self.lemma_view_len();
                Self::lemma_reserve_kept_within(o, *self, limits);
            }
            if self.len == 0 {
                self.trim_capacity();
                proof {
                    self.lemma_reserved_capacity();
                }
            }
            let ghost before = *self;
            self.min_block_capacity = limits.min;
            self.max_block_capacity = limits.max;
            proof {
                Self::lemma_same_but_settings(before, *self);
                if self.blocks_fit(limits) {
                    assert forall|r: int| 0 <= r < self.reserved@.len() implies self.min_block_capacity <= (
                    #[trigger] self.reserved@[r]).capacity <= self.max_block_capacity by {
                        assert(self.reserved_block_capacity(r) == before.reserved_block_capacity(r));
                    }
                    assert(self.sizes_fit());
                }
            }
        }
        Ok(())
    }

    /// Frees what the elements do not need. Reserved blocks go first; when
    /// the blocks that hold elements fit the limits the elements stay where
    /// they are, otherwise they move, in order, into fresh blocks that fit
    /// (handles change). An empty hive frees all its blocks.
    pub fn shrink_to_fit(&mut self)
        where
            A: Clone,
        requires
            old(self).wf(),
            old(self)@.len() + 131070 <= usize::MAX,
        ensures
            final(self).wf(),
            final(self).elems() == old(self).elems(),
            final(self).limits() == old(self).limits(),
            final(self).allocator_value() == old(self).allocator_value(),
            old(self)@.len() == old(self).total_capacity() ==> *final(self) == *old(self),
            old(self)@.len() == 0 ==> final(self).total_capacity() == 0,
            old(self)@.len() != 0 && old(self)@.len() != old(self).total_capacity() && old(self).blocks_fit(
                old(self).limits(),
            ) ==> final(self)@ == old(self)@ && final(self).total_capacity() == old(self).total_capacity()
                - old(self).reserved_capacity(),
            old(self)@.len() != 0 && old(self)@.len() != old(self).total_capacity() && !old(self).blocks_fit(
                old(self).limits(),
            ) ==> final(self).total_capacity() == reserve_growth(
                old(self)@.len() as int,
                old(self).limits().min as int,
                old(self).limits().max as int,
            ),
            old(self).sizes_fit() ==> final(self)@ == old(self)@ && final(self).sizes_fit()
                && final(self).total_capacity() <= old(self).total_capacity()
                && final(self).blocks_made() == old(self).blocks_made(),
            old(self).sizes_fit() && old(self)@.len() != 0
                ==> final(self).total_capacity() == old(self).total_capacity() - old(self).reserved_capacity(),
            final(self).blocks_made() <= old(self).blocks_made() + old(self)@.len(),
    {
        proof {
            self.lemma_view_len();
            self.lemma_reserved_capacity();
            if self.capacity == self.len {
                self.lemma_full();
                assert(self.reserved@ =~= Seq::<Group<T>>::empty());
            }
            if self.sizes_fit() {
                self.lemma_sizes_fit();
            }
        }
        if self.capacity == self.len {
            return;
        }
        if self.len == 0 {
            self.trim_capacity();
            if self.groups.len() > 0 {
                let ghost before = *self;
                proof {
                    before.lemma_view_len();
                    Self::lemma_drop_only_group(before);
                }
                let g = self.groups.remove(0);
                self.capacity = self.capacity - g.capacity as usize;
                self.begin = Cursor::null();
                self.end = Cursor::null();
                proof {
                    Self::lemma_drop_only_group_after(before, *self);
                }
            }
            proof {
                self.lemma_reserved_capacity();
                self.lemma_view_len();
            }
            return;
        }
        let limits = self.block_capacity_limits();
        if self.groups_fit_limits(limits) {
            self.trim_capacity();
        } else {
            self.compact_to_limits(limits);
        }
    }

    /// An empty hive with its blocks in the reserve freed has at most one
    /// block, blank.
    proof fn lemma_drop_only_group(o: Self)
        requires
            o.wf(),
            o.len == 0,
            o.glen() > 0,
            o.reserved@.len() == 0,
        ensures
            o.glen() == 1,
            o.capacity == o.groups@[0].cap(),
            o.erasure_stack@.len() == 0,
    {
        assert(o.glen() == 1);
        crate::contents::lemma_sum_push(Seq::<Group<T>>::empty(), o.groups@[0], |g: Group<T>| g.cap());
        assert(o.groups@ =~= Seq::<Group<T>>::empty().push(o.groups@[0]));
        assert(o.reserved@ =~= Seq::<Group<T>>::empty());
        if o.erasure_stack@.len() > 0 {
            assert(o.has_group(o.erasure_stack@[0]));
            assert(o.groups@[0].wf(o.e_of(0)));
            o.groups@[0].lemma_blank_no_free();
            assert(o.erasure_stack@.contains(o.groups@[0].id));
        }
    }

    proof fn lemma_drop_only_group_after(o: Self, n: Self)
        requires
            o.wf(),
            o.len == 0,
            o.glen() == 1,
            o.capacity == o.groups@[0].cap(),
            o.reserved@.len() == 0,
            o.erasure_stack@.len() == 0,
            n.groups@ == o.groups@.remove(0),
            n.capacity == 0,
            n.begin == (Cursor { group: None, index: 0 }),
            n.end == (Cursor { group: None, index: 0 }),
            n.reserved == o.reserved,
            n.erasure_stack == o.erasure_stack,
            n.len == o.len,
            n.tag == o.tag,
            n.next_serial == o.next_serial,
            n.min_block_capacity == o.min_block_capacity,
            n.max_block_capacity == o.max_block_capacity,
        ensures
            n.wf(),
            n@ == o@,
            n.total_capacity() == 0,
    {
        assert(n.groups@ =~= Seq::<Group<T>>::empty());
        assert(n.reserved@ =~= Seq::<Group<T>>::empty());
        assert(n.groups@ + n.reserved@ =~= Seq::<Group<T>>::empty());
        assert(n.wf());
        o.lemma_view_len();
        assert(n@ =~= o@);
    }
}


/// Some block of `gs` carries `id`.
spec fn id_among<T>(gs: Seq<Group<T>>, id: GroupId) -> bool {
    exists|k: int| 0 <= k < gs.len() && (#[trigger] gs[k]).id == id
}

impl<T, A: Allocator> Hive<T, A> {
    /// `id` is carried by a block of the hive, or may be given to a block
    /// it creates later.
    spec fn id_taken(&self, id: GroupId) -> bool {
        ||| exists|j: int| 0 <= j < (self.groups@ + self.reserved@).len() && #[trigger] (self.groups@ + self.reserved@)[j].id == id
        ||| (id.tag == self.tag && id.serial >= self.next_serial)
    }

    /// Some block of `source` that holds elements carries an id that this
    /// hive uses or may give out.
    pub closed spec fn blocks_clash(&self, source: &Self) -> bool {
        exists|k: int| 0 <= k < source.glen() && self.id_taken(#[trigger] source.groups@[k].id)
    }

    /// Whether `id` is taken.
    fn id_in_use(&self, id: GroupId) -> (b: bool)
        ensures
            b == self.id_taken(id),
    {
        if id.tag == self.tag && id.serial >= self.next_serial {
            return true;
        }
        let ghost all = self.groups@ + self.reserved@;
        let mut k: usize = 0;
        while k < self.groups.len()
            invariant
                all == self.groups@ + self.reserved@,
                k <= self.groups@.len(),
                forall|j: int| 0 <= j < k ==> #[trigger] all[j].id != id,
            decreases self.groups@.len() - k,
        {
            if self.groups[k].id == id {
                assert(all[k as int].id == id);
                return true;
            }
            k = k + 1;
        }
        let mut r: usize = 0;
        while r < self.reserved.len()
            invariant
                all == self.groups@ + self.reserved@,
                r <= self.reserved@.len(),
                forall|j: int| 0 <= j < self.groups@.len() + r ==> #[trigger] all[j].id != id,
            decreases self.reserved@.len() - r,
        {
            if self.reserved[r].id == id {
                assert(all[self.groups@.len() + r].id == id);
                return true;
            }
            proof {
                assert(all[self.groups@.len() + r] == self.reserved@[r as int]);
            }
            r = r + 1;
        }
        false
    }

    /// Whether splicing `source` into this hive would give the moved blocks
    /// fresh ids, so that the handles of `source`'s elements change.
    pub fn ids_clash(&self, source: &Self) -> (b: bool)
        ensures
            b == self.blocks_clash(source),
    {
        let b = self.clashes(&source.groups);
        proof {
            if b {
                let k = choose|k: int| 0 <= k < source.groups@.len() && self.id_taken(#[trigger] source.groups@[k].id);
                assert(self.blocks_clash(source));
            }
        }
        b
    }

    /// Whether some block of `moved` carries a taken id.
    fn clashes(&self, moved: &Vec<Group<T>>) -> (b: bool)
        ensures
            b == exists|k: int| 0 <= k < moved@.len() && self.id_taken(#[trigger] moved@[k].id),
    {
        let mut k: usize = 0;
        while k < moved.len()
            invariant
                k <= moved@.len(),
                forall|j: int| 0 <= j < k ==> !self.id_taken(#[trigger] moved@[j].id),
            decreases moved@.len() - k,
        {
            if self.id_in_use(moved[k].id) {
                return true;
            }
            k = k + 1;
        }
        false
    }

    /// Blocks `moved`, to be taken over from `s` with free-list stack
    /// `stack`, fit next to the blocks of `o`, whose next serial number
    /// becomes `serial`.
    spec fn moved_ok(o: Self, s: Self, moved: Seq<Group<T>>, stack: Seq<GroupId>, serial: u64) -> bool {
        &&& moved.len() == s.glen()
        &&& forall|k: int| 0 <= k < moved.len() ==> (#[trigger] moved[k]).same_but_id(&s.groups@[k])
        &&& ids_distinct(moved)
        &&& forall|k: int, j: int|
            0 <= k < moved.len() && 0 <= j < (o.groups@ + o.reserved@).len() ==> (#[trigger] moved[k]).id != (
            #[trigger] (o.groups@ + o.reserved@)[j]).id
        &&& forall|k: int| 0 <= k < moved.len() && (#[trigger] moved[k]).id.tag == o.tag ==> moved[k].id.serial < serial
        &&& serial >= o.next_serial
        &&& stack.no_duplicates()
        &&& forall|j: int| 0 <= j < stack.len() ==> id_among(moved, #[trigger] stack[j])
        &&& forall|k: int| 0 <= k < moved.len() ==> (stack.contains(#[trigger] moved[k].id) <==> moved[k].free_order@.len() > 0)
    }

    /// Blocks taken over from `s` that fit `o`'s limits keep `o`'s sizes
    /// fitting, whatever `o`'s blocks precede them.
    proof fn lemma_spliced_sizes(o: Self, s: Self, n: Self, moved: Seq<Group<T>>, serial: u64, stack: Seq<GroupId>)
        requires
            o.sizes_fit(),
            s.blocks_fit(o.limits()),
            Self::moved_ok(o, s, moved, stack, serial),
            n.reserved == o.reserved,
            n.min_block_capacity == o.min_block_capacity,
            n.max_block_capacity == o.max_block_capacity,
            moved.len() <= n.glen() <= o.glen() + moved.len(),
            forall|k: int|
                0 <= k < n.glen() - moved.len() ==> (#[trigger] n.groups@[k]).capacity == o.groups@[k].capacity,
            forall|k: int|
                0 <= k < moved.len() ==> #[trigger] n.groups@[n.glen() - moved.len() + k] == moved[k],
        ensures
            n.sizes_fit(),
    {
        let d = n.glen() - moved.len();
        assert forall|k: int| 0 <= k < n.glen() implies n.min_block_capacity <= (#[trigger] n.groups@[k]).capacity
            <= n.max_block_capacity by {
            if k >= d {
                assert(n.groups@[d + (k - d)] == moved[k - d]);
                assert(moved[k - d].same_but_id(&s.groups@[k - d]));
            }
        }
    }

    /// Without a clash, the source's own blocks and stack fit.
    proof fn lemma_moved_ok_as_is(o: Self, s: Self)
        requires
            o.wf(),
            s.wf(),
            !o.blocks_clash(&s),
        ensures
            Self::moved_ok(o, s, s.groups@, s.erasure_stack@, o.next_serial),
    {
        s.lemma_ids_distinct();
        let moved = s.groups@;
        let all = o.groups@ + o.reserved@;
        assert forall|k: int, j: int| 0 <= k < moved.len() && 0 <= j < all.len() implies (#[trigger] moved[k]).id != (
        #[trigger] all[j]).id by {
            assert(!o.id_taken(moved[k].id));
        }
        assert forall|k: int| 0 <= k < moved.len() && (#[trigger] moved[k]).id.tag == o.tag implies moved[k].id.serial
            < o.next_serial by {
            assert(!o.id_taken(moved[k].id));
        }
        assert forall|j: int| 0 <= j < s.erasure_stack@.len() implies id_among(moved, #[trigger] s.erasure_stack@[j]) by {
            assert(s.has_group(s.erasure_stack@[j]));
            let k = choose|k: int| 0 <= k < s.glen() && #[trigger] s.groups@[k].id == s.erasure_stack@[j];
            assert(moved[k].id == s.erasure_stack@[j]);
        }
        assert(moved.len() == s.glen());
        assert(forall|k: int| 0 <= k < moved.len() ==> (#[trigger] moved[k]).same_but_id(&s.groups@[k]));
        assert(ids_distinct(moved));
        assert(s.erasure_stack@.no_duplicates());
        assert(forall|k: int| 0 <= k < moved.len() ==> (s.erasure_stack@.contains(#[trigger] moved[k].id) <==> moved[k].free_order@.len() > 0));
        assert(forall|k: int, j: int|
            0 <= k < moved.len() && 0 <= j < (o.groups@ + o.reserved@).len() ==> (#[trigger] moved[k]).id != (
            #[trigger] (o.groups@ + o.reserved@)[j]).id);
        assert(forall|k: int| 0 <= k < moved.len() && (#[trigger] moved[k]).id.tag == o.tag ==> moved[k].id.serial < o.next_serial);
    }

    /// Gives the blocks of `moved` fresh ids of this hive, in order, and
    /// lists those with a non-empty free list.
    fn renumber(&mut self, moved: Vec<Group<T>>, Ghost(s): Ghost<Self>) -> (r: (Vec<Group<T>>, Vec<GroupId>))
        requires
            old(self).wf(),
            s.wf(),
            moved@ == s.groups@,
            old(self).next_serial + moved@.len() <= u64::MAX,
        ensures
            final(self).wf(),
            final(self)@ == old(self)@,
            final(self).next_serial == old(self).next_serial + moved@.len(),
            final(self).groups == old(self).groups,
            final(self).reserved == old(self).reserved,
            final(self).erasure_stack == old(self).erasure_stack,
            final(self).begin == old(self).begin,
            final(self).end == old(self).end,
            final(self).len == old(self).len,
            final(self).capacity == old(self).capacity,
            final(self).tag == old(self).tag,
            final(self).limits() == old(self).limits(),
            final(self).allocator == old(self).allocator,
            Self::moved_ok(*old(self), s, r.0@, r.1@, final(self).next_serial),
    {
        let ghost o = *self;
        let ghost src = moved@;
        let mut out: Vec<Group<T>> = Vec::new();
        let mut stack: Vec<GroupId> = Vec::new();
        let mut moved = moved;
        let base = self.next_serial;
        let ghost all = o.groups@ + o.reserved@;
        let mut k: usize = 0;
        let n = moved.len();
        while k < n
            invariant
                self.groups == o.groups,
                self.reserved == o.reserved,
                self.erasure_stack == o.erasure_stack,
                self.begin == o.begin,
                self.end == o.end,
                self.len == o.len,
                self.capacity == o.capacity,
                self.tag == o.tag,
                self.min_block_capacity == o.min_block_capacity,
                self.max_block_capacity == o.max_block_capacity,
                self.allocator == o.allocator,
                base == o.next_serial,
                n == src.len(),
                base + n <= u64::MAX,
                k <= n,
                self.next_serial == base + k,
                moved@ == src.subrange(k as int, n as int),
                out@.len() == k,
                s.wf(),
                src == s.groups@,
                forall|j: int| 0 <= j < k ==> (#[trigger] out@[j]).same_but_id(&src[j]) && out@[j].id == (GroupId {
                    tag: o.tag,
                    serial: (base + j) as u64,
                }),
                stack@.no_duplicates(),
                forall|i: int| 0 <= i < k ==> (stack@.contains(#[trigger] out@[i].id) <==> out@[i].free_order@.len() > 0),
                forall|j: int| 0 <= j < stack@.len() ==> (#[trigger] stack@[j]).tag == o.tag && base <= stack@[j].serial < base + k,
            decreases n - k,
        {
            let g = moved.remove(0);
            proof {
                assert(g == src[k as int]);
                assert(s.groups@[k as int].wf(s.e_of(k as int)));
                s.groups@[k as int].lemma_wf_unfold(s.e_of(k as int));
            }
            let id = GroupId { tag: self.tag, serial: self.next_serial };
            let g = g.with_id(id);
            let nonempty = g.free_list_head != crate::group::NO_SLOT;
            proof {
                let q = g.free_order@;
                assert(g.links_ok(q));
                if q.len() > 0 {
                    assert(0 <= q[0] < g.cap());
                }
            }
            let ghost old_stack = stack@;
            if nonempty {
                stack.push(id);
            }
            out.push(g);
            self.next_serial = self.next_serial + 1;
            proof {
                assert(moved@ =~= src.subrange(k + 1, n as int));
                assert forall|j: int| 0 <= j < k + 1 implies (#[trigger] out@[j]).same_but_id(&src[j]) && out@[j].id == (
                GroupId { tag: o.tag, serial: (base + j) as u64 }) by {
                }
                if nonempty {
                    assert(stack@.no_duplicates()) by {
                        assert forall|a: int, b: int| 0 <= a < stack@.len() && 0 <= b < stack@.len() && a != b implies stack@[a]
                            != stack@[b] by {
                            if a < old_stack.len() && b < old_stack.len() {
                                assert(stack@[a] == old_stack[a] && stack@[b] == old_stack[b]);
                            } else if a < old_stack.len() {
                                assert(stack@[a] == old_stack[a]);
                                assert(old_stack[a].serial < base + k);
                            } else if b < old_stack.len() {
                                assert(stack@[b] == old_stack[b]);
                                assert(old_stack[b].serial < base + k);
                            }
                        }
                    }
                    assert forall|i: int| 0 <= i < k + 1 implies (stack@.contains(#[trigger] out@[i].id)
                        <==> out@[i].free_order@.len() > 0) by {
                        if i < k {
                            assert(out@[i].id.serial < base + k);
                            if stack@.contains(out@[i].id) {
                                let j = stack@.index_of(out@[i].id);
                                if j == old_stack.len() {
                                    assert(stack@[j] == id);
                                }
                                assert(old_stack.contains(out@[i].id));
                            }
                            if old_stack.contains(out@[i].id) {
                                let j = old_stack.index_of(out@[i].id);
                                assert(stack@[j] == old_stack[j]);
                            }
                        } else {
                            assert(stack@[old_stack.len() as int] == id);
                        }
                    }
                    assert forall|j: int| 0 <= j < stack@.len() implies (#[trigger] stack@[j]).tag == o.tag && base
                        <= stack@[j].serial < base + k + 1 by {
                        if j < old_stack.len() {
                            assert(stack@[j] == old_stack[j]);
                        }
                    }
                } else {
                    assert forall|i: int| 0 <= i < k + 1 implies (stack@.contains(#[trigger] out@[i].id)
                        <==> out@[i].free_order@.len() > 0) by {
                        if i == k {
                            if stack@.contains(id) {
                                let j = stack@.index_of(id);
                                assert(stack@[j].serial < base + k);
                            }
                        }
                    }
                }
            }
            k = k + 1;
        }
        proof {
            let m = out@;
            assert forall|j: int| 0 <= j < stack@.len() implies id_among(m, #[trigger] stack@[j]) by {
                let i = stack@[j].serial - base;
                assert(m[i].id == stack@[j]);
            }
            assert forall|a: int, b: int| 0 <= a < m.len() && 0 <= b < m.len() && a != b implies (#[trigger] m[a]).id
                != (#[trigger] m[b]).id by {
            }
            assert forall|i: int, j: int| 0 <= i < m.len() && 0 <= j < all.len() implies (#[trigger] m[i]).id != (
            #[trigger] all[j]).id by {
                assert(all[j].id.tag == o.tag ==> all[j].id.serial < o.next_serial);
            }
            assert(self.wf()) by {
                let alln = self.groups@ + self.reserved@;
                assert(alln == all);
                assert forall|j: int| 0 <= j < self.erasure_stack@.len() implies self.has_group(
                    #[trigger] self.erasure_stack@[j],
                ) by {
                    assert(o.has_group(o.erasure_stack@[j]));
                    let mm = choose|mm: int| 0 <= mm < o.glen() && #[trigger] o.groups@[mm].id == o.erasure_stack@[j];
                    assert(self.groups@[mm].id == self.erasure_stack@[j]);
                }
            }
        }
        (out, stack)
    }
}


impl<T, A: Allocator> Hive<T, A> {
    /// Takes out the blocks that hold elements, with their free-list stack,
    /// cursors and count; the reserve stays.
    fn detach(&mut self) -> (r: (Vec<Group<T>>, Vec<GroupId>, Cursor, Cursor, usize, usize))
        requires
            old(self).wf(),
        ensures
            r.0@ == old(self).groups@,
            r.1@ == old(self).erasure_stack@,
            r.2 == old(self).begin,
            r.3 == old(self).end,
            r.4 == old(self).len,
            r.5 == crate::contents::sum_caps(old(self).groups@),
            final(self).wf(),
            final(self)@ == Seq::<(Handle, T)>::empty(),
            final(self).groups@.len() == 0,
            final(self).reserved == old(self).reserved,
            final(self).capacity == old(self).capacity - r.5,
            final(self).tag == old(self).tag,
            final(self).next_serial == old(self).next_serial,
            final(self).limits() == old(self).limits(),
            final(self).allocator == old(self).allocator,
    {
        let ghost o = *self;
        let mut moved: Vec<Group<T>> = Vec::new();
        core::mem::swap(&mut moved, &mut self.groups);
        let mut stack: Vec<GroupId> = Vec::new();
        core::mem::swap(&mut stack, &mut self.erasure_stack);
        let b = self.begin;
        let e = self.end;
        let n = self.len;
        let mut active: usize = 0;
        let mut k: usize = 0;
        let ghost wc = |g: Group<T>| g.cap();
        proof {
            crate::contents::lemma_sum_nonneg(o.reserved@, wc);
        }
        while k < moved.len()
            invariant
                moved@ == o.groups@,
                k <= moved@.len(),
                active == crate::contents::sum_caps(moved@.subrange(0, k as int)),
                crate::contents::sum_caps(o.groups@) + crate::contents::sum_caps(o.reserved@) == o.capacity,
                crate::contents::sum_caps(o.reserved@) >= 0,
                o.capacity <= usize::MAX,
            decreases moved@.len() - k,
        {
            proof {
                let a = moved@.subrange(0, k + 1);
                assert(a.drop_last() =~= moved@.subrange(0, k as int));
                assert(moved@ =~= a + moved@.subrange(k + 1, moved@.len() as int));
                crate::contents::lemma_sum_concat(a, moved@.subrange(k + 1, moved@.len() as int), |g: Group<T>| g.cap());
                crate::contents::lemma_sum_nonneg(moved@.subrange(k + 1, moved@.len() as int), |g: Group<T>| g.cap());
            }
            active = active + moved[k].capacity as usize;
            k = k + 1;
        }
        proof {
            assert(moved@.subrange(0, moved@.len() as int) =~= moved@);
        }
        self.begin = Cursor::null();
        self.end = Cursor::null();
        self.len = 0;
        self.capacity = self.capacity - active;
        proof {
            assert(self.groups@ =~= Seq::<Group<T>>::empty());
            assert(self.groups@ + self.reserved@ =~= self.reserved@);
            let all_o = o.groups@ + o.reserved@;
            assert forall|i: int| 0 <= i < self.reserved@.len() implies #[trigger] self.reserved@[i] == all_o[i + o.glen()] by {
            }
            assert forall|i: int, j: int|
                0 <= i < self.reserved@.len() && 0 <= j < self.reserved@.len() && i != j implies (#[trigger] (self.groups@
                + self.reserved@)[i]).id != (#[trigger] (self.groups@ + self.reserved@)[j]).id by {
                assert(all_o[i + o.glen()].id != all_o[j + o.glen()].id);
            }
            assert forall|i: int|
                0 <= i < self.reserved@.len() && (#[trigger] (self.groups@ + self.reserved@)[i]).id.tag == self.tag implies (
                self.groups@ + self.reserved@)[i].id.serial < self.next_serial by {
                assert(all_o[i + o.glen()] == self.reserved@[i]);
            }
            assert(self.erasure_stack@ =~= Seq::<GroupId>::empty());
            assert(self.wf());
            assert(self@ =~= Seq::<(Handle, T)>::empty());
        }
        (moved, stack, b, e, n, active)
    }

    /// Facts about installing blocks `moved` of source `s` in an empty
    /// hive `o`, whose blocks are dropped.
    #[verifier::spinoff_prover]
    #[verifier::rlimit(60)]
    proof fn lemma_install(o: Self, s: Self, n: Self, moved: Seq<Group<T>>, stack: Seq<GroupId>, serial: u64)
        requires
            o.wf(),
            o.len == 0,
            s.wf(),
            s.len > 0,
            Self::moved_ok(o, s, moved, stack, serial),
            n.groups@ == moved,
            n.erasure_stack@ == stack,
            n.reserved == o.reserved,
            n.begin == s.begin,
            n.end == s.end,
            n.len == s.len,
            n.capacity == crate::contents::sum_caps(o.reserved@) + crate::contents::sum_caps(s.groups@),
            n.tag == o.tag,
            n.next_serial == serial,
            n.min_block_capacity == o.min_block_capacity,
            n.max_block_capacity == o.max_block_capacity,
        ensures
            n.wf(),
            n.elems() == o.elems() + s.elems(),
            moved == s.groups@ ==> n@ == o@ + s@,
    {
        let wa = |g: Group<T>| g.active_count as int;
        let wc = |g: Group<T>| g.cap();
        o.lemma_view_len();
        assert(o@ =~= Seq::<(Handle, T)>::empty());
        assert(n.glen() == s.glen());
        assert forall|k: int| 0 <= k < n.glen() implies #[trigger] n.e_of(k) == s.e_of(k) by {
        }
        assert forall|k: int| 0 <= k < n.glen() implies (#[trigger] n.groups@[k]).wf(n.e_of(k)) by {
            assert(moved[k].same_but_id(&s.groups@[k]));
            assert(s.groups@[k].wf(s.e_of(k)));
            moved[k].lemma_same_but_id_wf(&s.groups@[k], s.e_of(k));
        }
        assert forall|k: int| 0 <= k < n.glen() implies (#[trigger] n.groups@[k]).active_count >= 1 by {
            assert(moved[k].same_but_id(&s.groups@[k]));
        }
        assert(n.groups@[0].same_but_id(&s.groups@[0]));
        assert(n.groups@[n.glen() - 1].same_but_id(&s.groups@[s.glen() - 1]));
        assert(n.cursors_ok());
        // ids
        let all_o = o.groups@ + o.reserved@;
        let all_n = n.groups@ + n.reserved@;
        let ml = moved.len() as int;
        assert forall|i: int| ml <= i < all_n.len() implies #[trigger] all_n[i] == all_o[i - ml + o.glen()] by {
        }
        assert forall|i: int, j: int|
            0 <= i < all_n.len() && 0 <= j < all_n.len() && i != j implies (#[trigger] all_n[i]).id != (
            #[trigger] all_n[j]).id by {
            if i < ml && j < ml {
            } else if i < ml {
                assert(all_n[j] == all_o[j - ml + o.glen()]);
                assert(moved[i].id != all_o[j - ml + o.glen()].id);
            } else if j < ml {
                assert(all_n[i] == all_o[i - ml + o.glen()]);
                assert(moved[j].id != all_o[i - ml + o.glen()].id);
            } else {
                assert(all_o[i - ml + o.glen()].id != all_o[j - ml + o.glen()].id);
            }
        }
        assert forall|i: int|
            0 <= i < all_n.len() && (#[trigger] all_n[i]).id.tag == n.tag implies all_n[i].id.serial < n.next_serial by {
            if i >= ml {
                assert(all_n[i] == all_o[i - ml + o.glen()]);
            }
        }
        // stack
        assert forall|j: int| 0 <= j < n.erasure_stack@.len() implies n.has_group(#[trigger] n.erasure_stack@[j]) by {
            assert(id_among(moved, stack[j]));
            let k = choose|k: int| 0 <= k < moved.len() && (#[trigger] moved[k]).id == stack[j];
            assert(n.groups@[k].id == stack[j]);
        }
        assert forall|k: int| 0 <= k < n.glen() implies (n.erasure_stack@.contains(#[trigger] n.groups@[k].id)
            <==> n.groups@[k].free_order@.len() > 0) by {
            assert(stack.contains(moved[k].id) <==> moved[k].free_order@.len() > 0);
        }
        // sums
        assert forall|j: int| 0 <= j < moved.len() implies wa(#[trigger] moved[j]) == wa(s.groups@[j]) && wc(moved[j])
            == wc(s.groups@[j]) by {
            assert(moved[j].same_but_id(&s.groups@[j]));
        }
        crate::contents::lemma_sum_eq(moved, s.groups@, wa);
        crate::contents::lemma_sum_eq(moved, s.groups@, wc);
        assert(n.wf());
        // contents
        assert forall|k: int| 0 <= k < moved.len() implies (#[trigger] moved[k]).slots@ == s.groups@[k].slots@
            && moved[k].capacity == s.groups@[k].capacity by {
            assert(moved[k].same_but_id(&s.groups@[k]));
        }
        crate::contents::lemma_entries_values_same(moved, s.groups@, ml);
        assert(n.elems() =~= o.elems() + s.elems());
        if moved == s.groups@ {
            assert(n@ =~= o@ + s@);
        }
    }
}


impl<T, A: Allocator> Hive<T, A> {
    /// `n` is `o` with the blocks `moved` of source `s` appended, after
    /// the last block of `o` became `tail`, which has no never-constructed
    /// slot left; the free-list stack of `n` is `stack` over `ostack`.
    spec fn merged(
        o: Self,
        s: Self,
        n: Self,
        moved: Seq<Group<T>>,
        stack: Seq<GroupId>,
        serial: u64,
        tail: Group<T>,
        ostack: Seq<GroupId>,
    ) -> bool {
        &&& o.wf()
        &&& o.len > 0
        &&& s.wf()
        &&& s.len > 0
        &&& Self::moved_ok(o, s, moved, stack, serial)
        &&& tail.wf(tail.cap())
        &&& tail.id == o.groups@[o.glen() - 1].id
        &&& tail.capacity == o.groups@[o.glen() - 1].capacity
        &&& tail.slots@ == o.groups@[o.glen() - 1].slots@
        &&& tail.active_count == o.groups@[o.glen() - 1].active_count
        &&& tail.free_order@.len() > 0 || tail == o.groups@[o.glen() - 1]
        &&& ostack.no_duplicates()
        &&& forall|x: GroupId| #[trigger] ostack.contains(x) <==> (o.erasure_stack@.contains(x) || (x == tail.id
        && tail.free_order@.len() > 0))
        &&& n.groups@ == o.groups@.update(o.glen() - 1, tail) + moved
        &&& n.erasure_stack@ == stack + ostack
        &&& n.reserved == o.reserved
        &&& n.begin == o.begin
        &&& n.end == (Cursor { group: Some((n.glen() - 1) as usize), index: s.end.index })
        &&& n.len == o.len + s.len
        &&& n.capacity == o.capacity + crate::contents::sum_caps(s.groups@)
        &&& n.tag == o.tag
        &&& n.next_serial == serial
        &&& n.min_block_capacity == o.min_block_capacity
        &&& n.max_block_capacity == o.max_block_capacity
    }

    /// The merged blocks and cursors are consistent.
    #[verifier::spinoff_prover]
    #[verifier::rlimit(40)]
    proof fn lemma_merge_blocks(
        o: Self,
        s: Self,
        n: Self,
        moved: Seq<Group<T>>,
        stack: Seq<GroupId>,
        serial: u64,
        tail: Group<T>,
        ostack: Seq<GroupId>,
    )
        requires
            Self::merged(o, s, n, moved, stack, serial, tail, ostack),
        ensures
            n.groups_ok(),
            n.cursors_ok(),
    {
        let wa = |g: Group<T>| g.active_count as int;
        let wc = |g: Group<T>| g.cap();
        let gl = o.glen();
        let t = gl - 1;
        let ml = moved.len() as int;
        let og = o.groups@.update(t, tail);
        assert(n.glen() == gl + ml);
        assert(o.groups@[t].wf(o.e_of(t)));
        o.groups@[t].lemma_wf_unfold(o.e_of(t));
        tail.lemma_wf_unfold(tail.cap());
        // blocks
        assert forall|k: int| 0 <= k < n.glen() implies (#[trigger] n.groups@[k]).wf(n.e_of(k)) by {
            if k < t {
                assert(n.groups@[k] == o.groups@[k]);
                assert(o.groups@[k].wf(o.e_of(k)));
            } else if k == t {
                assert(n.groups@[k] == tail);
            } else {
                let j = k - gl;
                assert(n.groups@[k] == moved[j]);
                assert(moved[j].same_but_id(&s.groups@[j]));
                assert(s.groups@[j].wf(s.e_of(j)));
                assert(n.e_of(k) == s.e_of(j));
                moved[j].lemma_same_but_id_wf(&s.groups@[j], s.e_of(j));
            }
        }
        assert forall|k: int| 0 <= k < n.glen() implies (#[trigger] n.groups@[k]).active_count >= 1 by {
            if k < t {
                assert(n.groups@[k] == o.groups@[k]);
            } else if k == t {
                assert(n.groups@[k] == tail);
            } else {
                assert(n.groups@[k] == moved[k - gl]);
                assert(moved[k - gl].same_but_id(&s.groups@[k - gl]));
            }
        }
        assert(n.groups_ok());
        // cursors
        assert(n.groups@[n.glen() - 1] == moved[ml - 1]);
        assert(moved[ml - 1].same_but_id(&s.groups@[ml - 1]));
        if t == 0 {
            assert(n.groups@[0] == tail);
        } else {
            assert(n.groups@[0] == o.groups@[0]);
        }
        assert(n.cursors_ok());
    }

    /// The merged block ids are distinct and below the next serial number.
    #[verifier::spinoff_prover]
    #[verifier::rlimit(40)]
    proof fn lemma_merge_ids(
        o: Self,
        s: Self,
        n: Self,
        moved: Seq<Group<T>>,
        stack: Seq<GroupId>,
        serial: u64,
        tail: Group<T>,
        ostack: Seq<GroupId>,
    )
        requires
            Self::merged(o, s, n, moved, stack, serial, tail, ostack),
        ensures
            n.ids_ok(),
    {
        let wa = |g: Group<T>| g.active_count as int;
        let wc = |g: Group<T>| g.cap();
        let gl = o.glen();
        let t = gl - 1;
        let ml = moved.len() as int;
        let og = o.groups@.update(t, tail);
        assert(n.glen() == gl + ml);
        assert(o.groups@[t].wf(o.e_of(t)));
        o.groups@[t].lemma_wf_unfold(o.e_of(t));
        tail.lemma_wf_unfold(tail.cap());
        // ids
        o.lemma_ids_distinct();
        let all_o = o.groups@ + o.reserved@;
        let all_n = n.groups@ + n.reserved@;
        let rl = o.reserved@.len() as int;
        assert forall|i: int| 0 <= i < all_n.len() implies (#[trigger] all_n[i]).id == (if i < gl {
            all_o[i].id
        } else if i < gl + ml {
            moved[i - gl].id
        } else {
            all_o[i - ml].id
        }) by {
            if i < gl {
                if i == t {
                    assert(all_n[i] == tail);
                } else {
                    assert(all_n[i] == o.groups@[i]);
                }
            } else if i < gl + ml {
                assert(all_n[i] == moved[i - gl]);
            } else {
                assert(all_n[i] == o.reserved@[i - gl - ml]);
                assert(all_o[i - ml] == o.reserved@[i - gl - ml]);
            }
        }
        assert forall|i: int, j: int|
            0 <= i < all_n.len() && 0 <= j < all_n.len() && i != j implies (#[trigger] all_n[i]).id != (
            #[trigger] all_n[j]).id by {
            let ii = if i < gl {
                i
            } else {
                i - ml
            };
            let jj = if j < gl {
                j
            } else {
                j - ml
            };
            let i_moved = gl <= i < gl + ml;
            let j_moved = gl <= j < gl + ml;
            if i_moved && j_moved {
            } else if i_moved {
                assert(moved[i - gl].id != all_o[jj].id);
            } else if j_moved {
                assert(moved[j - gl].id != all_o[ii].id);
            } else {
                assert(all_o[ii].id != all_o[jj].id);
            }
        }
        assert forall|i: int|
            0 <= i < all_n.len() && (#[trigger] all_n[i]).id.tag == n.tag implies all_n[i].id.serial < n.next_serial by {
            if i < gl {
            } else if i < gl + ml {
            } else {
                assert(all_o[i - ml].id.tag == o.tag ==> all_o[i - ml].id.serial < o.next_serial);
            }
        }
    }

    /// The merged free-list stack is consistent.
    #[verifier::spinoff_prover]
    #[verifier::rlimit(60)]
    proof fn lemma_merge_stack(
        o: Self,
        s: Self,
        n: Self,
        moved: Seq<Group<T>>,
        stack: Seq<GroupId>,
        serial: u64,
        tail: Group<T>,
        ostack: Seq<GroupId>,
    )
        requires
            Self::merged(o, s, n, moved, stack, serial, tail, ostack),
        ensures
            n.stack_ok(),
    {
        let wa = |g: Group<T>| g.active_count as int;
        let wc = |g: Group<T>| g.cap();
        let gl = o.glen();
        let t = gl - 1;
        let ml = moved.len() as int;
        let og = o.groups@.update(t, tail);
        assert(n.glen() == gl + ml);
        assert(o.groups@[t].wf(o.e_of(t)));
        o.groups@[t].lemma_wf_unfold(o.e_of(t));
        tail.lemma_wf_unfold(tail.cap());
        o.lemma_ids_distinct();
        let all_o = o.groups@ + o.reserved@;
        let all_n = n.groups@ + n.reserved@;
        assert forall|i: int| 0 <= i < all_n.len() implies (#[trigger] all_n[i]).id == (if i < gl {
            all_o[i].id
        } else if i < gl + ml {
            moved[i - gl].id
        } else {
            all_o[i - ml].id
        }) by {
            if i < gl {
                if i == t {
                    assert(all_n[i] == tail);
                } else {
                    assert(all_n[i] == o.groups@[i]);
                }
            } else if i < gl + ml {
                assert(all_n[i] == moved[i - gl]);
            } else {
                assert(all_n[i] == o.reserved@[i - gl - ml]);
                assert(all_o[i - ml] == o.reserved@[i - gl - ml]);
            }
        }
        // stack
        let ns = n.erasure_stack@;
        assert forall|x: GroupId| #[trigger] ns.contains(x) <==> (stack.contains(x) || ostack.contains(x)) by {
            if ns.contains(x) {
                let j = ns.index_of(x);
                if j < stack.len() {
                    assert(stack[j] == x);
                } else {
                    assert(ostack[j - stack.len()] == x);
                }
            }
            if stack.contains(x) {
                let j = stack.index_of(x);
                assert(ns[j] == x);
            }
            if ostack.contains(x) {
                let j = ostack.index_of(x);
                assert(ns[j + stack.len()] == x);
            }
        }
        assert forall|x: GroupId| stack.contains(x) implies !ostack.contains(x) by {
            let j = stack.index_of(x);
            assert(id_among(moved, stack[j]));
            let k = choose|k: int| 0 <= k < moved.len() && (#[trigger] moved[k]).id == stack[j];
            if ostack.contains(x) {
                if o.erasure_stack@.contains(x) {
                    assert(o.has_group(x));
                    let m = choose|m: int| 0 <= m < o.glen() && #[trigger] o.groups@[m].id == x;
                    assert(all_o[m].id == x);
                } else {
                    assert(all_o[t].id == x);
                }
            }
        }
        assert(ns.no_duplicates()) by {
            assert forall|a: int, b: int| 0 <= a < ns.len() && 0 <= b < ns.len() && a != b implies ns[a] != ns[b] by {
                let sl = stack.len() as int;
                if a < sl && b < sl {
                    assert(ns[a] == stack[a] && ns[b] == stack[b]);
                } else if a >= sl && b >= sl {
                    assert(ns[a] == ostack[a - sl] && ns[b] == ostack[b - sl]);
                } else if a < sl {
                    assert(ns[a] == stack[a]);
                    assert(stack.contains(ns[a]));
                    assert(ns[b] == ostack[b - sl]);
                    assert(ostack.contains(ns[b]));
                } else {
                    assert(ns[b] == stack[b]);
                    assert(stack.contains(ns[b]));
                    assert(ns[a] == ostack[a - sl]);
                    assert(ostack.contains(ns[a]));
                }
            }
        }
        assert forall|j: int| 0 <= j < ns.len() implies n.has_group(#[trigger] ns[j]) by {
            let x = ns[j];
            assert(ns.contains(x));
            if stack.contains(x) {
                let i = stack.index_of(x);
                assert(id_among(moved, stack[i]));
                let k = choose|k: int| 0 <= k < moved.len() && (#[trigger] moved[k]).id == stack[i];
                assert(n.groups@[gl + k] == moved[k]);
            } else {
                assert(ostack.contains(x));
                if o.erasure_stack@.contains(x) {
                    let i = o.erasure_stack@.index_of(x);
                    assert(o.has_group(o.erasure_stack@[i]));
                    let m = choose|m: int| 0 <= m < o.glen() && #[trigger] o.groups@[m].id == o.erasure_stack@[i];
                    if m == t {
                        assert(n.groups@[t] == tail);
                    } else {
                        assert(n.groups@[m] == o.groups@[m]);
                    }
                } else {
                    assert(n.groups@[t] == tail);
                }
            }
        }
        assert forall|k: int| 0 <= k < n.glen() implies (ns.contains(#[trigger] n.groups@[k].id)
            <==> n.groups@[k].free_order@.len() > 0) by {
            if k < gl {
                let g = n.groups@[k];
                assert(all_n[k].id == all_o[k].id);
                assert forall|j: int| 0 <= j < moved.len() implies moved[j].id != g.id by {
                    assert(moved[j].id != all_o[k].id);
                }
                if stack.contains(g.id) {
                    let i = stack.index_of(g.id);
                    assert(id_among(moved, stack[i]));
                    let j = choose|j: int| 0 <= j < moved.len() && (#[trigger] moved[j]).id == stack[i];
                }
                assert(!stack.contains(g.id));
                assert(ns.contains(g.id) == ostack.contains(g.id));
                if k == t {
                    assert(g == tail);
                    if tail.free_order@.len() == 0 {
                        assert(tail == o.groups@[t]);
                        assert(o.erasure_stack@.contains(o.groups@[t].id) == (o.groups@[t].free_order@.len() > 0));
                    }
                } else {
                    assert(g == o.groups@[k]);
                    assert(g.id != tail.id) by {
                        assert(all_o[k].id != all_o[t].id);
                    }
                    assert(o.erasure_stack@.contains(o.groups@[k].id) == (o.groups@[k].free_order@.len() > 0));
                    assert(ostack.contains(g.id) == o.erasure_stack@.contains(g.id));
                }
            } else {
                let j = k - gl;
                let x = moved[j].id;
                assert(n.groups@[k] == moved[j]);
                assert(stack.contains(x) <==> moved[j].free_order@.len() > 0);
                if ostack.contains(x) {
                    if o.erasure_stack@.contains(x) {
                        let i = o.erasure_stack@.index_of(x);
                        assert(o.has_group(o.erasure_stack@[i]));
                        let m = choose|m: int| 0 <= m < o.glen() && #[trigger] o.groups@[m].id == o.erasure_stack@[i];
                        assert(all_o[m].id == x);
                        assert(moved[j].id != all_o[m].id);
                    } else {
                        assert(all_o[t].id == x);
                        assert(moved[j].id != all_o[t].id);
                    }
                }
                assert(ns.contains(x) == stack.contains(x));
            }
        }
    }

    /// Facts about appending blocks `moved` of source `s` after the blocks
    /// of `o`, whose last block `tail` has no never-constructed slot left.
    #[verifier::spinoff_prover]
    #[verifier::rlimit(40)]
    proof fn lemma_merge(
        o: Self,
        s: Self,
        n: Self,
        moved: Seq<Group<T>>,
        stack: Seq<GroupId>,
        serial: u64,
        tail: Group<T>,
        ostack: Seq<GroupId>,
    )
        requires
            Self::merged(o, s, n, moved, stack, serial, tail, ostack),
        ensures
            n.wf(),
            n.elems() == o.elems() + s.elems(),
            moved == s.groups@ ==> n@ == o@ + s@,
    {
        let wa = |g: Group<T>| g.active_count as int;
        let wc = |g: Group<T>| g.cap();
        let gl = o.glen();
        let t = gl - 1;
        let ml = moved.len() as int;
        let og = o.groups@.update(t, tail);
        assert(n.glen() == gl + ml);
        assert(o.groups@[t].wf(o.e_of(t)));
        o.groups@[t].lemma_wf_unfold(o.e_of(t));
        tail.lemma_wf_unfold(tail.cap());
        Self::lemma_merge_blocks(o, s, n, moved, stack, serial, tail, ostack);
        Self::lemma_merge_ids(o, s, n, moved, stack, serial, tail, ostack);
        Self::lemma_merge_stack(o, s, n, moved, stack, serial, tail, ostack);
        // sums
        assert forall|j: int| 0 <= j < moved.len() implies wa(#[trigger] moved[j]) == wa(s.groups@[j]) && wc(moved[j])
            == wc(s.groups@[j]) by {
            assert(moved[j].same_but_id(&s.groups@[j]));
        }
        crate::contents::lemma_sum_eq(moved, s.groups@, wa);
        crate::contents::lemma_sum_eq(moved, s.groups@, wc);
        crate::contents::lemma_sum_update(o.groups@, t, tail, wa);
        crate::contents::lemma_sum_update(o.groups@, t, tail, wc);
        crate::contents::lemma_sum_concat(og, moved, wa);
        crate::contents::lemma_sum_concat(og, moved, wc);
        assert(n.wf());
        // contents
        crate::contents::lemma_groups_entries_concat(og, moved);
        crate::contents::lemma_groups_entries_update(o.groups@, t, tail);
        crate::contents::lemma_slot_entries_frame(o.groups@[t], tail, 0, tail.cap());
        assert(groups_entries(og, 0, gl) == o@);
        assert forall|k: int| 0 <= k < moved.len() implies (#[trigger] moved[k]).slots@ == s.groups@[k].slots@
            && moved[k].capacity == s.groups@[k].capacity by {
            assert(moved[k].same_but_id(&s.groups@[k]));
        }
        crate::contents::lemma_entries_values_same(moved, s.groups@, ml);
        assert(n@ == o@ + groups_entries(moved, 0, ml));
        assert(n.elems() =~= o.elems() + s.elems());
        if moved == s.groups@ {
            assert(n@ =~= o@ + s@);
        }
    }

    /// Moves every element of `source` to the end of this hive by taking
    /// over its blocks, or fails, changing nothing, if one of those blocks
    /// is outside this hive's block capacity limits. Elements keep their
    /// handles unless a block id of `source` clashes with one of this
    /// hive's (see [`Hive::ids_clash`]); then the moved blocks get fresh
    /// ids. The last block of this
    /// hive first marks its never-constructed slots as erased, so that
    /// later insertions reuse them. An empty hive drops its one empty block
    /// instead. `source` keeps its reserved blocks.
    pub fn splice(&mut self, source: &mut Self) -> (r: Result<(), IncompatibleSplice>)
        requires
            old(self).wf(),
            old(source).wf(),
            old(self).total_capacity() + old(source).total_capacity() <= usize::MAX,
            old(self).blocks_made() + old(source)@.len() <= u64::MAX,
        ensures
            r is Err <==> old(source)@.len() > 0 && !old(source).blocks_fit(old(self).limits()),
            r is Err || old(source)@.len() == 0 ==> *final(self) == *old(self) && *final(source) == *old(source),
            final(self).wf(),
            final(source).wf(),
            r is Ok ==> final(self).elems() == old(self).elems() + old(source).elems()
                && final(source)@ == Seq::<(Handle, T)>::empty() && final(self).limits() == old(self).limits()
                && final(source).limits() == old(source).limits() && final(self).allocator_value()
                == old(self).allocator_value() && final(source).allocator_value() == old(source).allocator_value(),
            r is Ok && old(source)@.len() > 0 ==> final(source).total_capacity() == old(source).reserved_capacity(),
            r is Ok && !old(self).blocks_clash(&*old(source)) ==> final(self)@ == old(self)@ + old(source)@,
            r is Ok && old(source)@.len() > 0 ==> final(self).total_capacity() == (if old(self)@.len() == 0 {
                old(self).reserved_capacity()
            } else {
                old(self).total_capacity()
            }) + old(source).total_capacity() - old(source).reserved_capacity(),
            old(self).sizes_fit() ==> final(self).sizes_fit(),
            old(source).sizes_fit() ==> final(source).sizes_fit(),
            final(self).blocks_made() <= old(self).blocks_made() + old(source)@.len(),
            final(source).blocks_made() == old(source).blocks_made(),
    {
        proof {
            source.lemma_view_len();
            self.lemma_view_len();
        }
        if source.len == 0 {
            return Ok(());
        }
        let limits = self.block_capacity_limits();
        if !source.groups_fit_limits(limits) {
            return Err(IncompatibleSplice);
        }
        let ghost o = *self;
        let ghost s = *source;
        let clash = self.clashes(&source.groups);
        let (moved, stack, src_begin, src_end, src_len, active) = source.detach();
        proof {
            if clash {
                let k = choose|k: int| 0 <= k < s.groups@.len() && o.id_taken(#[trigger] s.groups@[k].id);
                assert(o.blocks_clash(&s));
            } else {
                assert(!o.blocks_clash(&s));
                Self::lemma_moved_ok_as_is(o, s);
            }
            s.lemma_reserved_capacity();
            s.lemma_len_le_capacity();
            o.lemma_len_le_capacity();
            crate::contents::lemma_sum_nonneg(s.groups@, |g: Group<T>| g.cap());
            assert(s.glen() <= s.capacity) by {
                assert forall|k: int| 0 <= k < s.glen() implies (|g: Group<T>| 1int)(#[trigger] s.groups@[k]) <= (|g: Group<T>| g.cap())(s.groups@[k]) by {
                    assert(s.groups@[k].wf(s.e_of(k)));
                    s.groups@[k].lemma_wf_unfold(s.e_of(k));
                }
                crate::contents::lemma_sum_le(s.groups@, |g: Group<T>| 1int, |g: Group<T>| g.cap());
                lemma_sum_ones(s.groups@);
            }
            assert(s.glen() <= s.len) by {
                assert forall|k: int| 0 <= k < s.glen() implies (|g: Group<T>| 1int)(#[trigger] s.groups@[k]) <= (|g: Group<T>| g.active_count as int)(s.groups@[k]) by {
                }
                crate::contents::lemma_sum_le(s.groups@, |g: Group<T>| 1int, |g: Group<T>| g.active_count as int);
                lemma_sum_ones(s.groups@);
            }
            if s.sizes_fit() {
                assert(source.sizes_fit());
            }
        }
        let (moved, stack) = if clash {
            self.renumber(moved, Ghost(s))
        } else {
            (moved, stack)
        };
        let ghost serial = self.next_serial;
        let ghost o2 = *self;
        let mut moved = moved;
        let mut stack = stack;
        if self.len == 0 {
            proof {
                o2.lemma_view_len();
            }
            if self.groups.len() > 0 {
                proof {
                    assert(o2.glen() == 1);
                    crate::contents::lemma_sum_push(Seq::<Group<T>>::empty(), o2.groups@[0], |g: Group<T>| g.cap());
                    assert(o2.groups@ =~= Seq::<Group<T>>::empty().push(o2.groups@[0]));
                    crate::contents::lemma_sum_nonneg(o2.reserved@, |g: Group<T>| g.cap());
                    assert(self.capacity >= self.groups@[0].capacity);
                }
                let g = self.groups.pop().unwrap();
                self.capacity = self.capacity - g.capacity as usize;
            } else {
                proof {
                    assert(o2.groups@ =~= Seq::<Group<T>>::empty());
                }
            }
            self.groups = moved;
            self.erasure_stack = stack;
            self.begin = src_begin;
            self.end = src_end;
            self.len = src_len;
            self.capacity = self.capacity + active;
            proof {
                if o.sizes_fit() {
                    Self::lemma_spliced_sizes(o2, s, *self, self.groups@, serial, self.erasure_stack@);
                }
                Self::lemma_install(o2, s, *self, self.groups@, self.erasure_stack@, serial);
                o.lemma_reserved_capacity();
                o.lemma_view_len();
                if o.glen() == 0 {
                    assert(o.groups@ =~= Seq::<Group<T>>::empty());
                }
            }
        } else {
            let t = self.groups.len() - 1;
            proof {
                assert(self.groups@[t as int].wf(self.e_of(t as int)));
                self.groups@[t as int].lemma_wf_unfold(self.e_of(t as int));
            }
            let ghost ostack0 = self.erasure_stack@;
            if self.end.index < self.groups[t].capacity {
                let e = self.end.index;
                let was_empty = self.groups[t].mark_tail(e);
                if was_empty {
                    let id = self.groups[t].id;
                    proof {
                        assert(!ostack0.contains(id));
                    }
                    self.erasure_stack.push(id);
                }
            }
            let ghost tail = self.groups@[t as int];
            let ghost ostack = self.erasure_stack@;
            proof {
                assert forall|x: GroupId| #[trigger] ostack.contains(x) <==> (o.erasure_stack@.contains(x) || (x == tail.id
                    && tail.free_order@.len() > 0)) by {
                    if ostack.contains(x) && ostack.len() > ostack0.len() {
                        let j = ostack.index_of(x);
                        if j < ostack0.len() {
                            assert(ostack0[j] == x);
                        }
                    }
                    if ostack0.contains(x) && ostack.len() > ostack0.len() {
                        let j = ostack0.index_of(x);
                        assert(ostack[j] == x);
                    }
                    if x == tail.id && tail.free_order@.len() > 0 && !ostack0.contains(x) {
                        assert(ostack[ostack.len() - 1] == x);
                    }
                    if x == tail.id && tail.free_order@.len() > 0 && ostack.len() == ostack0.len() {
                        assert(o.groups@[t as int].free_order@.len() > 0 || o.end.index < o.groups@[t as int].capacity);
                    }
                }
                if ostack.len() > ostack0.len() {
                    assert(ostack =~= ostack0.push(tail.id));
                    assert forall|a: int, b: int| 0 <= a < ostack.len() && 0 <= b < ostack.len() && a != b implies ostack[a]
                        != ostack[b] by {
                        if a < ostack0.len() && b < ostack0.len() {
                        } else if a < ostack0.len() {
                            assert(ostack0.contains(ostack[a]));
                        } else if b < ostack0.len() {
                            assert(ostack0.contains(ostack[b]));
                        }
                    }
                }
            }
            let ghost mv = moved@;
            let ghost st = stack@;
            let ghost og = self.groups@;
            proof {
                assert(og == o2.groups@.update(t as int, tail));
            }
            self.groups.append(&mut moved);
            stack.append(&mut self.erasure_stack);
            self.erasure_stack = stack;
            let last = self.groups.len() - 1;
            self.end = Cursor { group: Some(last), index: src_end.index };
            self.len = self.len + src_len;
            self.capacity = self.capacity + active;
            proof {
                assert(self.groups@ == og + mv);
                assert(self.erasure_stack@ == st + ostack);
                assert(Self::merged(o2, s, *self, mv, st, serial, tail, ostack));
                if o.sizes_fit() {
                    Self::lemma_spliced_sizes(o2, s, *self, mv, serial, st);
                }
                Self::lemma_merge(o2, s, *self, mv, st, serial, tail, ostack);
            }
        }
        Ok(())
    }
}

impl<T, A: Allocator> Hive<T, A> {
    /// `n` is `o` with other values in the occupied slots, and nothing else
    /// changed.
    spec fn revalued(o: Self, n: Self) -> bool {
        &&& n.groups@.len() == o.groups@.len()
        &&& forall|k: int| 0 <= k < o.glen() ==> (#[trigger] n.groups@[k]).same_pattern(&o.groups@[k])
        &&& n.reserved == o.reserved
        &&& n.erasure_stack == o.erasure_stack
        &&& n.begin == o.begin
        &&& n.end == o.end
        &&& n.len == o.len
        &&& n.capacity == o.capacity
        &&& n.min_block_capacity == o.min_block_capacity
        &&& n.max_block_capacity == o.max_block_capacity
        &&& n.tag == o.tag
        &&& n.next_serial == o.next_serial
        &&& n.allocator == o.allocator
    }

    /// Other values in the occupied slots keep the hive consistent and its
    /// shape unchanged.
    #[verifier::spinoff_prover]
    proof fn lemma_revalued(o: Self, n: Self)
        requires
            o.wf(),
            Self::revalued(o, n),
        ensures
            n.wf(),
            Self::same_shape(o, n),
            n.total_capacity() == o.total_capacity(),
            n.limits() == o.limits(),
            n.allocator_value() == o.allocator_value(),
            n.blocks_made() == o.blocks_made(),
            n@.len() == o@.len(),
            n.sizes_fit() == o.sizes_fit(),
            n.holes() == o.holes(),
            n.reserved_capacity() == o.reserved_capacity(),
    {
        let wa = |g: Group<T>| g.active_count as int;
        let wc = |g: Group<T>| g.cap();
        assert forall|k: int| 0 <= k < n.glen() implies #[trigger] n.e_of(k) == o.e_of(k) by {
            assert(n.groups@[k].same_pattern(&o.groups@[k]));
        }
        assert forall|k: int| 0 <= k < n.glen() implies (#[trigger] n.groups@[k]).id == o.groups@[k].id
            && n.groups@[k].capacity == o.groups@[k].capacity by {
            assert(n.groups@[k].same_pattern(&o.groups@[k]));
        }
        assert forall|k: int, i: int| 0 <= k < n.glen() && 0 <= i < o.e_of(k) implies n.groups@[k].live(i)
            == #[trigger] o.groups@[k].live(i) by {
            assert(n.groups@[k].same_pattern(&o.groups@[k]));
            assert(o.groups@[k].wf(o.e_of(k)));
            o.groups@[k].lemma_wf_unfold(o.e_of(k));
        }
        Self::lemma_same_holes(o, n);
        Self::lemma_sizes_same(o, n);
        assert forall|k: int| 0 <= k < n.glen() implies (#[trigger] n.groups@[k]).wf(n.e_of(k)) by {
            assert(o.groups@[k].wf(o.e_of(k)));
            n.groups@[k].lemma_same_pattern_wf(&o.groups@[k], o.e_of(k));
        }
        assert forall|k: int| 0 <= k < n.glen() implies (#[trigger] n.groups@[k]).active_count
            == o.groups@[k].active_count && wa(n.groups@[k]) == wa(o.groups@[k]) && wc(n.groups@[k]) == wc(
            o.groups@[k],
        ) by {
            assert(n.groups@[k].same_pattern(&o.groups@[k]));
        }
        assert(n.groups_ok());
        if n.glen() > 0 && o.len > 0 {
            let g = n.groups@[0];
            let og = o.groups@[0];
            assert(g.same_pattern(&og));
            let b = o.begin.index as int;
            assert(og.wf(o.e_of(0)));
            og.lemma_wf_unfold(o.e_of(0));
            assert(g.live(b) == og.live(b));
            assert forall|j: int| 0 <= j < b implies (#[trigger] g.slots@[j] is Some) == (og.slots@[j] is Some) by {
                assert(g.live(j) == og.live(j));
            }
            crate::group::lemma_count_live_same(g.slots@, og.slots@, b);
        }
        assert(n.cursors_ok());
        let all_o = o.groups@ + o.reserved@;
        let all_n = n.groups@ + n.reserved@;
        assert forall|i: int| 0 <= i < all_n.len() implies (#[trigger] all_n[i]).id == all_o[i].id by {
            if i < n.glen() {
                assert(n.groups@[i].same_pattern(&o.groups@[i]));
            }
        }
        assert(n.ids_ok()) by {
            assert forall|i: int, j: int| 0 <= i < all_n.len() && 0 <= j < all_n.len() && i != j implies (
            #[trigger] all_n[i]).id != (#[trigger] all_n[j]).id by {
                assert(all_o[i].id != all_o[j].id);
            }
            assert forall|i: int| 0 <= i < all_n.len() && (#[trigger] all_n[i]).id.tag == n.tag implies all_n[i].id.serial
                < n.next_serial by {
                assert(all_o[i].id.tag == o.tag ==> all_o[i].id.serial < o.next_serial);
            }
        }
        assert(n.stack_ok()) by {
            assert forall|j: int| 0 <= j < n.erasure_stack@.len() implies n.has_group(#[trigger] n.erasure_stack@[j]) by {
                assert(o.has_group(o.erasure_stack@[j]));
                let m = choose|m: int| 0 <= m < o.glen() && #[trigger] o.groups@[m].id == o.erasure_stack@[j];
                assert(n.groups@[m].same_pattern(&o.groups@[m]));
                assert(n.groups@[m].id == n.erasure_stack@[j]);
            }
            assert forall|k: int| 0 <= k < n.glen() implies (n.erasure_stack@.contains(#[trigger] n.groups@[k].id)
                <==> n.groups@[k].free_order@.len() > 0) by {
                assert(n.groups@[k].same_pattern(&o.groups@[k]));
                assert(o.erasure_stack@.contains(o.groups@[k].id) <==> o.groups@[k].free_order@.len() > 0);
            }
        }
        crate::contents::lemma_sum_eq(n.groups@, o.groups@, wa);
        crate::contents::lemma_sum_eq(n.groups@, o.groups@, wc);
        assert(n.wf());
        assert forall|k: int, i: int| 0 <= k < o.glen() && 0 <= i < o.groups@[k].slots@.len() implies
            #[trigger] n.groups@[k].live(i) == o.groups@[k].live(i) by {
            assert(n.groups@[k].same_pattern(&o.groups@[k]));
        }
        assert forall|k: int| 0 <= k < o.glen() implies (#[trigger] n.groups@[k]).capacity == o.groups@[k].capacity
            && n.groups@[k].slots@.len() == o.groups@[k].slots@.len() && n.groups@[k].active_count
            == o.groups@[k].active_count by {
            assert(n.groups@[k].same_pattern(&o.groups@[k]));
        }
        assert(Self::same_shape(o, n));
        n.lemma_view_len();
        o.lemma_view_len();
    }

    /// Exchanges the values at positions `p1 < p2`, which cursors `c1` and
    /// `c2` point at.
    fn swap_at(&mut self, c1: Cursor, c2: Cursor, Ghost(p1): Ghost<int>, Ghost(p2): Ghost<int>)
        requires
            old(self).wf(),
            old(self).at(c1, p1),
            old(self).at(c2, p2),
            p1 < p2,
        ensures
            final(self).wf(),
            Self::revalued(*old(self), *final(self)),
            Self::same_shape(*old(self), *final(self)),
            0 <= p1 < p2 < old(self)@.len(),
            final(self)@ == old(self)@.update(p1, (old(self)@[p1].0, old(self)@[p2].1)).update(
                p2,
                (old(self)@[p2].0, old(self)@[p1].1),
            ),
    {
        let ghost o = *self;
        proof {
            self.lemma_at(c1, p1);
            self.lemma_at(c2, p2);
            self.lemma_at_unique(c1, p1, c2, p2);
        }
        let k1 = c1.group.unwrap();
        let i1 = c1.index as usize;
        let k2 = c2.group.unwrap();
        let i2 = c2.index as usize;
        let ghost g1 = o.groups@[k1 as int];
        let ghost g2 = o.groups@[k2 as int];
        let ghost x1 = g1.slots@[i1 as int]->0;
        let ghost x2 = g2.slots@[i2 as int]->0;
        proof {
            assert(g1.wf(o.e_of(k1 as int)));
            g1.lemma_wf_unfold(o.e_of(k1 as int));
            assert(g2.wf(o.e_of(k2 as int)));
            g2.lemma_wf_unfold(o.e_of(k2 as int));
            if k1 == k2 && i2 < i1 {
                crate::group::lemma_count_live_mono(g1.slots@, i2 + 1, i1 as int);
                assert(false);
            }
        }
        let mut tmp: Option<T> = None;
        {
            let g = &mut self.groups[k1];
            core::mem::swap(&mut g.slots[i1], &mut tmp);
        }
        {
            let g = &mut self.groups[k2];
            core::mem::swap(&mut g.slots[i2], &mut tmp);
        }
        {
            let g = &mut self.groups[k1];
            core::mem::swap(&mut g.slots[i1], &mut tmp);
        }
        proof {
            let n = *self;
            if k1 == k2 {
                let g = n.groups@[k1 as int];
                assert(n.groups@ == o.groups@.update(k1 as int, g));
                assert(g.slots@ =~= g1.slots@.update(i1 as int, Some(x2)).update(i2 as int, Some(x1)));
                assert forall|k: int| 0 <= k < o.glen() implies (#[trigger] n.groups@[k]).same_pattern(&o.groups@[k]) by {
                    if k == k1 {
                        assert forall|j: int| 0 <= j < g.slots@.len() implies (#[trigger] g.live(j)) == g1.live(j) by {
                        }
                    }
                }
                crate::contents::lemma_set_two_slots(o.groups@, k1 as int, g, i1 as int, i2 as int, x2, x1);
            } else {
                let h1 = n.groups@[k1 as int];
                let h2 = n.groups@[k2 as int];
                let gs1 = o.groups@.update(k1 as int, h1);
                assert(n.groups@ == gs1.update(k2 as int, h2));
                assert(h1.slots@ =~= g1.slots@.update(i1 as int, Some(x2)));
                assert(h2.slots@ =~= g2.slots@.update(i2 as int, Some(x1)));
                assert forall|k: int| 0 <= k < o.glen() implies (#[trigger] n.groups@[k]).same_pattern(&o.groups@[k]) by {
                    if k == k1 {
                        assert forall|j: int| 0 <= j < h1.slots@.len() implies (#[trigger] h1.live(j)) == g1.live(j) by {
                        }
                    } else if k == k2 {
                        assert forall|j: int| 0 <= j < h2.slots@.len() implies (#[trigger] h2.live(j)) == g2.live(j) by {
                        }
                    }
                }
                crate::contents::lemma_set_slot(o.groups@, k1 as int, h1, i1 as int, x2);
                crate::contents::lemma_set_slot(gs1, k2 as int, h2, i2 as int, x1);
                let wa = |g: Group<T>| g.active_count as int;
                assert forall|k: int| 0 <= k < o.glen() implies (#[trigger] o.groups@[k]).active_count as int == count_live(
                    o.groups@[k].slots@,
                    o.groups@[k].cap(),
                ) by {
                    assert(o.groups@[k].wf(o.e_of(k)));
                    o.groups@[k].lemma_wf_unfold(o.e_of(k));
                }
                crate::group::lemma_count_live_update(g1.slots@, i1 as int, Some(x2), g1.cap());
                assert forall|k: int| 0 <= k < gs1.len() implies (#[trigger] gs1[k]).active_count as int == count_live(
                    gs1[k].slots@,
                    gs1[k].cap(),
                ) by {
                    if k != k1 {
                        assert(gs1[k] == o.groups@[k]);
                    }
                }
                crate::contents::lemma_groups_entries_len(o.groups@, k2 as int);
                crate::contents::lemma_groups_entries_len(gs1, k2 as int);
                assert forall|j: int| 0 <= j < k2 implies wa(#[trigger] gs1.subrange(0, k2 as int)[j]) == wa(
                    o.groups@.subrange(0, k2 as int)[j],
                ) by {
                    assert(gs1.subrange(0, k2 as int)[j] == gs1[j]);
                }
                crate::contents::lemma_sum_eq(gs1.subrange(0, k2 as int), o.groups@.subrange(0, k2 as int), wa);
                assert(crate::contents::rank(gs1, k2 as int, i2 as int) == p2);
            }
            assert(Self::revalued(o, n));
            Self::lemma_revalued(o, n);
        }
    }
}

impl<T, A: Allocator> Hive<T, A> {
    /// Every element keeps its handle and value across an insertion, and
    /// the new handle names the inserted value.
    pub proof fn lemma_insert_keeps_others(o: Self, n: Self, v: T, h: Handle, h2: Handle)
        requires
            o.wf(),
            Self::inserted(o, n, v, h),
        ensures
            n.contains(h),
            n.value_of(h) == v,
            n@.len() == o@.len() + 1,
            o.contains(h2) ==> h2 != h && n.contains(h2) && n.value_of(h2) == o.value_of(h2),
    {
        let p = choose|p: int| 0 <= p <= o@.len() && n@ == o@.insert(p, (h, v));
        assert(n@[p] == (h, v));
        n.lemma_handle_at(p);
        if o.contains(h2) {
            let j = o.handles().index_of(h2);
            assert(o.handles()[j] == h2);
            o.lemma_handle_at(j);
            let j2 = if j < p {
                j
            } else {
                j + 1
            };
            assert(n@[j2] == o@[j]);
            n.lemma_handle_at(j2);
        }
    }

    /// Erasing `h` removes it; every other element keeps its handle and
    /// value.
    pub proof fn lemma_erase_keeps_others(o: Self, n: Self, h: Handle, h2: Handle)
        requires
            o.wf(),
            o.contains(h),
            Self::erased(o, n, h),
        ensures
            !n.contains(h),
            n@.len() == o@.len() - 1,
            o.contains(h2) && h2 != h ==> n.contains(h2) && n.value_of(h2) == o.value_of(h2),
    {
        let p = o.handles().index_of(h);
        assert(o.handles()[p] == h);
        o.lemma_handle_at(p);
        o.lemma_view_unique();
        if n.contains(h) {
            let j = n.handles().index_of(h);
            assert(n.handles()[j] == h);
            let j2 = if j < p {
                j
            } else {
                j + 1
            };
            assert(n@[j] == o@[j2]);
            assert(o@[j2].0 == o@[p].0);
        }
        if o.contains(h2) && h2 != h {
            let j = o.handles().index_of(h2);
            assert(o.handles()[j] == h2);
            o.lemma_handle_at(j);
            let j2 = if j < p {
                j
            } else {
                j - 1
            };
            assert(n@[j2] == o@[j]);
            n.lemma_handle_at(j2);
        }
    }

    /// Inserting a value and then erasing it leaves the elements, handles
    /// and order as they were.
    pub proof fn lemma_insert_then_erase_restores(o: Self, m: Self, n: Self, v: T, h: Handle)
        requires
            o.wf(),
            Self::inserted(o, m, v, h),
            Self::erased(m, n, h),
        ensures
            n@ == o@,
    {
        let p = choose|p: int| 0 <= p <= o@.len() && m@ == o@.insert(p, (h, v));
        assert(m@[p] == (h, v));
        m.lemma_handle_at(p);
        assert(m@.remove(p) =~= o@);
    }

    /// Capacities of all blocks: those holding elements, in iteration
    /// order, then the reserved ones.
    pub closed spec fn block_capacities(&self) -> Seq<int> {
        (self.groups@ + self.reserved@).map_values(|g: Group<T>| g.cap())
    }

    /// The capacity is the total slot count of all blocks the hive owns,
    /// those holding elements and the reserved ones, which come last; it is
    /// at least the element count.
    pub proof fn lemma_capacity_is_block_total(&self)
        requires
            self.wf(),
        ensures
            self.total_capacity() == seq_sum(self.block_capacities()),
            0 <= self.reserved_count() <= self.block_capacities().len(),
            self.reserved_capacity() == seq_sum(
                self.block_capacities().subrange(
                    self.block_capacities().len() - self.reserved_count(),
                    self.block_capacities().len() as int,
                ),
            ),
            forall|i: int|
                0 <= i < self.block_capacities().len() ==> 1 <= #[trigger] self.block_capacities()[i] <= 65535,
            self@.len() <= self.total_capacity(),
            self.reserved_capacity() == seq_sum(self.reserved_capacities()),
    {
        let f = |g: Group<T>| g.cap();
        let all = self.groups@ + self.reserved@;
        crate::contents::lemma_sum_concat(self.groups@, self.reserved@, f);
        lemma_sum_as_seq(all);
        lemma_sum_as_seq(self.reserved@);
        let bc = self.block_capacities();
        assert(bc.subrange(bc.len() - self.reserved@.len(), bc.len() as int) =~= self.reserved@.map_values(f));
        assert forall|i: int| 0 <= i < bc.len() implies 1 <= #[trigger] bc[i] <= 65535 by {
            if i < self.glen() {
                assert(all[i] == self.groups@[i]);
                assert(self.groups@[i].wf(self.e_of(i)));
                self.groups@[i].lemma_wf_unfold(self.e_of(i));
            } else {
                assert(all[i] == self.reserved@[i - self.glen()]);
                assert(self.reserved@[i - self.glen()].is_blank());
                self.reserved@[i - self.glen()].lemma_wf_unfold(0);
            }
        }
        self.lemma_view_len();
        self.lemma_len_le_capacity();
    }

    /// `n` is `o` with the values `xs` added under the handles `hs`, which
    /// `o` did not hold: every element of `o` keeps its handle, its value
    /// and its order relative to the other elements of `o`; the element
    /// under `hs[i]` is `xs[i]`; and `n` has room for nothing else.
    pub open spec fn added(o: Self, n: Self, xs: Seq<T>, hs: Seq<Handle>) -> bool {
        &&& hs.len() == xs.len()
        &&& n@.len() == o@.len() + xs.len()
        &&& forall|h: Handle| #[trigger] o.contains(h) ==> n.contains(h) && n.value_of(h) == o.value_of(h)
        &&& forall|h1: Handle, h2: Handle|
            o.contains(h1) && o.contains(h2) && #[trigger] o.handles().index_of(h1) < #[trigger] o.handles().index_of(
                h2,
            ) ==> n.handles().index_of(h1) < n.handles().index_of(h2)
        &&& forall|i: int|
            0 <= i < hs.len() ==> !o.contains(#[trigger] hs[i]) && n.contains(hs[i]) && n.value_of(hs[i]) == xs[i]
        &&& forall|i: int, j: int| 0 <= i < j < hs.len() ==> #[trigger] hs[i] != #[trigger] hs[j]
    }

    /// `n` is what inserting the values `xs` one after another into `o`
    /// gives: `st` lists the states passed through, from `o` to `n`, and
    /// each step is an insertion of `xs[i]`, returning `hs[i]`, with all
    /// that `insert` promises of it.
    pub open spec fn inserted_each(o: Self, n: Self, xs: Seq<T>, hs: Seq<Handle>, st: Seq<Self>) -> bool {
        &&& hs.len() == xs.len()
        &&& st.len() == xs.len() + 1
        &&& st[0] == o
        &&& st[st.len() - 1] == n
        &&& forall|i: int|
            0 <= i < xs.len() ==> Self::inserted(st[i], st[i + 1], xs[i], #[trigger] hs[i]) && Self::fills_hole(
                st[i],
                hs[i],
            ) && Self::placed(st[i], st[i + 1], hs[i], xs[i]) && Self::insert_capacity(st[i], st[i + 1])
    }

    /// What is added depends on the contents alone.
    proof fn lemma_added_same_view(o: Self, o2: Self, n: Self, xs: Seq<T>, hs: Seq<Handle>)
        requires
            o@ == o2@,
            Self::added(o2, n, xs, hs),
        ensures
            Self::added(o, n, xs, hs),
    {
        assert(o.handles() =~= o2.handles());
        assert forall|h: Handle| #[trigger] o.contains(h) implies n.contains(h) && n.value_of(h) == o.value_of(h) by {
            assert(o2.contains(h));
        }
        assert forall|h1: Handle, h2: Handle|
            o.contains(h1) && o.contains(h2) && #[trigger] o.handles().index_of(h1) < #[trigger] o.handles().index_of(
                h2,
            ) implies n.handles().index_of(h1) < n.handles().index_of(h2) by {
            assert(o2.contains(h1) && o2.contains(h2));
            assert(o2.handles().index_of(h1) < o2.handles().index_of(h2));
        }
        assert forall|i: int| 0 <= i < hs.len() implies !o.contains(#[trigger] hs[i]) && n.contains(hs[i])
            && n.value_of(hs[i]) == xs[i] by {
            assert(!o2.contains(hs[i]));
        }
    }

    /// Adding nothing leaves the hive as it is.
    pub proof fn lemma_added_nothing(o: Self)
        ensures
            Self::added(o, o, Seq::empty(), Seq::empty()),
    {
    }

    /// An insertion keeps the order of the elements that were there.
    pub proof fn lemma_inserted_keeps_order(o: Self, n: Self, v: T, h: Handle, h1: Handle, h2: Handle)
        requires
            o.wf(),
            Self::inserted(o, n, v, h),
            o.contains(h1),
            o.contains(h2),
            o.handles().index_of(h1) < o.handles().index_of(h2),
        ensures
            n.handles().index_of(h1) < n.handles().index_of(h2),
    {
        let p = choose|p: int| 0 <= p <= o@.len() && n@ == o@.insert(p, (h, v));
        let j1 = o.handles().index_of(h1);
        let j2 = o.handles().index_of(h2);
        assert(o.handles()[j1] == h1 && o.handles()[j2] == h2);
        let k1 = if j1 < p {
            j1
        } else {
            j1 + 1
        };
        let k2 = if j2 < p {
            j2
        } else {
            j2 + 1
        };
        assert(n@[k1] == o@[j1]);
        assert(n@[k2] == o@[j2]);
        n.lemma_handle_at(k1);
        n.lemma_handle_at(k2);
    }

    /// Bulk insertion is one insertion after another: adding values and
    /// then inserting one more adds them all, the last under the handle
    /// the insertion returned.
    pub proof fn lemma_added_then_inserted(o: Self, m: Self, n: Self, xs: Seq<T>, hs: Seq<Handle>, x: T, h: Handle)
        requires
            m.wf(),
            Self::added(o, m, xs, hs),
            Self::inserted(m, n, x, h),
        ensures
            Self::added(o, n, xs.push(x), hs.push(h)),
    {
        Self::lemma_insert_keeps_others(m, n, x, h, h);
        assert forall|h2: Handle| #[trigger] o.contains(h2) implies n.contains(h2) && n.value_of(h2) == o.value_of(h2) by {
            Self::lemma_insert_keeps_others(m, n, x, h, h2);
        }
        assert forall|h1: Handle, h2: Handle|
            o.contains(h1) && o.contains(h2) && #[trigger] o.handles().index_of(h1) < #[trigger] o.handles().index_of(
                h2,
            ) implies n.handles().index_of(h1) < n.handles().index_of(h2) by {
            assert(m.handles().index_of(h1) < m.handles().index_of(h2));
            Self::lemma_inserted_keeps_order(m, n, x, h, h1, h2);
        }
        let hs2 = hs.push(h);
        let xs2 = xs.push(x);
        assert forall|i: int| 0 <= i < hs2.len() implies !o.contains(#[trigger] hs2[i]) && n.contains(hs2[i])
            && n.value_of(hs2[i]) == xs2[i] by {
            if i < hs.len() {
                assert(hs2[i] == hs[i]);
                Self::lemma_insert_keeps_others(m, n, x, h, hs[i]);
            } else {
                if o.contains(h) {
                    assert(m.contains(h));
                }
            }
        }
        assert forall|i: int, j: int| 0 <= i < j < hs2.len() implies #[trigger] hs2[i] != #[trigger] hs2[j] by {
            if j == hs.len() {
                assert(m.contains(hs[i]));
            } else {
                assert(hs2[i] == hs[i] && hs2[j] == hs[j]);
            }
        }
    }

    /// Keeping just the reserved blocks whose capacity lies within `l`,
    /// with the blocks that hold elements as they were, lowers the capacity
    /// by exactly the capacity of the reserved blocks outside `l`.
    pub proof fn lemma_reserve_kept_within(o: Self, n: Self, l: BlockCapacityLimits)
        requires
            o.wf(),
            n.wf(),
            n.reserved_capacities() == o.reserved_capacities().filter(|c: int| l.min <= c <= l.max),
            n.total_capacity() - n.reserved_capacity() == o.total_capacity() - o.reserved_capacity(),
        ensures
            n.total_capacity() == o.total_capacity() - seq_sum(
                o.reserved_capacities().filter(|c: int| c < l.min || c > l.max),
            ),
    {
        o.lemma_capacity_is_block_total();
        n.lemma_capacity_is_block_total();
        lemma_seq_sum_split(
            o.reserved_capacities(),
            |c: int| l.min <= c <= l.max,
            |c: int| c < l.min || c > l.max,
        );
    }

    /// A hive never holds more elements than it has slots.
    pub proof fn lemma_len_within_capacity(&self)
        requires
            self.wf(),
        ensures
            self@.len() <= self.total_capacity(),
    {
        self.lemma_view_len();
        self.lemma_len_le_capacity();
    }

    /// Erasing an element of a hive without holes, from a block that keeps
    /// other elements, and then inserting a value stores the value under
    /// the erased element's handle: its slot is reused.
    pub proof fn lemma_erase_then_insert_reuses_slot(o: Self, m: Self, n: Self, h: Handle, v: T, h2: Handle)
        requires
            o.wf(),
            o.contains(h),
            o.has_neighbour(h),
            !o.has_holes(),
            Self::erased(o, m, h),
            Self::inserted(m, n, v, h2),
            Self::fills_hole(m, h2),
        ensures
            h2 == h,
            n.contains(h),
            n.value_of(h) == v,
            n@.len() == o@.len(),
    {
        assert(m.holes() == o.holes().insert(h));
        assert(m.holes().contains(h));
        assert(m.has_holes());
        assert(m.holes().contains(h2));
        if h2 != h {
            assert(o.holes().contains(h2));
            assert(o.has_holes());
        }
        let p = choose|p: int| 0 <= p <= m@.len() && n@ == m@.insert(p, (h2, v));
        assert(n@[p] == (h, v));
        n.lemma_handle_at(p);
    }
}

/// `le` relates any two values one way or the other, and is transitive.
pub open spec fn total_preorder<T>(le: spec_fn(T, T) -> bool) -> bool {
    &&& forall|a: T, b: T| #![trigger le(a, b)] le(a, b) || le(b, a)
    &&& forall|a: T, b: T, c: T| #![trigger le(a, b), le(b, c)] le(a, b) && le(b, c) ==> le(a, c)
}

/// Every value of `s` is `le` every later one.
pub open spec fn sorted_under<T>(le: spec_fn(T, T) -> bool, s: Seq<T>) -> bool {
    forall|a: int, b: int| 0 <= a < b < s.len() ==> le(#[trigger] s[a], #[trigger] s[b])
}

/// `s` is `t` rearranged: position `i` of `s` holds the value at position
/// `perm[i]` of `t`, and no position of `t` is used twice.
pub open spec fn rearranges<X>(s: Seq<X>, t: Seq<X>, perm: Seq<int>) -> bool {
    &&& perm.len() == s.len()
    &&& s.len() == t.len()
    &&& forall|i: int| 0 <= i < s.len() ==> 0 <= #[trigger] perm[i] < t.len() && s[i] == t[perm[i]]
    &&& forall|i: int, j: int| 0 <= i < j < s.len() ==> #[trigger] perm[i] != #[trigger] perm[j]
}

/// Values that `le` ranks alike appear in `s` in the order of their
/// positions of origin `perm`.
pub open spec fn keeps_ties<X>(le: spec_fn(X, X) -> bool, s: Seq<X>, perm: Seq<int>) -> bool {
    forall|i: int, j: int|
        0 <= i < j < s.len() && le(#[trigger] s[i], #[trigger] s[j]) && le(s[j], s[i]) ==> perm[i] < perm[j]
}

/// Exchanging neighbours `j - 1` and `j` of `s`, which `le` does not rank
/// alike, together with their positions of origin, keeps `s` a
/// rearrangement of `t` that keeps ties.
proof fn lemma_swap_keeps_ties<X>(le: spec_fn(X, X) -> bool, s: Seq<X>, perm: Seq<int>, t: Seq<X>, j: int)
    requires
        1 <= j < s.len(),
        rearranges(s, t, perm),
        keeps_ties(le, s, perm),
        !le(s[j - 1], s[j]),
    ensures
        ({
            let s2 = s.update(j - 1, s[j]).update(j, s[j - 1]);
            let p2 = perm.update(j - 1, perm[j]).update(j, perm[j - 1]);
            rearranges(s2, t, p2) && keeps_ties(le, s2, p2)
        }),
{
    let s2 = s.update(j - 1, s[j]).update(j, s[j - 1]);
    let p2 = perm.update(j - 1, perm[j]).update(j, perm[j - 1]);
    let f = |i: int| if i == j - 1 {
        j
    } else if i == j {
        j - 1
    } else {
        i
    };
    assert forall|i: int| 0 <= i < s2.len() implies s2[i] == s[f(i)] && p2[i] == perm[f(i)] by {
    }
    assert forall|i: int| 0 <= i < s2.len() implies 0 <= #[trigger] p2[i] < t.len() && s2[i] == t[p2[i]] by {
        assert(s2[i] == s[f(i)] && p2[i] == perm[f(i)]);
        assert(0 <= perm[f(i)] < t.len() && s[f(i)] == t[perm[f(i)]]);
    }
    assert forall|a: int, b: int| 0 <= a < b < s2.len() implies #[trigger] p2[a] != #[trigger] p2[b] by {
        assert(p2[a] == perm[f(a)] && p2[b] == perm[f(b)]);
        if f(a) < f(b) {
            assert(perm[f(a)] != perm[f(b)]);
        } else {
            assert(perm[f(b)] != perm[f(a)]);
        }
    }
    assert forall|a: int, b: int|
        0 <= a < b < s2.len() && le(#[trigger] s2[a], #[trigger] s2[b]) && le(s2[b], s2[a]) implies p2[a] < p2[b] by {
        assert(s2[a] == s[f(a)] && p2[a] == perm[f(a)]);
        assert(s2[b] == s[f(b)] && p2[b] == perm[f(b)]);
        if a == j - 1 && b == j {
            assert(le(s[j - 1], s[j]));
        } else {
            assert(f(a) < f(b));
            assert(le(s[f(a)], s[f(b)]) && le(s[f(b)], s[f(a)]));
        }
    }
}

/// Exchanging two values of a sequence keeps its multiset.
proof fn lemma_swap_multiset<X>(s: Seq<X>, i: int, j: int)
    requires
        0 <= i < s.len(),
        0 <= j < s.len(),
    ensures
        s.update(i, s[j]).update(j, s[i]).to_multiset() == s.to_multiset(),
{
    broadcast use vstd::seq_lib::to_multiset_update;
    broadcast use vstd::multiset::group_multiset_axioms;

    let s1 = s.update(i, s[j]);
    assert(s1[j] == s[j]);
    assert(s1.to_multiset() == s.to_multiset().insert(s[j]).remove(s[i]));
    assert(s1.update(j, s[i]).to_multiset() == s1.to_multiset().insert(s[i]).remove(s1[j]));
    let m = s.to_multiset();
    assert(m.count(s[i]) > 0) by {
        vstd::seq_lib::to_multiset_contains(s, s[i]);
        assert(s.contains(s[i]));
    }
    assert(m.insert(s[j]).remove(s[i]).insert(s[i]).remove(s[j]) =~= m);
}

impl<T, A: Allocator> Hive<T, A> {
    /// Cursors to all elements, in order.
    fn cursors_vec(&self) -> (r: Vec<Cursor>)
        requires
            self.wf(),
        ensures
            r@.len() == self@.len(),
            forall|p: int| 0 <= p < r@.len() ==> self.at(#[trigger] r@[p], p),
    {
        let n = self.len();
        let mut r: Vec<Cursor> = Vec::new();
        if n == 0 {
            return r;
        }
        let mut c = self.first_cursor();
        r.push(c);
        while r.len() < n
            invariant
                self.wf(),
                n == self@.len(),
                1 <= r@.len() <= n,
                c == r@[r@.len() - 1],
                forall|p: int| 0 <= p < r@.len() ==> self.at(#[trigger] r@[p], p),
            decreases n - r@.len(),
        {
            let ghost q = r@.len() - 1;
            assert(self.at(r@[q], q));
            c = self.cursor_next(c, Ghost(q));
            r.push(c);
        }
        r
    }

    /// Sorts the values by insertion under the order `le`, which `after`
    /// decides: `after(a, b)` holds when `a` must come after `b`. Values
    /// change places only by exchanging two neighbours, and never two that
    /// `after` does not put out of order, so equal values keep their order.
    pub(crate) fn insertion_sort<G: Fn(&T, &T) -> bool>(&mut self, after: &G, Ghost(le): Ghost<spec_fn(T, T) -> bool>)
        requires
            old(self).wf(),
            total_preorder(le),
            forall|a: T, b: T| #[trigger] call_requires(*after, (&a, &b)),
            forall|a: T, b: T, r: bool| #[trigger] call_ensures(*after, (&a, &b), r) ==> r == !le(a, b),
        ensures
            final(self).wf(),
            final(self).handles() == old(self).handles(),
            final(self).elems().to_multiset() == old(self).elems().to_multiset(),
            sorted_under(le, final(self).elems()),
            exists|perm: Seq<int>|
                rearranges(final(self).elems(), old(self).elems(), perm) && keeps_ties(le, final(self).elems(), perm),
            final(self).total_capacity() == old(self).total_capacity(),
            final(self).limits() == old(self).limits(),
            final(self).allocator_value() == old(self).allocator_value(),
            final(self).blocks_made() == old(self).blocks_made(),
            final(self).sizes_fit() == old(self).sizes_fit(),
            final(self).holes() == old(self).holes(),
            final(self).reserved_capacity() == old(self).reserved_capacity(),
    {
        let ghost o = *self;
        let n = self.len();
        let ghost mut perm: Seq<int> = Seq::new(o.elems().len(), |i: int| i);
        proof {
            self.lemma_view_len();
            assert(rearranges(self.elems(), o.elems(), perm));
            assert(keeps_ties(le, self.elems(), perm));
        }
        if n <= 1 {
            return;
        }
        let cs = self.cursors_vec();
        let mut i: usize = 1;
        while i < n
            invariant
                self.wf(),
                n == self@.len(),
                cs@.len() == n,
                1 <= i <= n,
                forall|p: int| 0 <= p < n ==> self.at(#[trigger] cs@[p], p),
                total_preorder(le),
                forall|a: T, b: T| #[trigger] call_requires(*after, (&a, &b)),
                forall|a: T, b: T, r: bool| #[trigger] call_ensures(*after, (&a, &b), r) ==> r == !le(a, b),
                self.handles() == o.handles(),
                self.elems().to_multiset() == o.elems().to_multiset(),
                forall|a: int, b: int| 0 <= a < b < i ==> le(#[trigger] self.elems()[a], #[trigger] self.elems()[b]),
                rearranges(self.elems(), o.elems(), perm),
                keeps_ties(le, self.elems(), perm),
                self.total_capacity() == o.total_capacity(),
                self.limits() == o.limits(),
                self.allocator_value() == o.allocator_value(),
                self.blocks_made() == o.blocks_made(),
                self.sizes_fit() == o.sizes_fit(),
                self.holes() == o.holes(),
                self.reserved_capacity() == o.reserved_capacity(),
            decreases n - i,
        {
            let mut j: usize = i;
            loop
                invariant_except_break
                    self.wf(),
                    n == self@.len(),
                    cs@.len() == n,
                    1 <= i < n,
                    0 <= j <= i,
                    forall|p: int| 0 <= p < n ==> self.at(#[trigger] cs@[p], p),
                    total_preorder(le),
                    forall|a: T, b: T| #[trigger] call_requires(*after, (&a, &b)),
                    forall|a: T, b: T, r: bool| #[trigger] call_ensures(*after, (&a, &b), r) ==> r == !le(a, b),
                    self.handles() == o.handles(),
                    self.elems().to_multiset() == o.elems().to_multiset(),
                    forall|a: int, b: int| 0 <= a < b < j ==> le(#[trigger] self.elems()[a], #[trigger] self.elems()[b]),
                    forall|a: int, b: int|
                        j < a < b <= i ==> le(#[trigger] self.elems()[a], #[trigger] self.elems()[b]),
                    forall|a: int, b: int|
                        0 <= a < j && j < b <= i ==> le(#[trigger] self.elems()[a], #[trigger] self.elems()[b]),
                    forall|b: int| j < b <= i ==> le(self.elems()[j as int], #[trigger] self.elems()[b]),
                    rearranges(self.elems(), o.elems(), perm),
                    keeps_ties(le, self.elems(), perm),
                    self.total_capacity() == o.total_capacity(),
                    self.limits() == o.limits(),
                    self.allocator_value() == o.allocator_value(),
                    self.blocks_made() == o.blocks_made(),
                    self.sizes_fit() == o.sizes_fit(),
                    self.holes() == o.holes(),
                    self.reserved_capacity() == o.reserved_capacity(),
                ensures
                    self.wf(),
                    n == self@.len(),
                    forall|p: int| 0 <= p < n ==> self.at(#[trigger] cs@[p], p),
                    self.handles() == o.handles(),
                    self.elems().to_multiset() == o.elems().to_multiset(),
                    forall|a: int, b: int| 0 <= a < b <= i ==> le(#[trigger] self.elems()[a], #[trigger] self.elems()[b]),
                    rearranges(self.elems(), o.elems(), perm),
                    keeps_ties(le, self.elems(), perm),
                    self.total_capacity() == o.total_capacity(),
                    self.limits() == o.limits(),
                    self.allocator_value() == o.allocator_value(),
                    self.blocks_made() == o.blocks_made(),
                    self.sizes_fit() == o.sizes_fit(),
                    self.holes() == o.holes(),
                    self.reserved_capacity() == o.reserved_capacity(),
                decreases j,
            {
                let ghost e = self.elems();
                if j == 0 {
                    break;
                }
                let x = self.cursor_get(cs[j - 1], Ghost((j - 1) as int));
                let y = self.cursor_get(cs[j], Ghost(j as int));
                let out_of_order = after(x, y);
                if !out_of_order {
                    proof {
                        assert(le(e[j - 1], e[j as int]));
                        assert forall|a: int, b: int| 0 <= a < b <= i implies le(
                            #[trigger] self.elems()[a],
                            #[trigger] self.elems()[b],
                        ) by {
                            if b == j && a < j - 1 {
                                assert(le(e[a], e[j - 1]));
                            }
                        }
                    }
                    break;
                }
                let ghost s0 = *self;
                self.swap_at(cs[j - 1], cs[j], Ghost((j - 1) as int), Ghost(j as int));
                proof {
                    let s1 = *self;
                    assert(!le(e[j - 1], e[j as int]));
                    assert(le(e[j as int], e[j - 1]));
                    assert forall|p: int| 0 <= p < n implies s1.at(#[trigger] cs@[p], p) by {
                        Self::lemma_same_shape_at(s0, s1, cs@[p], p);
                    }
                    let u = s0@;
                    assert(s1.elems() =~= e.update(j - 1, e[j as int]).update(j as int, e[j - 1]));
                    assert(s1.handles() =~= s0.handles());
                    lemma_swap_multiset(e, j - 1, j as int);
                    Self::lemma_revalued(s0, s1);
                    let p0 = perm;
                    perm = p0.update(j - 1, p0[j as int]).update(j as int, p0[j - 1]);
                    lemma_swap_keeps_ties(le, e, p0, o.elems(), j as int);
                }
                j = j - 1;
            }
            i = i + 1;
        }
    }
}

/// Sum of a sequence of integers.
pub open spec fn seq_sum(s: Seq<int>) -> int
    decreases s.len(),
{
    if s.len() == 0 {
        0
    } else {
        seq_sum(s.drop_last()) + s.last()
    }
}

/// A sum splits into the sum of the values that pass a test and the sum
/// of those that fail it.
pub proof fn lemma_seq_sum_split(s: Seq<int>, p: spec_fn(int) -> bool, q: spec_fn(int) -> bool)
    requires
        forall|c: int| #[trigger] q(c) == !p(c),
    ensures
        seq_sum(s) == seq_sum(s.filter(p)) + seq_sum(s.filter(q)),
    decreases s.len(),
{
    reveal_with_fuel(Seq::filter, 1);
    if s.len() > 0 {
        let r = s.drop_last();
        let x = s.last();
        lemma_seq_sum_split(r, p, q);
        assert(q(x) == !p(x));
        if p(x) {
            assert(s.filter(p) == r.filter(p).push(x));
            assert(s.filter(q) == r.filter(q));
            assert(r.filter(p).push(x).drop_last() =~= r.filter(p));
        } else {
            assert(s.filter(q) == r.filter(q).push(x));
            assert(s.filter(p) == r.filter(p));
            assert(r.filter(q).push(x).drop_last() =~= r.filter(q));
        }
    } else {
        assert(s.filter(p) =~= s);
        assert(s.filter(q) =~= s);
    }
}

/// The capacity total of blocks is the sum of their capacities.
proof fn lemma_sum_as_seq<T>(gs: Seq<Group<T>>)
    ensures
        crate::contents::sum_caps(gs) == seq_sum(gs.map_values(|g: Group<T>| g.cap())),
    decreases gs.len(),
{
    if gs.len() > 0 {
        lemma_sum_as_seq(gs.drop_last());
        assert(gs.map_values(|g: Group<T>| g.cap()).drop_last() =~= gs.drop_last().map_values(|g: Group<T>| g.cap()));
    }
}

/// Summing one per block counts the blocks.
proof fn lemma_sum_ones<T>(gs: Seq<Group<T>>)
    ensures
        crate::contents::sum_by(gs, |g: Group<T>| 1int) == gs.len(),
    decreases gs.len(),
{
    if gs.len() > 0 {
        lemma_sum_ones(gs.drop_last());
    }
}

} // verus!
