//! An object pool backed by a hive: insertion hands out a token that owns
//! its element, and the element leaves the pool when the token is given
//! back.
use vstd::prelude::*;

use crate::allocator::{Allocator, Global};
use crate::contents::Handle;
use crate::hive::{limits_valid, reserve_growth, BlockCapacityLimits, Hive, InvalidBlockCapacityLimits};

verus! {

/// A pool of objects stored in a [`Hive`].
///
/// Each inserted object is represented by a [`Pooled`] token. Tokens cannot
/// be copied, so each owns its object; [`Pool::remove`] takes the token
/// back and drops the object.
pub struct Pool<T, A: Allocator = Global> {
    hive: Hive<T, A>,
}

/// The token of an object stored in a [`Pool`].
pub struct Pooled {
    handle: Handle,
}

impl Pooled {
    /// The handle of the token's object.
    pub closed spec fn handle(&self) -> Handle {
        self.handle
    }

    /// The handle under which the pool stores the token's object.
    pub fn key(&self) -> (h: Handle)
        ensures
            h == self.handle(),
    {
        self.handle
    }
}

impl<T, A: Allocator> View for Pool<T, A> {
    type V = Seq<(Handle, T)>;

    closed spec fn view(&self) -> Seq<(Handle, T)> {
        self.hive@
    }
}

impl<T, A: Allocator> Pool<T, A> {
    /// The pool's structure is consistent.
    pub closed spec fn wf(&self) -> bool {
        self.hive.wf()
    }

    /// Total number of slots of the backing hive.
    pub closed spec fn total_capacity(&self) -> int {
        self.hive.total_capacity()
    }

    /// Whether the object of `p` is in the pool.
    pub closed spec fn holds(&self, p: &Pooled) -> bool {
        self.hive.contains(p.handle)
    }

    /// The object of `p`.
    pub closed spec fn value(&self, p: &Pooled) -> T {
        self.hive.value_of(p.handle)
    }

    /// Number of blocks the backing hive has created so far.
    pub closed spec fn blocks_made(&self) -> int {
        self.hive.blocks_made()
    }

    /// Room for one more insertion: a free slot, or room to add a block.
    pub open spec fn can_insert(&self) -> bool {
        ||| self@.len() < self.total_capacity()
        ||| self.total_capacity() + 65535 <= usize::MAX && self.blocks_made() < u64::MAX
    }

    /// The capacity after an insertion into `o`: unchanged while `o` has a
    /// free slot; otherwise grown by at most one block.
    pub open spec fn insert_capacity(o: Self, n: Self) -> bool {
        &&& o@.len() < o.total_capacity() ==> n.total_capacity() == o.total_capacity()
        &&& o.total_capacity() <= n.total_capacity() <= o.total_capacity() + 65535
        &&& n.blocks_made() <= o.blocks_made() + 1
    }

    proof fn lemma_insert_capacity(o: Self, n: Self)
        requires
            o.wf(),
            Hive::insert_capacity(o.hive, n.hive),
            n.hive.blocks_made() <= o.hive.blocks_made() + 1,
        ensures
            Self::insert_capacity(o, n),
    {
        o.hive.lemma_len_within_capacity();
    }

    /// What every insertion of `v` under token `p` guarantees: `p` holds
    /// `v`, and every token held before holds the same object.
    pub open spec fn inserted(o: Self, n: Self, v: T, p: &Pooled) -> bool {
        &&& n.wf()
        &&& !o.holds(p)
        &&& n.holds(p)
        &&& n.value(p) == v
        &&& n@.len() == o@.len() + 1
        &&& forall|q: &Pooled| #[trigger] o.holds(q) ==> n.holds(q) && n.value(q) == o.value(q) && q.handle()
            != p.handle()
    }

    proof fn lemma_inserted(o: Self, n: Self, v: T, p: &Pooled)
        requires
            o.wf(),
            Hive::inserted(o.hive, n.hive, v, p.handle),
        ensures
            Self::inserted(o, n, v, p),
    {
        let m = o.hive;
        let k = n.hive;
        let pos = choose|pos: int| 0 <= pos <= m@.len() && k@ == m@.insert(pos, (p.handle, v));
        assert(k@[pos] == (p.handle, v));
        k.lemma_handle_at(pos);
        assert forall|q: &Pooled| #[trigger] o.holds(q) implies n.holds(q) && n.value(q) == o.value(q) by {
            let j = m.handles().index_of(q.handle);
            assert(m.handles()[j] == q.handle);
            m.lemma_handle_at(j);
            let j2 = if j < pos {
                j
            } else {
                j + 1
            };
            assert(k@[j2] == m@[j]);
            k.lemma_handle_at(j2);
        }
    }
}

impl<T, A: Allocator + Clone> Pool<T, A> {
    /// An empty pool using `allocator`.
    pub fn new_in(allocator: A) -> (p: Self)
        ensures
            p.wf(),
            p@ == Seq::<(Handle, T)>::empty(),
            p.total_capacity() == 0,
            p.blocks_made() == 0,
    {
        Pool { hive: Hive::new_in(allocator) }
    }

    /// An empty pool using `allocator`, with room for at least `capacity`
    /// objects.
    pub fn with_capacity_in(capacity: usize, allocator: A) -> (p: Self)
        requires
            capacity + 65535 <= usize::MAX,
        ensures
            p.wf(),
            p@ == Seq::<(Handle, T)>::empty(),
            p.total_capacity() >= capacity,
            p.total_capacity() == reserve_growth(
                capacity as int,
                Hive::<T, A>::default_limits().min as int,
                Hive::<T, A>::default_limits().max as int,
            ),
            p.blocks_made() <= capacity,
    {
        let mut hive = Hive::new_in(allocator);
        proof {
            assert(usize::MAX <= u64::MAX);
        }
        hive.reserve(capacity);
        Pool { hive }
    }

    /// An empty pool using `allocator` and custom block capacity limits, or
    /// an error if the limits are out of bounds.
    pub fn try_new_in(allocator: A, limits: BlockCapacityLimits) -> (r: Result<Self, InvalidBlockCapacityLimits>)
        ensures
            r is Ok <==> limits_valid::<T>(limits),
            r matches Ok(p) ==> p.wf() && p@ == Seq::<(Handle, T)>::empty() && p.total_capacity() == 0
                && p.blocks_made() == 0,
    {
        match Hive::try_new_in(allocator, limits) {
            Ok(hive) => Ok(Pool { hive }),
            Err(e) => Err(e),
        }
    }
}

impl<T> Pool<T, Global> {
    /// An empty pool.
    pub fn new() -> (p: Self)
        ensures
            p.wf(),
            p@ == Seq::<(Handle, T)>::empty(),
            p.total_capacity() == 0,
            p.blocks_made() == 0,
    {
        Self::new_in(Global)
    }

    /// An empty pool with room for at least `capacity` objects.
    pub fn with_capacity(capacity: usize) -> (p: Self)
        requires
            capacity + 65535 <= usize::MAX,
        ensures
            p.wf(),
            p@ == Seq::<(Handle, T)>::empty(),
            p.total_capacity() >= capacity,
            p.total_capacity() == reserve_growth(
                capacity as int,
                Hive::<T, Global>::default_limits().min as int,
                Hive::<T, Global>::default_limits().max as int,
            ),
            p.blocks_made() <= capacity,
    {
        Self::with_capacity_in(capacity, Global)
    }

    /// An empty pool with custom block capacity limits, or an error if the
    /// limits are out of bounds.
    pub fn try_new(limits: BlockCapacityLimits) -> (r: Result<Self, InvalidBlockCapacityLimits>)
        ensures
            r is Ok <==> limits_valid::<T>(limits),
            r matches Ok(p) ==> p.wf() && p@ == Seq::<(Handle, T)>::empty() && p.total_capacity() == 0
                && p.blocks_made() == 0,
    {
        Self::try_new_in(Global, limits)
    }
}

impl<T> Default for Pool<T, Global> {
    fn default() -> (p: Self)
        ensures
            p.wf(),
            p@ == Seq::<(Handle, T)>::empty(),
            p.total_capacity() == 0,
            p.blocks_made() == 0,
    {
        Self::new()
    }
}

impl<T, A: Allocator> Pool<T, A> {
    /// Stores `value` and returns its token.
    pub fn insert(&mut self, value: T) -> (p: Pooled)
        requires
            old(self).wf(),
            old(self).can_insert(),
        ensures
            Self::inserted(*old(self), *final(self), value, &p),
            Self::insert_capacity(*old(self), *final(self)),
    {
        let h = self.hive.insert(value);
        let p = Pooled { handle: h };
        proof {
            Self::lemma_inserted(*old(self), *self, value, &p);
            Self::lemma_insert_capacity(*old(self), *self);
        }
        p
    }

    /// Stores the value that `f` builds and returns its token; `f` runs
    /// before the pool changes.
    pub fn emplace<F: FnOnce() -> T>(&mut self, f: F) -> (p: Pooled)
        requires
            old(self).wf(),
            old(self).can_insert(),
            call_requires(f, ()),
        ensures
            exists|v: T| call_ensures(f, (), v) && #[trigger] Self::inserted(*old(self), *final(self), v, &p),
            Self::insert_capacity(*old(self), *final(self)),
    {
        let v = f();
        self.insert(v)
    }

    /// Stores `T::default()`, lets `f` change it in place, and returns its
    /// token.
    pub fn insert_with<F: FnOnce(&mut T)>(&mut self, f: F) -> (p: Pooled)
        where
            T: Default,
        requires
            old(self).wf(),
            old(self).can_insert(),
            forall|x: &mut T| call_requires(f, (x,)),
        ensures
            exists|m: &mut T|
                call_ensures(T::default, (), *m) && call_ensures(f, (m,), ()) && #[trigger] Self::inserted(
                    *old(self),
                    *final(self),
                    *final(m),
                    &p,
                ),
            Self::insert_capacity(*old(self), *final(self)),
    {
        let h = self.hive.insert_with(f);
        let p = Pooled { handle: h };
        proof {
            assert forall|x: T| #[trigger] Hive::inserted(old(self).hive, self.hive, x, h) implies Self::inserted(
                *old(self),
                *self,
                x,
                &p,
            ) by {
                Self::lemma_inserted(*old(self), *self, x, &p);
            }
            let m = choose|m: &mut T|
                call_ensures(T::default, (), *m) && call_ensures(f, (m,), ()) && #[trigger] Hive::inserted(
                    old(self).hive,
                    self.hive,
                    *final(m),
                    h,
                );
            assert(Self::inserted(*old(self), *self, *final(m), &p));
            assert(call_ensures(f, (m,), ()));
            Self::lemma_insert_capacity(*old(self), *self);
        }
        p
    }

    /// The object of `p`.
    pub fn get(&self, p: &Pooled) -> (r: &T)
        requires
            self.wf(),
            self.holds(p),
        ensures
            *r == self.value(p),
    {
        self.hive.get(p.handle).unwrap()
    }

    /// Mutable access to the object of `p`; every other object stays as it
    /// is.
    pub fn get_mut(&mut self, p: &Pooled) -> (r: &mut T)
        requires
            old(self).wf(),
            old(self).holds(p),
        ensures
            *r == old(self).value(p),
            final(self).wf(),
            final(self).holds(p),
            final(self).value(p) == *final(r),
            final(self)@.len() == old(self)@.len(),
            forall|q: &Pooled| #[trigger] old(self).holds(q) ==> final(self).holds(q),
            forall|q: &Pooled|
                #[trigger] old(self).holds(q) && q.handle() != p.handle() ==> final(self).value(q) == old(self).value(q),
            final(self).total_capacity() == old(self).total_capacity(),
            final(self).blocks_made() == old(self).blocks_made(),
    {
        let ghost o = self.hive;
        let r = self.hive.get_mut(p.handle).unwrap();
        proof {
            let j = o.handles().index_of(p.handle);
            assert(o.handles()[j] == p.handle);
            o.lemma_handle_at(j);
            assert forall|n: Hive<T, A>, x: T|
                #[trigger] Hive::assigned(o, n, p.handle, x) implies n.contains(p.handle) && n.value_of(p.handle) == x
                && (forall|q: &Pooled| #[trigger] o.contains(q.handle) ==> n.contains(q.handle) && (q.handle
                != p.handle ==> n.value_of(q.handle) == o.value_of(q.handle))) by {
                assert(n@[j] == (p.handle, x));
                n.lemma_handle_at(j);
                assert forall|q: &Pooled| #[trigger] o.contains(q.handle) implies n.contains(q.handle) && (q.handle
                    != p.handle ==> n.value_of(q.handle) == o.value_of(q.handle)) by {
                    let i = o.handles().index_of(q.handle);
                    assert(o.handles()[i] == q.handle);
                    o.lemma_handle_at(i);
                    assert(n@[i].0 == q.handle);
                    n.lemma_handle_at(i);
                }
            }
        }
        r
    }

    /// Takes the token back and removes its object, which is dropped.
    pub fn remove(&mut self, p: Pooled)
        requires
            old(self).wf(),
            old(self).holds(&p),
        ensures
            final(self).wf(),
            !final(self).holds(&p),
            final(self)@.len() == old(self)@.len() - 1,
            forall|q: &Pooled| #[trigger] old(self).holds(q) && q.handle() != p.handle() ==> final(self).holds(q)
                && final(self).value(q) == old(self).value(q),
            final(self).total_capacity() == old(self).total_capacity(),
            final(self).blocks_made() == old(self).blocks_made(),
    {
        let ghost o = self.hive;
        let h = p.handle;
        self.hive.erase(h);
        proof {
            let n = self.hive;
            let j = o.handles().index_of(h);
            assert(o.handles()[j] == h);
            o.lemma_handle_at(j);
            o.lemma_handles_unique();
            n.lemma_handles_unique();
            if n.contains(h) {
                let i = n.handles().index_of(h);
                assert(n.handles()[i] == h);
                let i2 = if i < j {
                    i
                } else {
                    i + 1
                };
                assert(o@[i2].0 == h);
                o.lemma_handle_at(i2);
            }
            assert forall|q: &Pooled| #[trigger] o.contains(q.handle) && q.handle != h implies n.contains(q.handle)
                && n.value_of(q.handle) == o.value_of(q.handle) by {
                let i = o.handles().index_of(q.handle);
                assert(o.handles()[i] == q.handle);
                o.lemma_handle_at(i);
                assert(i != j);
                let i2 = if i < j {
                    i
                } else {
                    i - 1
                };
                assert(n@[i2] == o@[i]);
                n.lemma_handle_at(i2);
            }
        }
    }

    /// The number of objects in the pool.
    pub fn len(&self) -> (r: usize)
        requires
            self.wf(),
        ensures
            r == self@.len(),
    {
        self.hive.len()
    }

    /// Whether the pool holds no object.
    pub fn is_empty(&self) -> (r: bool)
        requires
            self.wf(),
        ensures
            r == (self@.len() == 0),
    {
        self.len() == 0
    }

    /// Whether an insertion can proceed now.
    pub fn room_to_insert(&self) -> (r: bool)
        requires
            self.wf(),
        ensures
            r == self.can_insert(),
    {
        self.hive.room_to_insert()
    }

    /// The number of slots of the backing hive, in use or reserved.
    pub fn capacity(&self) -> (r: usize)
        ensures
            r == self.total_capacity(),
    {
        self.hive.capacity()
    }
}

} // verus!
