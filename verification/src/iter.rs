//! Double-ended traversals of a hive: shared, mutable and consuming.
//!
//! Each walks the elements in iteration order from the front, the back, or
//! both, and knows how many elements it has left.
use vstd::prelude::*;

use crate::allocator::{Allocator, Global};
use crate::contents::Handle;
use crate::hive::Hive;
use crate::skipfield::Cursor;

verus! {

/// A traversal of shared references to the elements of a hive.
pub struct Iter<'a, T, A: Allocator = Global> {
    hive: &'a Hive<T, A>,
    front: Cursor,
    back: Cursor,
    remaining: usize,
    pos: Ghost<int>,
}

impl<'a, T, A: Allocator> Iter<'a, T, A> {
    /// The cursors point at the first and last elements left.
    pub closed spec fn wf(&self) -> bool {
        &&& self.hive.wf()
        &&& 0 <= self.pos@
        &&& self.pos@ + self.remaining <= self.hive@.len()
        &&& self.remaining > 0 ==> self.hive.at(self.front, self.pos@) && self.hive.at(
            self.back,
            self.pos@ + self.remaining - 1,
        )
    }

    /// The elements left, front to back.
    pub closed spec fn rest(&self) -> Seq<T> {
        self.hive.elems().subrange(self.pos@, self.pos@ + self.remaining)
    }

    /// The elements of `hive` from position `pos` on.
    pub(crate) fn new(hive: &'a Hive<T, A>, front: Cursor, back: Cursor, remaining: usize, pos: Ghost<int>) -> (it: Self)
        requires
            hive.wf(),
            0 <= pos@,
            pos@ + remaining == hive@.len(),
            remaining > 0 ==> hive.at(front, pos@) && hive.at(back, hive@.len() - 1),
        ensures
            it.wf(),
            it.rest() == hive.elems().subrange(pos@, hive@.len() as int),
    {
        Iter { hive, front, back, remaining, pos }
    }

    /// The next element from the front.
    pub fn next(&mut self) -> (r: Option<&'a T>)
        requires
            old(self).wf(),
        ensures
            final(self).wf(),
            old(self).rest().len() == 0 ==> r is None && final(self).rest() == old(self).rest(),
            old(self).rest().len() > 0 ==> (r matches Some(x) && *x == old(self).rest()[0]) && final(self).rest()
                == old(self).rest().drop_first(),
    {
        if self.remaining == 0 {
            return None;
        }
        let ghost p = self.pos@;
        let hive: &'a Hive<T, A> = self.hive;
        let x = hive.cursor_get(self.front, Ghost(p));
        if self.remaining > 1 {
            self.front = hive.cursor_next(self.front, Ghost(p));
        }
        self.remaining = self.remaining - 1;
        self.pos = Ghost(p + 1);
        proof {
            let o = old(self).rest();
            assert(o[0] == hive.elems()[p]);
            assert(self.rest() =~= o.drop_first());
        }
        Some(x)
    }

    /// The next element from the back.
    pub fn next_back(&mut self) -> (r: Option<&'a T>)
        requires
            old(self).wf(),
        ensures
            final(self).wf(),
            old(self).rest().len() == 0 ==> r is None && final(self).rest() == old(self).rest(),
            old(self).rest().len() > 0 ==> (r matches Some(x) && *x == old(self).rest().last()) && final(self).rest()
                == old(self).rest().drop_last(),
    {
        if self.remaining == 0 {
            return None;
        }
        let ghost p = self.pos@;
        let ghost q = p + self.remaining - 1;
        let hive: &'a Hive<T, A> = self.hive;
        let x = hive.cursor_get(self.back, Ghost(q));
        if self.remaining > 1 {
            self.back = hive.cursor_prev(self.back, Ghost(q));
        }
        self.remaining = self.remaining - 1;
        proof {
            let o = old(self).rest();
            assert(o.last() == hive.elems()[q]);
            assert(self.rest() =~= o.drop_last());
        }
        Some(x)
    }

    /// The number of elements left.
    pub fn len(&self) -> (n: usize)
        requires
            self.wf(),
        ensures
            n == self.rest().len(),
    {
        self.remaining
    }
}

/// A traversal of mutable references to the elements of a hive.
pub struct IterMut<'a, T, A: Allocator = Global> {
    hive: &'a mut Hive<T, A>,
    front: Cursor,
    back: Cursor,
    remaining: usize,
    pos: Ghost<int>,
}

impl<'a, T, A: Allocator> IterMut<'a, T, A> {
    /// The cursors point at the first and last elements left.
    pub closed spec fn wf(&self) -> bool {
        &&& self.hive.wf()
        &&& 0 <= self.pos@
        &&& self.pos@ + self.remaining <= self.hive@.len()
        &&& self.remaining > 0 ==> self.hive.at(self.front, self.pos@) && self.hive.at(
            self.back,
            self.pos@ + self.remaining - 1,
        )
    }

    /// The elements left, front to back.
    pub closed spec fn rest(&self) -> Seq<T> {
        self.hive.elems().subrange(self.pos@, self.pos@ + self.remaining)
    }

    /// The hive's contents as they stand.
    pub closed spec fn contents(&self) -> Seq<(Handle, T)> {
        self.hive@
    }

    /// Position in the hive of the next element from the front.
    pub closed spec fn front_pos(&self) -> int {
        self.pos@
    }

    pub(crate) fn new(hive: &'a mut Hive<T, A>, front: Cursor, back: Cursor, remaining: usize, pos: Ghost<int>) -> (it: Self)
        requires
            old(hive).wf(),
            0 <= pos@,
            pos@ + remaining == old(hive)@.len(),
            remaining > 0 ==> old(hive).at(front, pos@) && old(hive).at(back, old(hive)@.len() - 1),
        ensures
            it.wf(),
            it.contents() == old(hive)@,
            it.front_pos() == pos@,
            it.rest() == old(hive).elems().subrange(pos@, old(hive)@.len() as int),
    {
        IterMut { hive, front, back, remaining, pos }
    }

    /// The next element from the front, to read or change in place.
    pub fn next(&mut self) -> (r: Option<&mut T>)
        requires
            old(self).wf(),
        ensures
            final(self).wf(),
            old(self).rest().len() == 0 ==> r is None && final(self).rest() == old(self).rest() && final(self).contents()
                == old(self).contents(),
            old(self).rest().len() > 0 ==> (r matches Some(m) && *m == old(self).rest()[0] && final(self).contents()
                == old(self).contents().update(
                old(self).front_pos(),
                (old(self).contents()[old(self).front_pos()].0, *final(m)),
            )) && final(self).rest() == old(self).rest().drop_first() && final(self).front_pos() == old(
                self,
            ).front_pos() + 1,
    {
        if self.remaining == 0 {
            return None;
        }
        let ghost p = self.pos@;
        let ghost q = p + self.remaining - 1;
        let cur = self.front;
        if self.remaining > 1 {
            self.front = self.hive.cursor_next(cur, Ghost(p));
        }
        self.remaining = self.remaining - 1;
        self.pos = Ghost(p + 1);
        proof {
            let h: &Hive<T, A> = self.hive;
            if self.remaining > 0 {
                Hive::lemma_mutated_at(*h, self.front, p + 1, self.back, q);
            }
            Hive::lemma_mutated_rest(*h, p, p + 1, q + 1);
            assert(h.elems().subrange(p + 1, q + 1) =~= h.elems().subrange(p, q + 1).drop_first());
        }
        let m = self.hive.cursor_get_mut(cur, Ghost(p));
        Some(m)
    }

    /// The next element from the back, to read or change in place.
    pub fn next_back(&mut self) -> (r: Option<&mut T>)
        requires
            old(self).wf(),
        ensures
            final(self).wf(),
            old(self).rest().len() == 0 ==> r is None && final(self).rest() == old(self).rest() && final(self).contents()
                == old(self).contents(),
            old(self).rest().len() > 0 ==> (r matches Some(m) && *m == old(self).rest().last() && final(self).contents()
                == old(self).contents().update(
                old(self).front_pos() + old(self).rest().len() - 1,
                (old(self).contents()[old(self).front_pos() + old(self).rest().len() - 1].0, *final(m)),
            )) && final(self).rest() == old(self).rest().drop_last() && final(self).front_pos() == old(
                self,
            ).front_pos(),
    {
        if self.remaining == 0 {
            return None;
        }
        let ghost p = self.pos@;
        let ghost q = p + self.remaining - 1;
        let cur = self.back;
        if self.remaining > 1 {
            self.back = self.hive.cursor_prev(cur, Ghost(q));
        }
        self.remaining = self.remaining - 1;
        proof {
            let h: &Hive<T, A> = self.hive;
            if self.remaining > 0 {
                Hive::lemma_mutated_at(*h, self.front, p, self.back, q - 1);
            }
            Hive::lemma_mutated_rest(*h, q, p, q);
            assert(h.elems().subrange(p, q) =~= h.elems().subrange(p, q + 1).drop_last());
        }
        let m = self.hive.cursor_get_mut(cur, Ghost(q));
        Some(m)
    }

    /// The number of elements left.
    pub fn len(&self) -> (n: usize)
        requires
            self.wf(),
        ensures
            n == self.rest().len(),
    {
        self.remaining
    }
}

/// A traversal that takes the elements out of a hive.
pub struct IntoIter<T, A: Allocator = Global> {
    hive: Hive<T, A>,
}

impl<T, A: Allocator> IntoIter<T, A> {
    pub closed spec fn wf(&self) -> bool {
        self.hive.wf()
    }

    /// The elements left, front to back.
    pub closed spec fn rest(&self) -> Seq<T> {
        self.hive.elems()
    }

    /// The next element from the front.
    pub fn next(&mut self) -> (r: Option<T>)
        requires
            old(self).wf(),
        ensures
            final(self).wf(),
            old(self).rest().len() == 0 ==> r is None && final(self).rest() == old(self).rest(),
            old(self).rest().len() > 0 ==> r == Some(old(self).rest()[0]) && final(self).rest() == old(
                self,
            ).rest().drop_first(),
    {
        if self.hive.is_empty() {
            return None;
        }
        let c = self.hive.first_cursor();
        let h = self.hive.cursor_handle(c, Ghost(0));
        let ghost o = self.hive;
        proof {
            o.lemma_handle_at(0);
        }
        let v = self.hive.take(h);
        proof {
            assert(self.rest() =~= old(self).rest().drop_first());
        }
        Some(v)
    }

    /// The next element from the back.
    pub fn next_back(&mut self) -> (r: Option<T>)
        requires
            old(self).wf(),
        ensures
            final(self).wf(),
            old(self).rest().len() == 0 ==> r is None && final(self).rest() == old(self).rest(),
            old(self).rest().len() > 0 ==> r == Some(old(self).rest().last()) && final(self).rest() == old(
                self,
            ).rest().drop_last(),
    {
        if self.hive.is_empty() {
            return None;
        }
        let ghost n = self.hive@.len() - 1;
        let c = self.hive.last_cursor();
        let h = self.hive.cursor_handle(c, Ghost(n));
        let ghost o = self.hive;
        proof {
            o.lemma_handle_at(n);
        }
        let v = self.hive.take(h);
        proof {
            assert(self.rest() =~= old(self).rest().drop_last());
        }
        Some(v)
    }

    /// The number of elements left.
    pub fn len(&self) -> (n: usize)
        requires
            self.wf(),
        ensures
            n == self.rest().len(),
    {
        self.hive.len()
    }
}

impl<T, A: Allocator> Hive<T, A> {
    /// Shared references to the elements, in iteration order.
    pub fn iter(&self) -> (it: Iter<'_, T, A>)
        requires
            self.wf(),
        ensures
            it.wf(),
            it.rest() == self.elems(),
    {
        let n = self.len();
        if n == 0 {
            let it = Iter::new(self, Cursor::null(), Cursor::null(), 0, Ghost(0));
            proof {
                assert(self.elems() =~= self.elems().subrange(0, 0));
            }
            it
        } else {
            let it = Iter::new(self, self.first_cursor(), self.last_cursor(), n, Ghost(0));
            proof {
                assert(self.elems() =~= self.elems().subrange(0, n as int));
            }
            it
        }
    }

    /// Mutable references to the elements, in iteration order.
    pub fn iter_mut(&mut self) -> (it: IterMut<'_, T, A>)
        requires
            old(self).wf(),
        ensures
            it.wf(),
            it.contents() == old(self)@,
            it.front_pos() == 0,
            it.rest() == old(self).elems(),
    {
        let n = self.len();
        let ghost o = *self;
        if n == 0 {
            proof {
                assert(o.elems() =~= o.elems().subrange(0, 0));
            }
            IterMut::new(self, Cursor::null(), Cursor::null(), 0, Ghost(0))
        } else {
            let f = self.first_cursor();
            let b = self.last_cursor();
            proof {
                assert(o.elems() =~= o.elems().subrange(0, n as int));
            }
            IterMut::new(self, f, b, n, Ghost(0))
        }
    }

    /// The elements taken out of the hive, in iteration order.
    pub fn into_iter(self) -> (it: IntoIter<T, A>)
        requires
            self.wf(),
        ensures
            it.wf(),
            it.rest() == self.elems(),
    {
        IntoIter { hive: self }
    }

    /// Shared references to the elements from the one named `h` to the
    /// last, if `h` names an element.
    pub fn iter_from(&self, h: Handle) -> (r: Option<Iter<'_, T, A>>)
        requires
            self.wf(),
        ensures
            r is Some <==> self.contains(h),
            r matches Some(it) ==> it.wf() && it.rest() == self.elems().subrange(
                self.handles().index_of(h),
                self@.len() as int,
            ),
    {
        match self.cursor_of(h) {
            None => None,
            Some(c) => {
                let ghost p = self.handles().index_of(h);
                let n = self.count_from(c, Ghost(p));
                let b = self.last_cursor();
                Some(Iter::new(self, c, b, n, Ghost(p)))
            },
        }
    }

    /// Mutable references to the elements from the one named `h` to the
    /// last, if `h` names an element.
    pub fn iter_mut_from(&mut self, h: Handle) -> (r: Option<IterMut<'_, T, A>>)
        requires
            old(self).wf(),
        ensures
            r is Some <==> old(self).contains(h),
            r is None ==> *final(self) == *old(self),
            r matches Some(it) ==> it.wf() && it.contents() == old(self)@ && it.front_pos() == old(
                self,
            ).handles().index_of(h) && it.rest() == old(self).elems().subrange(
                old(self).handles().index_of(h),
                old(self)@.len() as int,
            ),
    {
        match self.cursor_of(h) {
            None => None,
            Some(c) => {
                let ghost p = self.handles().index_of(h);
                let n = self.count_from(c, Ghost(p));
                let b = self.last_cursor();
                Some(IterMut::new(self, c, b, n, Ghost(p)))
            },
        }
    }
}

} // verus!
