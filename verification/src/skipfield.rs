//! Cursors, and the jump-counting skipfield walks that move them from one
//! occupied slot to the next.
use vstd::prelude::*;

use crate::group::{vacant_range, Group};

verus! {

/// A position in a hive: a block (by its place in the hive's block order)
/// and a slot within it. The null cursor has no block.
#[derive(Clone, Copy, Debug, PartialEq, Eq, Structural)]
pub struct Cursor {
    pub group: Option<usize>,
    pub index: u16,
}

impl Cursor {
    /// The cursor that points nowhere.
    pub fn null() -> (c: Self)
        ensures
            c.group is None,
            c.index == 0,
    {
        Cursor { group: None, index: 0 }
    }

    /// Whether the cursor points nowhere.
    pub fn is_null(&self) -> (b: bool)
        ensures
            b == self.group is None,
    {
        self.group.is_none()
    }
}

impl<T> Group<T> {
    /// The first occupied slot, or `e` if the first `e` slots are all vacant.
    pub(crate) fn first_live(&self, Ghost(e): Ghost<int>) -> (r: u16)
        requires
            self.shape_ok(),
            self.skip_ok(e),
        ensures
            r <= e,
            vacant_range(self.slots@, 0, r as int),
            r < e ==> self.live(r as int),
    {
        let v = self.skipfield[0];
        if v == 0 {
            proof {
                if 0 < e {
                    assert(self.live(0) <==> self.sf(0) == 0);
                }
            }
            0
        } else {
            proof {
                if e == 0 {
                    assert(self.sf(0) == 0);
                }
                assert(self.live(0) <==> self.sf(0) == 0);
                assert(self.is_run_start(0, e));
                assert(self.run_start_ok(0, e));
            }
            v
        }
    }

    /// The next occupied slot after occupied slot `i`, or `e` if there is
    /// none among the first `e`.
    pub(crate) fn next_live(&self, i: u16, Ghost(e): Ghost<int>) -> (r: u16)
        requires
            self.shape_ok(),
            self.skip_ok(e),
            i < e,
            self.live(i as int),
        ensures
            i < r <= e,
            vacant_range(self.slots@, i + 1, r as int),
            r < e ==> self.live(r as int),
    {
        let j = i + 1;
        let v = self.skipfield[j as usize];
        if v == 0 {
            proof {
                if (j as int) < e {
                    assert(self.live(j as int) <==> self.sf(j as int) == 0);
                }
            }
            j
        } else {
            proof {
                if (j as int) >= e {
                    assert(self.sf(j as int) == 0);
                }
                assert(self.live(j as int) <==> self.sf(j as int) == 0);
                assert(self.is_run_start(j as int, e));
                assert(self.run_start_ok(j as int, e));
            }
            j + v
        }
    }

    /// The last occupied slot before slot `i` (occupied, or `e`), if any.
    pub(crate) fn prev_live(&self, i: u16, Ghost(e): Ghost<int>) -> (r: Option<u16>)
        requires
            self.shape_ok(),
            self.skip_ok(e),
            i <= e,
            i == e || self.live(i as int),
        ensures
            match r {
                Some(j) => j < i && self.live(j as int) && vacant_range(self.slots@, j + 1, i as int),
                None => vacant_range(self.slots@, 0, i as int),
            },
    {
        if i == 0 {
            return None;
        }
        let t = i - 1;
        let v = self.skipfield[t as usize];
        proof {
            assert(self.live(t as int) <==> self.sf(t as int) == 0);
        }
        if v == 0 {
            Some(t)
        } else {
            proof {
                assert(self.is_run_end(t as int, e));
                assert(self.run_end_ok(t as int, e));
                let s = t - v + 1;
                assert(self.is_run_start(s, e));
                assert(self.run_start_ok(s, e));
            }
            let start = i - v;
            if start == 0 {
                None
            } else {
                Some(start - 1)
            }
        }
    }
}

} // verus!
