//! Sorting a hive: the values move between the slots, the handles stay.

use vstd::prelude::*;

use crate::allocator::Allocator;
use crate::hive::{keeps_ties, rearranges, sorted_under, total_preorder, Hive};
use core::cmp::Ordering;
use vstd::std_specs::cmp::OrdSpec;

verus! {

/// `compare` never answers that `a` comes after `b`.
pub open spec fn le_by<T, F: Fn(&T, &T) -> Ordering>(compare: &F, a: T, b: T) -> bool {
    forall|o: Ordering| #[trigger] call_ensures(*compare, (&a, &b), o) ==> o != Ordering::Greater
}

/// `compare` accepts any two values, gives the same kind of answer each
/// time it is asked, and orders values totally and transitively.
pub open spec fn total_order_by<T, F: Fn(&T, &T) -> Ordering>(compare: &F) -> bool {
    &&& forall|a: T, b: T| #[trigger] call_requires(*compare, (&a, &b))
    &&& forall|a: T, b: T, o: Ordering|
        #[trigger] call_ensures(*compare, (&a, &b), o) && o != Ordering::Greater ==> le_by(compare, a, b)
    &&& total_preorder(|a: T, b: T| le_by(compare, a, b))
}

/// The order of `T` given by `Ord`: `a` does not come after `b`.
pub open spec fn ord_le<T: Ord>(a: T, b: T) -> bool {
    a.cmp_spec(&b) != Ordering::Greater
}

impl<T, A: Allocator> Hive<T, A> {
    /// Sorts the values with `compare`, stably, by insertion: at most a
    /// quadratic number of comparisons and swaps in the element count. The
    /// elements keep their handles' places: values move between the slots,
    /// so each handle afterwards names the value sorted into its position.
    pub fn sort_by<F: Fn(&T, &T) -> Ordering>(&mut self, compare: F)
        requires
            old(self).wf(),
            total_order_by(&compare),
        ensures
            final(self).wf(),
            final(self).handles() == old(self).handles(),
            final(self).elems().to_multiset() == old(self).elems().to_multiset(),
            sorted_under(|a: T, b: T| le_by(&compare, a, b), final(self).elems()),
            exists|perm: Seq<int>|
                rearranges(final(self).elems(), old(self).elems(), perm) && keeps_ties(
                    |a: T, b: T| le_by(&compare, a, b),
                    final(self).elems(),
                    perm,
                ),
            final(self).total_capacity() == old(self).total_capacity(),
            final(self).limits() == old(self).limits(),
            final(self).allocator_value() == old(self).allocator_value(),
            final(self).blocks_made() == old(self).blocks_made(),
            final(self).sizes_fit() == old(self).sizes_fit(),
            final(self).holes() == old(self).holes(),
            final(self).reserved_capacity() == old(self).reserved_capacity(),
    {
        let cf = &compare;
        let after = |a: &T, b: &T| -> (r: bool)
            requires
                total_order_by(cf),
            ensures
                r == !le_by(cf, *a, *b),
            {
                match cf(a, b) {
                    Ordering::Greater => true,
                    _ => false,
                }
            };
        self.insertion_sort(&after, Ghost(|a: T, b: T| le_by(cf, a, b)));
    }
}

impl<T: Ord, A: Allocator> Hive<T, A> {
    /// Sorts the values by their natural order, stably, by insertion; see
    /// `sort_by`.
    pub fn sort(&mut self)
        requires
            old(self).wf(),
            T::obeys_cmp_spec(),
            total_preorder(|a: T, b: T| ord_le(a, b)),
        ensures
            final(self).wf(),
            final(self).handles() == old(self).handles(),
            final(self).elems().to_multiset() == old(self).elems().to_multiset(),
            sorted_under(|a: T, b: T| ord_le(a, b), final(self).elems()),
            exists|perm: Seq<int>|
                rearranges(final(self).elems(), old(self).elems(), perm) && keeps_ties(
                    |a: T, b: T| ord_le(a, b),
                    final(self).elems(),
                    perm,
                ),
            final(self).total_capacity() == old(self).total_capacity(),
            final(self).limits() == old(self).limits(),
            final(self).allocator_value() == old(self).allocator_value(),
            final(self).blocks_made() == old(self).blocks_made(),
            final(self).sizes_fit() == old(self).sizes_fit(),
            final(self).holes() == old(self).holes(),
            final(self).reserved_capacity() == old(self).reserved_capacity(),
    {
        let after = |a: &T, b: &T| -> (r: bool)
            requires
                T::obeys_cmp_spec(),
            ensures
                r == !ord_le(*a, *b),
            {
                match a.cmp(b) {
                    Ordering::Greater => true,
                    _ => false,
                }
            };
        self.insertion_sort(&after, Ghost(|a: T, b: T| ord_le(a, b)));
    }
}

} // verus!
