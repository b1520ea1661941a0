//! Searching and sorting over vectors: a range-bounded recursive locator and
//! an in-place quicksort, both specified and verified down to the element.

pub mod search;
pub mod sort;

use vstd::prelude::*;

verus! {

use crate::search::lemma_probe_complete;
use crate::search::lemma_probe_sound;
use crate::search::probe;
use crate::sort::quicksort_helper;
use crate::sort::sorted;

/// Searching and sorting over an indexable collection of elements of `T`.
pub trait SearchSort<T> {
    /// Returns the index of an occurrence of `element` between the `start`
    /// and `end` indices, both included. An inverted range, a range reaching
    /// outside the collection, and a range free of the element all yield
    /// `None`.
    fn find_me(&self, element: T, start: usize, end: usize) -> Option<usize>;

    /// Sorts the collection in place, in ascending order.
    fn quicksort(&mut self);
}

impl SearchSort<i32> for Vec<i32> {
    fn find_me(&self, element: i32, start: usize, end: usize) -> (r: Option<usize>)
        ensures
            (match r {
                Some(i) => probe(self@, element, start as int, end as int) == Some(i as int),
                None => probe(self@, element, start as int, end as int) is None,
            }),
            r matches Some(i) ==> start <= i <= end < self@.len() && self@[i as int] == element,
            start <= end < self@.len() && (exists|k: int|
                start <= k <= end && self@[k] == element) ==> r is Some,
        decreases end + 1 - start,
    {
        proof {
            lemma_probe_sound(self@, element, start as int, end as int);
            if start <= end < self@.len() && exists|k: int|
                start <= k <= end && self@[k] == element {
                lemma_probe_complete(self@, element, start as int, end as int);
            }
        }
        if start > end || start >= self.len() || end >= self.len() {
            return None;
        }

        let middle: usize = start + (end - start) / 2;
        proof {
            assert(middle == (start + end) / 2) by (nonlinear_arith)
                requires
                    start <= end,
                    middle == start + (end - start) / 2,
            ;
        }

        if self[start] == element {
            return Some(start);
        }

        if self[end] == element {
            return Some(end);
        }

        if self[middle] == element {
            return Some(middle);
        } else {
            let lhs: Option<usize> = if middle == 0 {
                None
            } else {
                self.find_me(element, start, middle - 1)
            };
            let rhs: Option<usize> = self.find_me(element, middle + 1, end);

            if let Some(idx) = lhs {
                return Some(idx);
            }

            if let Some(idx) = rhs {
                return Some(idx);
            }
        }

        None
    }

    fn quicksort(&mut self)
        ensures
            sorted(final(self)@),
            final(self)@.to_multiset() == old(self)@.to_multiset(),
    {
        let n: usize = self.len();
        quicksort_helper(self, 0, n);
        proof {
            assert(self@.subrange(0, n as int) =~= self@);
        }
    }
}

} // verus!
