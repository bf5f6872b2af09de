//! Stepping a sequence to its next arrangement in lexical order.

use crate::lexical::descends_from;
use crate::lexical::is_last_arrangement;
use crate::lexical::is_later_arrangement;
use crate::lexical::is_next_arrangement;
use crate::lexical::lemma_descending_is_last;
use crate::lexical::lemma_stepped_is_next;
use crate::lexical::stepped;
use crate::lexical::swapped;
use crate::lexical::tail_reversed;
use crate::order::before;
use crate::order::lawful_order;
use crate::order::lemma_strict_total_order;
use crate::order::precedes;
use vstd::prelude::*;

verus! {

/// `<[T]>::swap` exchanges the elements at two indices of the slice and
/// leaves the others in place; it panics when an index is out of bounds.
pub assume_specification<T>[ <[T]>::swap ](s: &mut [T], a: usize, b: usize)
    requires
        a < old(s)@.len(),
        b < old(s)@.len(),
    ensures
        final(s)@ == old(s)@.update(a as int, old(s)@[b as int]).update(b as int, old(s)@[a as int]),
;

/// Sequences that can be stepped through their arrangements in lexical
/// order.
pub trait LexicalPermutation {
    /// What the implementor asks of the order of its elements.
    spec fn comparable(&self) -> bool;

    /// Rearranges the sequence into the next arrangement of its elements
    /// in lexical order and reports `true`; reports `false`, and leaves
    /// the sequence as it is, when no arrangement comes after it.
    fn next_permutation(&mut self) -> (advanced: bool)
        requires
            old(self).comparable(),
    ;
}

impl<E: Ord> LexicalPermutation for [E] {
    open spec fn comparable(&self) -> bool {
        lawful_order::<E>()
    }

    fn next_permutation(&mut self) -> (advanced: bool)
        ensures
            advanced <==> !is_last_arrangement(old(self)@),
            advanced ==> is_next_arrangement(old(self)@, final(self)@),
            !advanced ==> final(self)@ == old(self)@,
            old(self)@.len() < 2 ==> !advanced,
    {
        let ghost s = self@;
        let n = self.len();
        if n < 2 {
            proof {
                lemma_descending_is_last(s);
            }
            return false;
        }
        proof {
            lemma_strict_total_order::<E>();
        }
        // the tail that descends
        let mut i: usize = n - 1;
        while i > 0 && !precedes(&self[i - 1], &self[i])
            invariant
                lawful_order::<E>(),
                self@ == s,
                n == s.len(),
                i < n,
                descends_from(s, i as int),
            decreases i,
        {
            proof {
                lemma_strict_total_order::<E>();
                assert forall|a: int, b: int| i - 1 <= a < b < s.len() implies !before(
                    s[a],
                    s[b],
                ) by {
                    if a == i - 1 && b > i {
                        assert(!before(s[i as int], s[b]));
                    }
                }
            }
            i -= 1;
        }
        if i == 0 {
            proof {
                lemma_descending_is_last(s);
            }
            return false;
        }
        // the last element behind the pivot that exceeds it
        let mut j: usize = n - 1;
        while j >= i && !precedes(&self[i - 1], &self[j])
            invariant
                lawful_order::<E>(),
                self@ == s,
                n == s.len(),
                0 < i <= j < n,
                before(s[i - 1], s[i as int]),
                forall|k: int| j < k < n ==> !before(s[i - 1], #[trigger] s[k]),
            decreases j,
        {
            j -= 1;
        }
        self.swap(j, i - 1);
        let ghost w = swapped(s, i - 1, j as int);
        let ghost t = stepped(s, i as int, j as int);
        assert(self@ =~= w);
        // put the tail in ascending order
        let mut lo: usize = i;
        let mut hi: usize = n - 1;
        while lo < hi
            invariant
                n == s.len(),
                self@.len() == n,
                w.len() == n,
                t == tail_reversed(w, i as int),
                0 < i <= lo,
                hi < n,
                lo + hi == i + n - 1,
                forall|k: int| 0 <= k < lo ==> self@[k] == t[k],
                forall|k: int| hi < k < n ==> self@[k] == t[k],
                forall|k: int| lo <= k <= hi ==> self@[k] == w[k],
            decreases hi,
        {
            self.swap(lo, hi);
            lo += 1;
            hi -= 1;
        }
        proof {
            assert(self@ =~= t);
            lemma_stepped_is_next(s, i as int, j as int);
            assert(is_later_arrangement(s, t));
        }
        true
    }
}

} // verus!
