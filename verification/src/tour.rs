//! Tours: the visiting orders of the towns behind town 0.

use crate::lexical::is_rearrangement;
use vstd::prelude::*;
use vstd::seq_lib::*;

verus! {

/// The tour through `len` towns in the order of their numbers.
pub open spec fn identity(len: nat) -> Seq<usize> {
    Seq::new(len, |i: int| (i + 1) as usize)
}

/// A tour: the towns from 1 to `tour.len()` in the order of the
/// visits, each of them once. Town 0, where the round trip starts and
/// ends, is not written down.
pub open spec fn is_tour(tour: Seq<usize>) -> bool {
    is_rearrangement(identity(tour.len()), tour)
}

/// A tour holds no town twice, and only towns from 1 to its length.
pub proof fn lemma_tour_towns(tour: Seq<usize>)
    requires
        is_tour(tour),
        tour.len() < usize::MAX,
    ensures
        tour.no_duplicates(),
        forall|i: int| 0 <= i < tour.len() ==> 1 <= #[trigger] tour[i] <= tour.len(),
{
    let first = identity(tour.len());
    first.lemma_multiset_has_no_duplicates();
    tour.lemma_multiset_has_no_duplicates_conv();
    assert forall|i: int| 0 <= i < tour.len() implies 1 <= #[trigger] tour[i] <= tour.len() by {
        assert(tour.contains(tour[i]));
        to_multiset_contains(tour, tour[i]);
        to_multiset_contains(first, tour[i]);
        let k = choose|k: int| 0 <= k < first.len() && first[k] == tour[i];
        assert(first[k] == k + 1);
    }
}

/// Towns from 1 to their number, none of them twice, make a tour.
pub proof fn lemma_towns_make_tour(tour: Seq<usize>)
    requires
        tour.len() < usize::MAX,
        tour.no_duplicates(),
        forall|i: int| 0 <= i < tour.len() ==> 1 <= #[trigger] tour[i] <= tour.len(),
    ensures
        is_tour(tour),
{
    let first = identity(tour.len());
    assert(first.no_duplicates());
    tour.unique_seq_to_set();
    first.unique_seq_to_set();
    seq_to_set_is_finite(tour);
    seq_to_set_is_finite(first);
    assert forall|x: usize| tour.to_set().contains(x) implies first.to_set().contains(x) by {
        let i = choose|i: int| 0 <= i < tour.len() && tour[i] == x;
        assert(first[x - 1] == x);
    }
    vstd::set_lib::lemma_subset_equality(tour.to_set(), first.to_set());
    tour.lemma_multiset_has_no_duplicates();
    first.lemma_multiset_has_no_duplicates();
    assert forall|x: usize| tour.to_multiset().count(x) == first.to_multiset().count(x) by {
        to_multiset_contains(tour, x);
        to_multiset_contains(first, x);
        assert(tour.to_set().contains(x) == first.to_set().contains(x));
    }
    assert(tour.to_multiset() =~= first.to_multiset());
}

/// A tour in reverse is a tour.
pub proof fn lemma_reverse_is_tour(tour: Seq<usize>)
    requires
        is_tour(tour),
    ensures
        is_tour(tour.reverse()),
{
    tour.lemma_reverse_to_multiset();
}

} // verus!
