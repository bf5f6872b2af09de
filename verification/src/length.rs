//! The distances that the length of a round trip adds up.

use crate::distance::is_square;
use crate::distance::is_symmetric;
use crate::distance::table;
use vstd::prelude::*;

verus! {

/// The table has a row for every town of the tour.
pub open spec fn within<D>(dist: Seq<Seq<D>>, tour: Seq<usize>) -> bool {
    forall|i: int| 0 <= i < tour.len() ==> #[trigger] tour[i] < dist.len()
}

/// The towns of the round trip in the order of the visits, town 0
/// first and last.
pub open spec fn stops(tour: Seq<usize>) -> Seq<usize> {
    seq![0usize] + tour + seq![0usize]
}

/// The distances that add up to the length of the round trip, one for
/// each move from a town to the next. A tour without towns has none.
pub open spec fn round_trip<D>(dist: Seq<Seq<D>>, tour: Seq<usize>) -> Seq<D> {
    if tour.len() == 0 {
        Seq::empty()
    } else {
        Seq::new(
            tour.len() + 1,
            |k: int| dist[stops(tour)[k] as int][stops(tour)[k + 1] as int],
        )
    }
}

/// Where the distances are symmetric, the round trip in the other
/// direction adds up the same distances in reverse order.
pub proof fn lemma_round_trip_reversed<D>(dist: Seq<Seq<D>>, tour: Seq<usize>)
    requires
        is_square(dist),
        is_symmetric(dist),
        within(dist, tour),
    ensures
        round_trip(dist, tour.reverse()) == round_trip(dist, tour).reverse(),
        round_trip(dist, tour.reverse()).to_multiset() == round_trip(dist, tour).to_multiset(),
{
    let back = tour.reverse();
    let there = round_trip(dist, tour);
    let home = round_trip(dist, back);
    if tour.len() > 0 {
        assert forall|k: int| 0 <= k < home.len() implies home[k] == there.reverse()[k] by {
            let n = tour.len() as int;
            assert(stops(back)[k] == stops(tour)[n + 1 - k]);
            assert(stops(back)[k + 1] == stops(tour)[n - k]);
            let from = stops(tour)[n - k] as int;
            let to = stops(tour)[n + 1 - k] as int;
            assert(0 <= from < dist.len()) by {
                if 0 < n - k {
                    assert(stops(tour)[n - k] == tour[n - k - 1]);
                }
            }
            assert(0 <= to < dist.len()) by {
                if k > 0 {
                    assert(stops(tour)[n + 1 - k] == tour[n - k]);
                }
            }
            assert(dist[to][from] == dist[from][to]);
        }
    }
    assert(home =~= there.reverse());
    there.lemma_reverse_to_multiset();
}

/// Where the distances are symmetric, a total that does not depend on
/// the order of its terms gives one length for a round trip and for
/// the round trip in the other direction.
pub proof fn lemma_length_ignores_direction<D, L>(
    dist: Seq<Seq<D>>,
    tour: Seq<usize>,
    total: spec_fn(Seq<D>) -> L,
)
    requires
        is_square(dist),
        is_symmetric(dist),
        within(dist, tour),
        forall|a: Seq<D>, b: Seq<D>|
            a.to_multiset() == b.to_multiset() ==> #[trigger] total(a) == #[trigger] total(b),
    ensures
        total(round_trip(dist, tour.reverse())) == total(round_trip(dist, tour)),
{
    lemma_round_trip_reversed(dist, tour);
}

/// The length of the round trip through `tour`: the total, found by
/// one call of `total`, of the distances from town 0 to the first
/// town, from each town to the next, and from the last town back to
/// town 0.
pub fn calc_tour_length<D: Copy, L, F: Fn(Vec<D>) -> L>(
    dist_mat: &[Vec<D>],
    tour: &[usize],
    total: F,
) -> (length: L)
    requires
        tour@.len() > 0 ==> is_square(table(dist_mat@)) && within(table(dist_mat@), tour@),
        forall|terms: Vec<D>|
            terms@ == round_trip(table(dist_mat@), tour@) ==> call_requires(total, (terms,)),
    ensures
        exists|terms: Vec<D>|
            terms@ == round_trip(table(dist_mat@), tour@) && call_ensures(total, (terms,), length),
{
    total(round_trip_terms(dist_mat, tour))
}

/// The distances that add up to the length of the round trip through
/// `tour`: from town 0 to the first town, from each town to the next,
/// and from the last town back to town 0.
pub fn round_trip_terms<D: Copy>(dist_mat: &[Vec<D>], tour: &[usize]) -> (terms: Vec<D>)
    requires
        tour@.len() > 0 ==> is_square(table(dist_mat@)) && within(table(dist_mat@), tour@),
    ensures
        terms@ == round_trip(table(dist_mat@), tour@),
{
    let n = tour.len();
    let mut terms: Vec<D> = Vec::new();
    if n == 0 {
        return terms;
    }
    let ghost dist = table(dist_mat@);
    let ghost all = round_trip(dist, tour@);
    assert(tour@[0] < dist.len());
    assert(dist[0].len() == dist.len());
    terms.push(dist_mat[0][tour[0]]);
    let mut i: usize = 0;
    while i < n - 1
        invariant
            n == tour@.len(),
            n > 0,
            i <= n - 1,
            dist == table(dist_mat@),
            all == round_trip(dist, tour@),
            is_square(dist),
            within(dist, tour@),
            terms@ == all.take(i + 1),
        decreases n - i,
    {
        assert(tour@[i + 1] < dist.len());
        assert(dist[tour@[i as int] as int].len() == dist.len());
        terms.push(dist_mat[tour[i]][tour[i + 1]]);
        i += 1;
        assert(terms@ =~= all.take(i + 1));
    }
    assert(dist[tour@[n - 1] as int].len() == dist.len());
    terms.push(dist_mat[tour[n - 1]][0]);
    assert(terms@ =~= all);
    terms
}

} // verus!
