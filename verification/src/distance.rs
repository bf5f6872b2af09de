//! The table of the distances between every two towns.

use vstd::prelude::*;

verus! {

/// The rows of a distance table.
pub open spec fn table<D>(rows: Seq<Vec<D>>) -> Seq<Seq<D>> {
    Seq::new(rows.len(), |r: int| rows[r]@)
}

/// The table has as many columns in each row as it has rows.
pub open spec fn is_square<D>(dist: Seq<Seq<D>>) -> bool {
    forall|r: int| 0 <= r < dist.len() ==> (#[trigger] dist[r]).len() == dist.len()
}

/// The table holds one distance for a pair of towns, whichever of them
/// comes first.
pub open spec fn is_symmetric<D>(dist: Seq<Seq<D>>) -> bool {
    forall|a: int, b: int|
        0 <= a < dist.len() && 0 <= b < dist.len() ==> dist[a][b] == dist[b][a]
}

/// Every entry of the table is a distance that `distance` can give for
/// the point of its row and the point of its column.
pub open spec fn built_by<P, D, F: Fn(&P, &P) -> D>(
    dist: Seq<Seq<D>>,
    points: Seq<P>,
    distance: F,
) -> bool {
    &&& dist.len() == points.len()
    &&& is_square(dist)
    &&& forall|a: int, b: int|
        0 <= a < points.len() && 0 <= b < points.len() ==> call_ensures(
            distance,
            (&points[a], &points[b]),
            #[trigger] dist[a][b],
        )
}

/// The table of the distances between every two of the towns, each of
/// them found by one call of `distance`: in row `a` and column `b`
/// stands the distance from town `a` to town `b`.
pub fn make_dist_mat<P, D, F: Fn(&P, &P) -> D>(towns: &[P], distance: F) -> (dist_mat: Vec<Vec<D>>)
    requires
        forall|a: int, b: int|
            0 <= a < towns@.len() && 0 <= b < towns@.len() ==> call_requires(
                distance,
                (&#[trigger] towns@[a], &#[trigger] towns@[b]),
            ),
    ensures
        built_by(table(dist_mat@), towns@, distance),
{
    let n = towns.len();
    let mut dist_mat: Vec<Vec<D>> = Vec::with_capacity(n);
    let mut a: usize = 0;
    while a < n
        invariant
            n == towns@.len(),
            a <= n,
            dist_mat@.len() == a,
            forall|r: int| 0 <= r < a ==> (#[trigger] dist_mat@[r])@.len() == n,
            forall|r: int, c: int|
                0 <= r < a && 0 <= c < n ==> call_ensures(
                    distance,
                    (&towns@[r], &towns@[c]),
                    #[trigger] dist_mat@[r]@[c],
                ),
            forall|x: int, y: int|
                0 <= x < towns@.len() && 0 <= y < towns@.len() ==> call_requires(
                    distance,
                    (&#[trigger] towns@[x], &#[trigger] towns@[y]),
                ),
        decreases n - a,
    {
        let mut row: Vec<D> = Vec::with_capacity(n);
        let mut b: usize = 0;
        while b < n
            invariant
                n == towns@.len(),
                a < n,
                b <= n,
                row@.len() == b,
                forall|c: int|
                    0 <= c < b ==> call_ensures(
                        distance,
                        (&towns@[a as int], &towns@[c]),
                        #[trigger] row@[c],
                    ),
                forall|x: int, y: int|
                    0 <= x < towns@.len() && 0 <= y < towns@.len() ==> call_requires(
                        distance,
                        (&#[trigger] towns@[x], &#[trigger] towns@[y]),
                    ),
            decreases n - b,
        {
            row.push(distance(&towns[a], &towns[b]));
            b += 1;
        }
        dist_mat.push(row);
        a += 1;
    }
    dist_mat
}

/// A table is symmetric where it is built by a `distance` that gives
/// one value for two points, whichever of them comes first.
pub proof fn lemma_built_symmetric<P, D, F: Fn(&P, &P) -> D>(
    dist: Seq<Seq<D>>,
    points: Seq<P>,
    distance: F,
)
    requires
        built_by(dist, points, distance),
        forall|a: &P, b: &P, there: D, back: D|
            call_ensures(distance, (a, b), there) && call_ensures(distance, (b, a), back)
                ==> there == back,
    ensures
        is_symmetric(dist),
{
    assert forall|a: int, b: int|
        0 <= a < dist.len() && 0 <= b < dist.len() implies dist[a][b] == dist[b][a] by {
        assert(call_ensures(distance, (&points[a], &points[b]), dist[a][b]));
        assert(call_ensures(distance, (&points[b], &points[a]), dist[b][a]));
    }
}

} // verus!
