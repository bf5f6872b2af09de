//! The key under which a tour and its reverse are one route.

use crate::tour::identity;
use crate::tour::is_tour;
use crate::tour::lemma_reverse_is_tour;
use crate::tour::lemma_tour_towns;
use vstd::prelude::*;
use vstd::seq_lib::*;

verus! {

/// The number of towns that a key has room for, at four bits apiece.
pub const KEY_TOWNS: usize = 16;

/// A tour that a key has room for: at most `KEY_TOWNS` towns, numbered
/// from 1 to `KEY_TOWNS`.
pub open spec fn fits_key(tour: Seq<usize>) -> bool {
    &&& tour.len() <= KEY_TOWNS
    &&& forall|i: int| 0 <= i < tour.len() ==> 1 <= #[trigger] tour[i] <= KEY_TOWNS
}

/// The towns of `tour`, each less one, read as the digits of a number
/// in base sixteen, the first town in the highest place.
pub open spec fn packed(tour: Seq<usize>) -> nat
    decreases tour.len(),
{
    if tour.len() == 0 {
        0
    } else {
        packed(tour.drop_last()) * 16 + (tour.last() - 1) as nat
    }
}

/// The direction in which a tour is written into its key: as it stands
/// where it starts at a lesser town than it ends at, else in reverse.
pub open spec fn canonical(tour: Seq<usize>) -> Seq<usize> {
    if tour.len() > 0 && tour.first() < tour.last() {
        tour
    } else {
        tour.reverse()
    }
}

/// The key of `tour`.
pub open spec fn key_of(tour: Seq<usize>) -> nat {
    packed(canonical(tour))
}

/// Sixteen to the power of `places`.
pub open spec fn span(places: nat) -> nat
    decreases places,
{
    if places == 0 {
        1
    } else {
        16 * span((places - 1) as nat)
    }
}

/// A number of as many digits as the tour has towns holds its packing.
pub proof fn lemma_packed_below_span(tour: Seq<usize>)
    requires
        fits_key(tour),
    ensures
        packed(tour) < span(tour.len()),
    decreases tour.len(),
{
    if tour.len() > 0 {
        lemma_packed_below_span(tour.drop_last());
    }
}

proof fn lemma_span_grows(a: nat, b: nat)
    requires
        a <= b,
    ensures
        span(a) <= span(b),
    decreases b,
{
    if a < b {
        lemma_span_grows(a, (b - 1) as nat);
    }
}

proof fn lemma_room_for_digit(tour: Seq<usize>, key: u64)
    requires
        fits_key(tour),
        tour.len() < 16,
        key == packed(tour),
    ensures
        key < 0x1000_0000_0000_0000,
        key << 4 == key * 16,
{
    lemma_packed_below_span(tour);
    lemma_span_grows(tour.len(), 15);
    assert(span(15) == 0x1000_0000_0000_0000) by {
        reveal_with_fuel(span, 16);
    }
    assert(key << 4 == key * 16) by (bit_vector)
        requires
            key < 0x1000_0000_0000_0000u64,
    ;
}

/// The key of a tour that a key has room for is a number of 64 bits.
pub proof fn lemma_key_in_bounds(tour: Seq<usize>)
    requires
        fits_key(tour),
    ensures
        key_of(tour) <= u64::MAX,
{
    lemma_packed_below_span(canonical(tour));
    lemma_span_grows(canonical(tour).len(), 16);
    assert(span(16) == 0x1_0000_0000_0000_0000) by {
        reveal_with_fuel(span, 17);
    }
}

/// Tours of one length that pack to one number are one tour.
pub proof fn lemma_packed_injective(a: Seq<usize>, b: Seq<usize>)
    requires
        fits_key(a),
        fits_key(b),
        a.len() == b.len(),
        packed(a) == packed(b),
    ensures
        a == b,
    decreases a.len(),
{
    if a.len() > 0 {
        lemma_packed_injective(a.drop_last(), b.drop_last());
        assert(a =~= a.drop_last().push(a.last()));
        assert(b =~= b.drop_last().push(b.last()));
    } else {
        assert(a =~= b);
    }
}

/// A tour and its reverse have one key, provided that the tour does not
/// end at the town it starts at; no tour of two or more towns does.
pub proof fn lemma_key_ignores_direction(tour: Seq<usize>)
    requires
        tour.len() >= 2 ==> tour.first() != tour.last(),
    ensures
        key_of(tour.reverse()) == key_of(tour),
{
    let back = tour.reverse();
    assert(back.reverse() =~= tour);
    if tour.len() == 1 {
        assert(back =~= tour);
    }
}

/// Two tours of one length have one key only where they are one tour
/// or each the reverse of the other.
pub proof fn lemma_key_tells_routes_apart(a: Seq<usize>, b: Seq<usize>)
    requires
        fits_key(a),
        fits_key(b),
        a.len() == b.len(),
        key_of(a) == key_of(b),
    ensures
        a == b || a == b.reverse(),
{
    assert(a.reverse().reverse() =~= a);
    assert(b.reverse().reverse() =~= b);
    lemma_packed_injective(canonical(a), canonical(b));
}

proof fn lemma_packed_tail(a: Seq<usize>, b: Seq<usize>)
    requires
        fits_key(a),
        fits_key(b),
        a.len() <= b.len(),
        packed(a) == packed(b),
    ensures
        forall|i: int| 0 <= i < a.len() ==> #[trigger] a[i] == b[b.len() - a.len() + i],
        forall|i: int| 0 <= i < b.len() - a.len() ==> #[trigger] b[i] == 1,
    decreases b.len(),
{
    if b.len() > 0 {
        let shorter = b.drop_last();
        if a.len() == 0 {
            lemma_packed_tail(a, shorter);
            assert forall|i: int| 0 <= i < b.len() - a.len() implies #[trigger] b[i] == 1 by {
                if i < shorter.len() {
                    assert(shorter[i] == b[i]);
                }
            }
        } else {
            let rest = a.drop_last();
            lemma_packed_tail(rest, shorter);
            assert forall|i: int| 0 <= i < a.len() implies #[trigger] a[i] == b[b.len() - a.len()
                + i] by {
                if i < rest.len() {
                    assert(rest[i] == a[i]);
                    assert(shorter[shorter.len() - rest.len() + i] == b[b.len() - a.len() + i]);
                }
            }
            assert forall|i: int| 0 <= i < b.len() - a.len() implies #[trigger] b[i] == 1 by {
                assert(shorter[i] == b[i]);
            }
        }
    }
}

proof fn lemma_longer_tour_has_other_key(a: Seq<usize>, b: Seq<usize>)
    requires
        is_tour(a),
        is_tour(b),
        a.len() < b.len() <= KEY_TOWNS,
        key_of(a) == key_of(b),
    ensures
        b.len() == 1,
{
    let ca = canonical(a);
    let cb = canonical(b);
    lemma_reverse_is_tour(a);
    lemma_reverse_is_tour(b);
    lemma_tour_towns(ca);
    lemma_tour_towns(cb);
    lemma_packed_tail(ca, cb);
    if cb.len() - ca.len() >= 2 {
        assert(cb[0] == 1 && cb[1] == 1);
    } else if cb.len() >= 2 {
        let top = cb.len() as usize;
        let first = identity(cb.len());
        assert(first[cb.len() - 1] == top);
        assert(first.contains(top));
        to_multiset_contains(first, top);
        to_multiset_contains(cb, top);
        let p = choose|p: int| 0 <= p < cb.len() && cb[p] == top;
        assert(cb[0] == 1);
        assert(ca[p - 1] == cb[p]);
    }
}

/// Two tours have one key only where they are one tour or each the
/// reverse of the other; but the tour without towns and the tour to
/// one town have one key.
pub proof fn lemma_key_tells_tours_apart(a: Seq<usize>, b: Seq<usize>)
    requires
        is_tour(a),
        is_tour(b),
        a.len() <= KEY_TOWNS,
        b.len() <= KEY_TOWNS,
        key_of(a) == key_of(b),
    ensures
        a == b || a == b.reverse() || a.len() + b.len() == 1,
{
    if a.len() == b.len() {
        lemma_tour_towns(a);
        lemma_tour_towns(b);
        lemma_key_tells_routes_apart(a, b);
    } else if a.len() < b.len() {
        lemma_longer_tour_has_other_key(a, b);
    } else {
        lemma_longer_tour_has_other_key(b, a);
    }
}

/// The key of `tour`: its towns, each less one, packed four bits apiece
/// with the first in the highest place, the tour read from whichever
/// end holds the lesser town. The tour without towns has the key 0.
pub fn tour_as_key(tour: &[usize]) -> (key: u64)
    requires
        fits_key(tour@),
    ensures
        key == key_of(tour@),
{
    let n = tour.len();
    let mut key: u64 = 0;
    if n > 0 && tour[0] < tour[n - 1] {
        let mut i: usize = 0;
        while i < n
            invariant
                i <= n,
                n == tour@.len(),
                fits_key(tour@),
                key == packed(tour@.take(i as int)),
            decreases n - i,
        {
            proof {
                lemma_room_for_digit(tour@.take(i as int), key);
                assert(tour@.take(i + 1).drop_last() =~= tour@.take(i as int));
            }
            key = (key << 4) + (tour[i] - 1) as u64;
            i += 1;
        }
        proof {
            assert(tour@.take(n as int) =~= tour@);
        }
    } else {
        let ghost back = tour@.reverse();
        let mut i: usize = n;
        while i > 0
            invariant
                i <= n,
                n == tour@.len(),
                fits_key(tour@),
                back == tour@.reverse(),
                key == packed(back.take(n - i)),
            decreases i,
        {
            proof {
                lemma_room_for_digit(back.take(n - i), key);
                assert(back.take(n - i + 1).drop_last() =~= back.take(n - i));
            }
            i -= 1;
            key = (key << 4) + (tour[i] - 1) as u64;
        }
        proof {
            assert(back.take(n as int) =~= back);
        }
    }
    key
}

/// The key of `tour`, or `None` where the tour is more than a key has
/// room for.
pub fn checked_tour_as_key(tour: &[usize]) -> (key: Option<u64>)
    ensures
        match key {
            Some(k) => fits_key(tour@) && k == key_of(tour@),
            None => !fits_key(tour@),
        },
{
    let n = tour.len();
    if n > KEY_TOWNS {
        return None;
    }
    let mut i: usize = 0;
    while i < n
        invariant
            i <= n,
            n == tour@.len(),
            forall|k: int| 0 <= k < i ==> 1 <= #[trigger] tour@[k] <= KEY_TOWNS,
        decreases n - i,
    {
        if tour[i] < 1 || tour[i] > KEY_TOWNS {
            return None;
        }
        i += 1;
    }
    Some(tour_as_key(tour))
}

} // verus!
