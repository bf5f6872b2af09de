//! Lexical order on the arrangements of one collection of elements.

use crate::order::before;
use crate::order::lawful_order;
use crate::order::lemma_strict_total_order;
use vstd::prelude::*;
use vstd::seq_lib::*;

verus! {

/// `b` holds the elements of `a`, each of them as often as `a` does.
pub open spec fn is_rearrangement<E>(a: Seq<E>, b: Seq<E>) -> bool {
    a.to_multiset() == b.to_multiset()
}

/// `a` and `b` agree before index `k`, where `a` holds the lesser element.
pub open spec fn leads_at<E: Ord>(a: Seq<E>, b: Seq<E>, k: int) -> bool {
    &&& 0 <= k < a.len()
    &&& k < b.len()
    &&& forall|i: int| 0 <= i < k ==> a[i] == b[i]
    &&& before(a[k], b[k])
}

/// `a` comes before `b` in lexical order: `a` holds the lesser element at
/// the first index where they differ, or `a` is `b` cut short.
pub open spec fn lex_before<E: Ord>(a: Seq<E>, b: Seq<E>) -> bool {
    ||| exists|k: int| leads_at(a, b, k)
    ||| (a.len() < b.len() && forall|i: int| 0 <= i < a.len() ==> a[i] == b[i])
}

/// `t` is an arrangement of the elements of `s` that comes after `s`.
pub open spec fn is_later_arrangement<E: Ord>(s: Seq<E>, t: Seq<E>) -> bool {
    is_rearrangement(s, t) && lex_before(s, t)
}

/// No arrangement of the elements of `s` comes after `s`.
pub open spec fn is_last_arrangement<E: Ord>(s: Seq<E>) -> bool {
    forall|t: Seq<E>| !#[trigger] is_later_arrangement(s, t)
}

/// `t` is the first of the arrangements that come after `s`.
pub open spec fn is_next_arrangement<E: Ord>(s: Seq<E>, t: Seq<E>) -> bool {
    &&& is_later_arrangement(s, t)
    &&& forall|u: Seq<E>| #[trigger] is_later_arrangement(s, u) ==> !lex_before(u, t)
}

/// From index `from` on, no element of `s` is followed by a greater one.
pub open spec fn descends_from<E: Ord>(s: Seq<E>, from: int) -> bool {
    forall|a: int, b: int| from <= a < b < s.len() ==> !before(s[a], s[b])
}

/// From index `from` on, no element of `s` is followed by a lesser one.
pub open spec fn ascends_from<E: Ord>(s: Seq<E>, from: int) -> bool {
    forall|a: int, b: int| from <= a < b < s.len() ==> !before(s[b], s[a])
}

/// `s` with the elements at `a` and `b` exchanged.
pub open spec fn swapped<E>(s: Seq<E>, a: int, b: int) -> Seq<E> {
    s.update(a, s[b]).update(b, s[a])
}

/// `s` with the part from index `from` on in reverse.
pub open spec fn tail_reversed<E>(s: Seq<E>, from: int) -> Seq<E> {
    Seq::new(s.len(), |k: int| if k < from { s[k] } else { s[s.len() - 1 - (k - from)] })
}

/// The pivot of `s` is the element before index `i`: it is followed by a
/// greater element, and nothing after it is.
pub open spec fn is_pivot_end<E: Ord>(s: Seq<E>, i: int) -> bool {
    &&& 0 < i < s.len()
    &&& before(s[i - 1], s[i])
    &&& descends_from(s, i)
}

/// Index `j` holds the last element after the pivot that exceeds it.
pub open spec fn is_pivot_successor<E: Ord>(s: Seq<E>, i: int, j: int) -> bool {
    &&& i <= j < s.len()
    &&& before(s[i - 1], s[j])
    &&& forall|k: int| j < k < s.len() ==> !before(s[i - 1], #[trigger] s[k])
}

/// `s` after the pivot has changed places with its successor and the part
/// behind it has been put in ascending order.
pub open spec fn stepped<E>(s: Seq<E>, i: int, j: int) -> Seq<E> {
    tail_reversed(swapped(s, i - 1, j), i)
}

/// Arrangements of one collection are equally long.
pub proof fn lemma_rearrangement_len<E>(a: Seq<E>, b: Seq<E>)
    requires
        is_rearrangement(a, b),
    ensures
        a.len() == b.len(),
{
    to_multiset_len(a);
    to_multiset_len(b);
}

/// Behind a common beginning, two arrangements of one collection hold
/// the same elements.
pub proof fn lemma_tails_rearranged<E>(s: Seq<E>, u: Seq<E>, d: int)
    requires
        is_rearrangement(s, u),
        0 <= d <= s.len(),
        forall|i: int| 0 <= i < d ==> s[i] == u[i],
    ensures
        is_rearrangement(s.skip(d), u.skip(d)),
{
    lemma_rearrangement_len(s, u);
    assert(s.take(d) =~= u.take(d));
    assert(s =~= s.take(d) + s.skip(d));
    assert(u =~= u.take(d) + u.skip(d));
    lemma_multiset_commutative(s.take(d), s.skip(d));
    lemma_multiset_commutative(u.take(d), u.skip(d));
    let head = s.take(d).to_multiset();
    assert forall|x: E| s.skip(d).to_multiset().count(x) == u.skip(d).to_multiset().count(x) by {
        assert(head.add(s.skip(d).to_multiset()).count(x) == head.add(
            u.skip(d).to_multiset(),
        ).count(x));
    }
    assert(s.skip(d).to_multiset() =~= u.skip(d).to_multiset());
}

/// Behind a common beginning, what one arrangement holds at an index
/// the other holds at that index or later.
pub proof fn lemma_found_in_tail<E>(s: Seq<E>, u: Seq<E>, d: int) -> (k: int)
    requires
        is_rearrangement(s, u),
        0 <= d < s.len(),
        forall|i: int| 0 <= i < d ==> s[i] == u[i],
    ensures
        d <= k < s.len(),
        s[k] == u[d],
{
    lemma_rearrangement_len(s, u);
    lemma_tails_rearranged(s, u, d);
    assert(u.skip(d)[0] == u[d]);
    assert(u.skip(d).contains(u[d]));
    to_multiset_contains(u.skip(d), u[d]);
    to_multiset_contains(s.skip(d), u[d]);
    let m = choose|m: int| 0 <= m < s.skip(d).len() && s.skip(d)[m] == u[d];
    d + m
}

/// A later arrangement differs first before the descending tail begins.
pub proof fn lemma_gap_before_descent<E: Ord>(s: Seq<E>, t: Seq<E>, from: int, d: int)
    requires
        lawful_order::<E>(),
        0 <= from,
        descends_from(s, from),
        is_rearrangement(s, t),
        leads_at(s, t, d),
    ensures
        d < from,
{
    lemma_strict_total_order::<E>();
    if d >= from {
        let k = lemma_found_in_tail(s, t, d);
        assert(before(s[d], s[k]));
    }
}

/// A sequence that descends throughout is the last arrangement.
pub proof fn lemma_descending_is_last<E: Ord>(s: Seq<E>)
    requires
        lawful_order::<E>(),
        descends_from(s, 0),
    ensures
        is_last_arrangement(s),
{
    assert forall|t: Seq<E>| !#[trigger] is_later_arrangement(s, t) by {
        if is_later_arrangement(s, t) {
            lemma_rearrangement_len(s, t);
            let d = choose|d: int| leads_at(s, t, d);
            lemma_gap_before_descent(s, t, 0, d);
        }
    }
}

/// Exchanging two elements rearranges.
pub proof fn lemma_swapped_rearranges<E>(s: Seq<E>, a: int, b: int)
    requires
        0 <= a < s.len(),
        0 <= b < s.len(),
    ensures
        is_rearrangement(s, swapped(s, a, b)),
{
    broadcast use vstd::multiset::group_multiset_axioms;

    let mid = s.update(a, s[b]);
    to_multiset_update(s, a, s[b]);
    to_multiset_update(mid, b, s[a]);
    to_multiset_contains(s, s[a]);
    to_multiset_contains(s, s[b]);
    assert(s.contains(s[a]));
    assert(s.contains(s[b]));
    assert(swapped(s, a, b).to_multiset() =~= s.to_multiset());
}

/// Reversing a tail rearranges.
pub proof fn lemma_tail_reversed_rearranges<E>(s: Seq<E>, from: int)
    requires
        0 <= from <= s.len(),
    ensures
        is_rearrangement(s, tail_reversed(s, from)),
{
    let t = tail_reversed(s, from);
    assert(s =~= s.take(from) + s.skip(from));
    assert(t =~= s.take(from) + s.skip(from).reverse());
    lemma_multiset_commutative(s.take(from), s.skip(from));
    lemma_multiset_commutative(s.take(from), s.skip(from).reverse());
    s.skip(from).lemma_reverse_to_multiset();
}

/// The step at the pivot leaves the part behind the pivot in ascending
/// order.
pub proof fn lemma_stepped_tail_ascends<E: Ord>(s: Seq<E>, i: int, j: int)
    requires
        lawful_order::<E>(),
        is_pivot_end(s, i),
        is_pivot_successor(s, i, j),
    ensures
        ascends_from(stepped(s, i, j), i),
{
    lemma_strict_total_order::<E>();
    let p = i - 1;
    let w = swapped(s, p, j);
    let t = stepped(s, i, j);
    assert(descends_from(w, i)) by {
        assert forall|a: int, b: int| i <= a < b < w.len() implies !before(w[a], w[b]) by {
            if a == j {
                assert(!before(s[p], s[b]));
            } else if b == j {
                assert(!before(s[a], s[j]));
                if before(s[a], s[p]) {
                    assert(before(s[a], s[j]));
                }
            } else {
                assert(!before(s[a], s[b]));
            }
        }
    }
    assert forall|a: int, b: int| i <= a < b < t.len() implies !before(t[b], t[a]) by {
        let ra = s.len() - 1 - (a - i);
        let rb = s.len() - 1 - (b - i);
        assert(!before(w[rb], w[ra]));
    }
}

/// The step at the pivot rearranges.
pub proof fn lemma_stepped_rearranges<E>(s: Seq<E>, i: int, j: int)
    requires
        0 < i <= j < s.len(),
    ensures
        is_rearrangement(s, stepped(s, i, j)),
{
    lemma_swapped_rearranges(s, i - 1, j);
    lemma_tail_reversed_rearranges(swapped(s, i - 1, j), i);
}

/// The step at the pivot leads to the next arrangement.
pub proof fn lemma_stepped_is_next<E: Ord>(s: Seq<E>, i: int, j: int)
    requires
        lawful_order::<E>(),
        is_pivot_end(s, i),
        is_pivot_successor(s, i, j),
    ensures
        is_next_arrangement(s, stepped(s, i, j)),
{
    lemma_strict_total_order::<E>();
    let p = i - 1;
    let t = stepped(s, i, j);
    lemma_stepped_rearranges(s, i, j);
    lemma_stepped_tail_ascends(s, i, j);
    assert(leads_at(s, t, p));
    assert forall|u: Seq<E>| #[trigger] is_later_arrangement(s, u) implies !lex_before(u, t) by {
        lemma_rearrangement_len(s, u);
        lemma_rearrangement_len(s, t);
        let d = choose|d: int| leads_at(s, u, d);
        lemma_gap_before_descent(s, u, i, d);
        if lex_before(u, t) {
            let e = choose|e: int| leads_at(u, t, e);
            if d < p {
                assert(t[d] == s[d]);
                if e < d {
                    assert(u[e] == s[e]);
                } else if e > d {
                    assert(u[d] == t[d]);
                }
            } else {
                if e < p {
                    assert(u[e] == s[e]);
                } else if e == p {
                    let k = lemma_found_in_tail(s, u, p);
                    assert(before(s[p], s[k]));
                    assert(k <= j);
                    assert(!before(s[k], s[j]));
                } else {
                    let k = lemma_found_in_tail(t, u, e);
                    assert(before(t[k], t[e]));
                }
            }
        }
    }
}

/// The first index at which two different sequences of one length
/// differ.
pub proof fn lemma_first_difference<E>(a: Seq<E>, b: Seq<E>, upto: int) -> (d: int)
    requires
        a.len() == b.len(),
        a != b,
        0 <= upto <= a.len(),
        forall|i: int| 0 <= i < upto ==> a[i] == b[i],
    ensures
        0 <= d < a.len(),
        forall|i: int| 0 <= i < d ==> a[i] == b[i],
        a[d] != b[d],
    decreases a.len() - upto,
{
    if upto == a.len() {
        assert(a =~= b);
        upto
    } else if a[upto] != b[upto] {
        upto
    } else {
        lemma_first_difference(a, b, upto + 1)
    }
}

/// Of two different sequences of one length, one comes before the
/// other.
pub proof fn lemma_lex_total<E: Ord>(a: Seq<E>, b: Seq<E>)
    requires
        lawful_order::<E>(),
        a.len() == b.len(),
        a != b,
    ensures
        lex_before(a, b) || lex_before(b, a),
{
    lemma_strict_total_order::<E>();
    let d = lemma_first_difference(a, b, 0);
    if before(a[d], b[d]) {
        assert(leads_at(a, b, d));
    } else {
        assert(leads_at(b, a, d));
    }
}

/// No sequence comes both before and after another of its length, nor
/// before itself.
pub proof fn lemma_lex_asymmetric<E: Ord>(a: Seq<E>, b: Seq<E>)
    requires
        lawful_order::<E>(),
        a.len() == b.len(),
        lex_before(a, b),
    ensures
        !lex_before(b, a),
        a != b,
{
    lemma_strict_total_order::<E>();
    let d = choose|d: int| leads_at(a, b, d);
    if lex_before(b, a) {
        let e = choose|e: int| leads_at(b, a, e);
        if e < d {
            assert(a[e] == b[e]);
        } else if d < e {
            assert(b[d] == a[d]);
        }
    }
}

/// Among sequences of one length, what comes before an earlier
/// sequence comes before a later one.
pub proof fn lemma_lex_transitive<E: Ord>(a: Seq<E>, b: Seq<E>, c: Seq<E>)
    requires
        lawful_order::<E>(),
        a.len() == b.len(),
        b.len() == c.len(),
        lex_before(a, b),
        lex_before(b, c),
    ensures
        lex_before(a, c),
{
    lemma_strict_total_order::<E>();
    let d = choose|d: int| leads_at(a, b, d);
    let e = choose|e: int| leads_at(b, c, e);
    if d < e {
        assert(b[d] == c[d]);
        assert(leads_at(a, c, d));
    } else if d == e {
        assert(leads_at(a, c, d));
    } else {
        assert(a[e] == b[e]);
        assert(leads_at(a, c, e));
    }
}

/// A sequence that ascends throughout is the first arrangement.
pub proof fn lemma_ascending_is_first<E: Ord>(s: Seq<E>, t: Seq<E>)
    requires
        lawful_order::<E>(),
        ascends_from(s, 0),
        is_rearrangement(s, t),
    ensures
        !lex_before(t, s),
{
    lemma_strict_total_order::<E>();
    lemma_rearrangement_len(s, t);
    if lex_before(t, s) {
        let d = choose|d: int| leads_at(t, s, d);
        let k = lemma_found_in_tail(s, t, d);
        assert(before(s[k], s[d]));
    }
}

/// The pivot and its successor in a sequence that does not descend
/// throughout.
pub proof fn lemma_pivot_exists<E: Ord>(s: Seq<E>) -> (at: (int, int))
    requires
        lawful_order::<E>(),
        !descends_from(s, 0),
    ensures
        is_pivot_end(s, at.0),
        is_pivot_successor(s, at.0, at.1),
{
    let i = lemma_find_pivot(s, s.len() - 1);
    let j = lemma_find_successor(s, i, s.len() - 1);
    (i, j)
}

/// Only a sequence that descends throughout is the last arrangement.
pub proof fn lemma_last_descends<E: Ord>(s: Seq<E>)
    requires
        lawful_order::<E>(),
        is_last_arrangement(s),
    ensures
        descends_from(s, 0),
{
    if !descends_from(s, 0) {
        let at = lemma_pivot_exists(s);
        lemma_stepped_is_next(s, at.0, at.1);
        assert(is_later_arrangement(s, stepped(s, at.0, at.1)));
    }
}

proof fn lemma_find_pivot<E: Ord>(s: Seq<E>, from: int) -> (i: int)
    requires
        lawful_order::<E>(),
        !descends_from(s, 0),
        from == s.len() - 1 || 0 <= from < s.len(),
        descends_from(s, from),
    ensures
        is_pivot_end(s, i),
    decreases from,
{
    lemma_strict_total_order::<E>();
    if from <= 0 {
        from
    } else if before(s[from - 1], s[from]) {
        from
    } else {
        assert forall|a: int, b: int| from - 1 <= a < b < s.len() implies !before(s[a], s[b]) by {
            if a == from - 1 && b > from {
                assert(!before(s[from], s[b]));
            }
        }
        lemma_find_pivot(s, from - 1)
    }
}

proof fn lemma_find_successor<E: Ord>(s: Seq<E>, i: int, from: int) -> (j: int)
    requires
        0 < i <= from < s.len(),
        before(s[i - 1], s[i]),
        forall|k: int| from < k < s.len() ==> !before(s[i - 1], #[trigger] s[k]),
    ensures
        is_pivot_successor(s, i, j),
    decreases from,
{
    if before(s[i - 1], s[from]) {
        from
    } else {
        lemma_find_successor(s, i, from - 1)
    }
}

/// A sequence has at most one next arrangement.
pub proof fn lemma_next_is_unique<E: Ord>(s: Seq<E>, t: Seq<E>, u: Seq<E>)
    requires
        lawful_order::<E>(),
        is_next_arrangement(s, t),
        is_next_arrangement(s, u),
    ensures
        t == u,
{
    lemma_rearrangement_len(s, t);
    lemma_rearrangement_len(s, u);
    if t != u {
        lemma_lex_total(t, u);
    }
}

/// The next arrangement of `s`, where `s` is not the last.
pub open spec fn next_arrangement<E: Ord>(s: Seq<E>) -> Seq<E> {
    choose|t: Seq<E>| is_next_arrangement(s, t)
}

/// Every arrangement but the last has a next one.
pub proof fn lemma_next_arrangement<E: Ord>(s: Seq<E>)
    requires
        lawful_order::<E>(),
        !is_last_arrangement(s),
    ensures
        is_next_arrangement(s, next_arrangement(s)),
{
    if descends_from(s, 0) {
        lemma_descending_is_last(s);
    }
    let at = lemma_pivot_exists(s);
    lemma_stepped_is_next(s, at.0, at.1);
}

} // verus!
