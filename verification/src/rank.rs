//! The place of an arrangement among the arrangements of its elements.

use crate::factorial::arrangements;
use crate::lexical::ascends_from;
use crate::lexical::is_pivot_end;
use crate::lexical::is_pivot_successor;
use crate::lexical::is_rearrangement;
use crate::lexical::lemma_rearrangement_len;
use crate::lexical::lemma_stepped_rearranges;
use crate::lexical::lemma_stepped_tail_ascends;
use crate::lexical::stepped;
use crate::lexical::swapped;
use crate::order::before;
use crate::order::lawful_order;
use crate::order::lemma_strict_total_order;
use vstd::prelude::*;
use vstd::seq_lib::*;

verus! {

/// Each element of `s` comes before all that follow it.
pub open spec fn strictly_ascending<E: Ord>(s: Seq<E>) -> bool {
    forall|a: int, b: int| 0 <= a < b < s.len() ==> before(s[a], s[b])
}

/// Each element of `s` comes after all that follow it.
pub open spec fn strictly_descending<E: Ord>(s: Seq<E>) -> bool {
    forall|a: int, b: int| 0 <= a < b < s.len() ==> before(s[b], s[a])
}

/// How many elements of `s` come before `x`.
pub open spec fn count_before<E: Ord>(x: E, s: Seq<E>) -> nat
    decreases s.len(),
{
    if s.len() == 0 {
        0
    } else {
        count_before(x, s.drop_last()) + if before(s.last(), x) {
            1nat
        } else {
            0nat
        }
    }
}

/// The place of `s`, counted from 0, among the arrangements of its
/// elements in lexical order, where no element occurs twice: each
/// element counts for so many arrangements of what follows it as
/// lesser elements follow it.
pub open spec fn rank<E: Ord>(s: Seq<E>) -> nat
    decreases s.len(),
{
    if s.len() == 0 {
        0
    } else {
        count_before(s[0], s.drop_first()) * arrangements((s.len() - 1) as nat) + rank(
            s.drop_first(),
        )
    }
}

proof fn lemma_count_bound<E: Ord>(x: E, s: Seq<E>)
    ensures
        count_before(x, s) <= s.len(),
    decreases s.len(),
{
    if s.len() > 0 {
        lemma_count_bound(x, s.drop_last());
    }
}

proof fn lemma_count_remove<E: Ord>(x: E, s: Seq<E>, k: int)
    requires
        0 <= k < s.len(),
    ensures
        count_before(x, s) == count_before(x, s.remove(k)) + if before(s[k], x) {
            1nat
        } else {
            0nat
        },
    decreases s.len(),
{
    if k == s.len() - 1 {
        assert(s.remove(k) =~= s.drop_last());
    } else {
        assert(s.remove(k).drop_last() =~= s.drop_last().remove(k));
        assert(s.remove(k).last() == s.last());
        lemma_count_remove(x, s.drop_last(), k);
    }
}

/// Every arrangement of a collection holds as many elements before `x`.
pub proof fn lemma_count_rearranged<E: Ord>(x: E, a: Seq<E>, b: Seq<E>)
    requires
        is_rearrangement(a, b),
    ensures
        count_before(x, a) == count_before(x, b),
    decreases a.len(),
{
    lemma_rearrangement_len(a, b);
    if a.len() > 0 {
        let last = a.last();
        assert(a.contains(last));
        to_multiset_contains(a, last);
        to_multiset_contains(b, last);
        let k = choose|k: int| 0 <= k < b.len() && b[k] == last;
        to_multiset_remove(a, a.len() - 1);
        to_multiset_remove(b, k);
        assert(a.remove(a.len() - 1) =~= a.drop_last());
        lemma_count_rearranged(x, a.drop_last(), b.remove(k));
        lemma_count_remove(x, b, k);
    }
}

proof fn lemma_count_alike<E: Ord>(x: E, y: E, s: Seq<E>)
    requires
        forall|k: int| 0 <= k < s.len() ==> before(#[trigger] s[k], x) == before(s[k], y),
    ensures
        count_before(x, s) == count_before(y, s),
    decreases s.len(),
{
    if s.len() > 0 {
        assert forall|k: int| 0 <= k < s.drop_last().len() implies before(
            #[trigger] s.drop_last()[k],
            x,
        ) == before(s.drop_last()[k], y) by {
            assert(s.drop_last()[k] == s[k]);
        }
        lemma_count_alike(x, y, s.drop_last());
    }
}

proof fn lemma_count_all<E: Ord>(x: E, s: Seq<E>)
    requires
        forall|k: int| 0 <= k < s.len() ==> before(#[trigger] s[k], x),
    ensures
        count_before(x, s) == s.len(),
    decreases s.len(),
{
    if s.len() > 0 {
        assert forall|k: int| 0 <= k < s.drop_last().len() implies before(
            #[trigger] s.drop_last()[k],
            x,
        ) by {
            assert(s.drop_last()[k] == s[k]);
        }
        lemma_count_all(x, s.drop_last());
    }
}

proof fn lemma_count_none<E: Ord>(x: E, s: Seq<E>)
    requires
        forall|k: int| 0 <= k < s.len() ==> !before(#[trigger] s[k], x),
    ensures
        count_before(x, s) == 0,
    decreases s.len(),
{
    if s.len() > 0 {
        assert forall|k: int| 0 <= k < s.drop_last().len() implies !before(
            #[trigger] s.drop_last()[k],
            x,
        ) by {
            assert(s.drop_last()[k] == s[k]);
        }
        lemma_count_none(x, s.drop_last());
    }
}

/// A rank is less than the number of arrangements.
pub proof fn lemma_rank_below<E: Ord>(s: Seq<E>)
    ensures
        rank(s) < arrangements(s.len()),
    decreases s.len(),
{
    if s.len() > 0 {
        let rest = s.drop_first();
        let c = count_before(s[0], rest);
        let m = arrangements(rest.len());
        lemma_count_bound(s[0], rest);
        lemma_rank_below(rest);
        assert(c * m + m <= s.len() * m) by (nonlinear_arith)
            requires
                c + 1 <= s.len(),
        ;
    }
}

/// The ascending arrangement has rank 0.
pub proof fn lemma_rank_ascending<E: Ord>(s: Seq<E>)
    requires
        ascends_from(s, 0),
    ensures
        rank(s) == 0,
    decreases s.len(),
{
    if s.len() > 0 {
        let rest = s.drop_first();
        assert forall|k: int| 0 <= k < rest.len() implies !before(#[trigger] rest[k], s[0]) by {
            assert(rest[k] == s[k + 1]);
        }
        lemma_count_none(s[0], rest);
        assert forall|a: int, b: int| 0 <= a < b < rest.len() implies !before(
            rest[b],
            rest[a],
        ) by {
            assert(rest[a] == s[a + 1] && rest[b] == s[b + 1]);
        }
        lemma_rank_ascending(rest);
        assert(0 * arrangements(rest.len()) == 0);
    }
}

/// The descending arrangement of distinct elements has the highest
/// rank.
pub proof fn lemma_rank_descending<E: Ord>(s: Seq<E>)
    requires
        strictly_descending(s),
    ensures
        rank(s) + 1 == arrangements(s.len()),
    decreases s.len(),
{
    if s.len() > 0 {
        let rest = s.drop_first();
        assert forall|k: int| 0 <= k < rest.len() implies before(#[trigger] rest[k], s[0]) by {
            assert(rest[k] == s[k + 1]);
        }
        lemma_count_all(s[0], rest);
        assert forall|a: int, b: int| 0 <= a < b < rest.len() implies before(
            rest[b],
            rest[a],
        ) by {
            assert(rest[a] == s[a + 1] && rest[b] == s[b + 1]);
        }
        lemma_rank_descending(rest);
        let m = arrangements(rest.len());
        assert(rest.len() * m + m == s.len() * m) by (nonlinear_arith)
            requires
                rest.len() + 1 == s.len(),
        ;
    }
}

proof fn lemma_stepped_at_head<E: Ord>(s: Seq<E>, j: int)
    requires
        lawful_order::<E>(),
        s.no_duplicates(),
        is_pivot_end(s, 1),
        is_pivot_successor(s, 1, j),
    ensures
        rank(stepped(s, 1, j)) == rank(s) + 1,
{
    lemma_strict_total_order::<E>();
    let a = s[0];
    let b = s[j];
    let tail = s.drop_first();
    let t = stepped(s, 1, j);
    let risen = t.drop_first();
    let mixed = tail.update(j - 1, a);
    let others = tail.remove(j - 1);
    let m = arrangements(tail.len());
    assert(t[0] == b);
    // what follows the old head descends, what follows the new one ascends
    assert forall|x: int, y: int| 0 <= x < y < tail.len() implies before(tail[y], tail[x]) by {
        assert(tail[x] == s[x + 1] && tail[y] == s[y + 1]);
        assert(!before(s[x + 1], s[y + 1]));
    }
    lemma_rank_descending(tail);
    lemma_stepped_tail_ascends(s, 1, j);
    assert forall|x: int, y: int| 0 <= x < y < risen.len() implies !before(
        risen[y],
        risen[x],
    ) by {
        assert(risen[x] == t[x + 1] && risen[y] == t[y + 1]);
    }
    lemma_rank_ascending(risen);
    // one more element precedes the new head than preceded the old one
    assert(risen =~= mixed.reverse());
    mixed.lemma_reverse_to_multiset();
    lemma_count_rearranged(b, mixed, risen);
    lemma_count_remove(b, mixed, j - 1);
    lemma_count_remove(a, tail, j - 1);
    assert(mixed.remove(j - 1) =~= others);
    assert forall|k: int| 0 <= k < others.len() implies before(#[trigger] others[k], b)
        == before(others[k], a) by {
        if k < j - 1 {
            assert(others[k] == s[k + 1]);
            assert(!before(s[k + 1], s[j]));
        } else {
            assert(others[k] == s[k + 2]);
            assert(!before(s[0], s[k + 2]));
        }
    }
    lemma_count_alike(b, a, others);
    let c = count_before(a, tail);
    assert(count_before(b, risen) == c + 1);
    assert((c + 1) * m == c * m + m) by (nonlinear_arith);
}

/// The step at the pivot raises the rank by one, where no element
/// occurs twice.
pub proof fn lemma_rank_stepped<E: Ord>(s: Seq<E>, i: int, j: int)
    requires
        lawful_order::<E>(),
        s.no_duplicates(),
        is_pivot_end(s, i),
        is_pivot_successor(s, i, j),
    ensures
        rank(stepped(s, i, j)) == rank(s) + 1,
    decreases i,
{
    if i == 1 {
        lemma_stepped_at_head(s, j);
    } else {
        let rest = s.drop_first();
        let t = stepped(s, i, j);
        assert(swapped(s, i - 1, j).drop_first() =~= swapped(rest, i - 2, j - 1));
        assert(t.drop_first() =~= stepped(rest, i - 1, j - 1));
        assert(t[0] == s[0]);
        assert(rest.no_duplicates());
        assert(is_pivot_end(rest, i - 1)) by {
            assert forall|a: int, b: int| i - 1 <= a < b < rest.len() implies !before(
                rest[a],
                rest[b],
            ) by {
                assert(rest[a] == s[a + 1] && rest[b] == s[b + 1]);
            }
        }
        assert(is_pivot_successor(rest, i - 1, j - 1)) by {
            assert forall|k: int| j - 1 < k < rest.len() implies !before(
                rest[i - 2],
                #[trigger] rest[k],
            ) by {
                assert(rest[k] == s[k + 1]);
            }
        }
        lemma_rank_stepped(rest, i - 1, j - 1);
        lemma_stepped_rearranges(rest, i - 1, j - 1);
        lemma_count_rearranged(s[0], rest, stepped(rest, i - 1, j - 1));
    }
}

} // verus!
