//! Stepping from the ascending arrangement through all the others.

use crate::factorial::arrangements;
use crate::lexical::descends_from;
use crate::lexical::is_last_arrangement;
use crate::lexical::is_later_arrangement;
use crate::lexical::is_next_arrangement;
use crate::lexical::is_rearrangement;
use crate::lexical::lemma_ascending_is_first;
use crate::lexical::lemma_descending_is_last;
use crate::lexical::lemma_last_descends;
use crate::lexical::lemma_lex_total;
use crate::lexical::lemma_lex_transitive;
use crate::lexical::lemma_next_is_unique;
use crate::lexical::lemma_pivot_exists;
use crate::lexical::lemma_rearrangement_len;
use crate::lexical::lemma_stepped_is_next;
use crate::lexical::lex_before;
use crate::lexical::stepped;
use crate::order::before;
use crate::order::lawful_order;
use crate::order::lemma_strict_total_order;
use crate::rank::lemma_rank_ascending;
use crate::rank::lemma_rank_below;
use crate::rank::lemma_rank_descending;
use crate::rank::lemma_rank_stepped;
use crate::rank::rank;
use crate::rank::strictly_ascending;
use vstd::prelude::*;

verus! {

/// `run` holds the states of a sweep: the first ascends strictly, and
/// each of the others is the next arrangement of the one before it.
pub open spec fn is_sweep<E: Ord>(run: Seq<Seq<E>>) -> bool {
    &&& run.len() > 0
    &&& strictly_ascending(run[0])
    &&& forall|a: int, b: int|
        0 <= a && b == a + 1 && b < run.len() ==> is_next_arrangement(
            #[trigger] run[a],
            #[trigger] run[b],
        )
}

/// An arrangement of distinct elements holds distinct elements.
pub proof fn lemma_rearranged_distinct<E>(a: Seq<E>, b: Seq<E>)
    requires
        a.no_duplicates(),
        is_rearrangement(a, b),
    ensures
        b.no_duplicates(),
{
    a.lemma_multiset_has_no_duplicates();
    b.lemma_multiset_has_no_duplicates_conv();
}

/// Among the arrangements of distinct elements, the last one, and no
/// other, has the highest rank.
pub proof fn lemma_last_has_top_rank<E: Ord>(s: Seq<E>)
    requires
        lawful_order::<E>(),
        s.no_duplicates(),
    ensures
        is_last_arrangement(s) <==> rank(s) + 1 == arrangements(s.len()),
{
    lemma_strict_total_order::<E>();
    if is_last_arrangement(s) {
        lemma_last_descends(s);
        lemma_rank_descending(s);
    } else {
        if descends_from(s, 0) {
            lemma_descending_is_last(s);
        }
        let at = lemma_pivot_exists(s);
        let t = stepped(s, at.0, at.1);
        lemma_rank_stepped(s, at.0, at.1);
        lemma_rank_below(t);
    }
}

/// The state that a sweep reaches after `k` steps is an arrangement of
/// the first, and `k` is its rank.
pub proof fn lemma_sweep_in_rank_order<E: Ord>(run: Seq<Seq<E>>, k: int)
    requires
        lawful_order::<E>(),
        is_sweep(run),
        0 <= k < run.len(),
    ensures
        is_rearrangement(run[0], run[k]),
        run[k].no_duplicates(),
        rank(run[k]) == k,
    decreases k,
{
    lemma_strict_total_order::<E>();
    if k == 0 {
        let s = run[0];
        lemma_rank_ascending(s);
        assert forall|i: int, j: int| 0 <= i < s.len() && 0 <= j < s.len() && i != j implies s[i]
            != s[j] by {
            if i < j {
                assert(before(s[i], s[j]));
            } else {
                assert(before(s[j], s[i]));
            }
        }
    } else {
        let s = run[k - 1];
        lemma_sweep_in_rank_order(run, k - 1);
        assert(is_next_arrangement(s, run[k]));
        lemma_rearranged_distinct(s, run[k]);
        assert(is_later_arrangement(s, run[k]));
        if descends_from(s, 0) {
            lemma_descending_is_last(s);
        }
        let at = lemma_pivot_exists(s);
        lemma_stepped_is_next(s, at.0, at.1);
        lemma_next_is_unique(s, run[k], stepped(s, at.0, at.1));
        lemma_rank_stepped(s, at.0, at.1);
    }
}

/// A sweep has at most as many states as its elements have
/// arrangements, and has that many exactly when its last state is the
/// last arrangement: that many steps, and no fewer, lead to the state
/// from which no further step is taken.
pub proof fn lemma_sweep_length<E: Ord>(run: Seq<Seq<E>>)
    requires
        lawful_order::<E>(),
        is_sweep(run),
    ensures
        run.len() <= arrangements(run[0].len()),
        run.len() == arrangements(run[0].len()) <==> is_last_arrangement(run.last()),
{
    let last = run.last();
    lemma_sweep_in_rank_order(run, run.len() - 1);
    lemma_rearrangement_len(run[0], last);
    lemma_rank_below(last);
    lemma_last_has_top_rank(last);
}

/// In a sweep, each state comes before all later ones in lexical
/// order; so no state occurs twice.
pub proof fn lemma_sweep_ascends<E: Ord>(run: Seq<Seq<E>>, a: int, b: int)
    requires
        lawful_order::<E>(),
        is_sweep(run),
        0 <= a < b < run.len(),
    ensures
        lex_before(run[a], run[b]),
        run[a] != run[b],
    decreases b - a,
{
    lemma_sweep_in_rank_order(run, a);
    lemma_sweep_in_rank_order(run, b);
    lemma_sweep_in_rank_order(run, b - 1);
    lemma_rearrangement_len(run[0], run[a]);
    lemma_rearrangement_len(run[0], run[b]);
    lemma_rearrangement_len(run[0], run[b - 1]);
    assert(is_next_arrangement(run[b - 1], run[b]));
    if a < b - 1 {
        lemma_sweep_ascends(run, a, b - 1);
        lemma_lex_transitive(run[a], run[b - 1], run[b]);
    }
}

proof fn lemma_sweep_covers_below<E: Ord>(run: Seq<Seq<E>>, k: int, t: Seq<E>) -> (m: int)
    requires
        lawful_order::<E>(),
        is_sweep(run),
        0 <= k < run.len(),
        is_rearrangement(run[0], t),
        lex_before(t, run[k]),
    ensures
        0 <= m < k,
        run[m] == t,
    decreases k,
{
    lemma_strict_total_order::<E>();
    if k == 0 {
        lemma_ascending_is_first(run[0], t);
        0
    } else {
        let s = run[k - 1];
        lemma_sweep_in_rank_order(run, k - 1);
        lemma_rearrangement_len(s, t);
        assert(is_next_arrangement(s, run[k]));
        if t == s {
            k - 1
        } else {
            lemma_lex_total(t, s);
            if lex_before(t, s) {
                lemma_sweep_covers_below(run, k - 1, t)
            } else {
                assert(is_later_arrangement(s, t));
                0
            }
        }
    }
}

/// A sweep that has reached the last arrangement has passed through
/// every arrangement of its elements.
pub proof fn lemma_sweep_is_complete<E: Ord>(run: Seq<Seq<E>>, t: Seq<E>) -> (k: int)
    requires
        lawful_order::<E>(),
        is_sweep(run),
        is_last_arrangement(run.last()),
        is_rearrangement(run[0], t),
    ensures
        0 <= k < run.len(),
        run[k] == t,
{
    let last = run.last();
    lemma_sweep_in_rank_order(run, run.len() - 1);
    lemma_rearrangement_len(last, t);
    if t == last {
        run.len() - 1
    } else {
        lemma_lex_total(t, last);
        if lex_before(t, last) {
            lemma_sweep_covers_below(run, run.len() - 1, t)
        } else {
            assert(is_later_arrangement(last, t));
            0
        }
    }
}

} // verus!
