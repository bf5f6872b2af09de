//! The enumeration of all tours, one measured length at a time.
//!
//! The enumeration hands out a tour, and whoever measures the tour
//! hands back its length, as an unsigned number that is the less the
//! shorter the tour is. It is exhausted when every tour has had its
//! length.

use crate::aggregate::empty_tally;
use crate::aggregate::lemma_tally_keeps_last;
use crate::aggregate::lemma_tally_keys;
use crate::aggregate::lemma_tally_minimum;
use crate::aggregate::lists;
use crate::aggregate::recorded;
use crate::aggregate::tally;
use crate::aggregate::Aggregator;
use crate::aggregate::Tally;
use crate::factorial::arrangements;
use crate::factorial::checked_factorial;
use crate::factorial::lemma_arrangements_grow;
use crate::key::key_of;
use crate::key::lemma_key_in_bounds;
use crate::key::lemma_key_tells_routes_apart;
use crate::key::tour_as_key;
use crate::key::KEY_TOWNS;
use crate::lexical::is_last_arrangement;
use crate::lexical::is_next_arrangement;
use crate::lexical::lemma_next_arrangement;
use crate::lexical::lemma_next_is_unique;
use crate::lexical::lemma_rearrangement_len;
use crate::lexical::next_arrangement;
use crate::order::before;
use crate::order::lemma_usize_order;
use crate::permutation::LexicalPermutation;
use crate::rank::rank;
use crate::rank::strictly_ascending;
use crate::sweep::is_sweep;
use crate::sweep::lemma_last_has_top_rank;
use crate::sweep::lemma_sweep_in_rank_order;
use crate::sweep::lemma_sweep_is_complete;
use crate::tour::identity;
use crate::tour::is_tour;
use crate::tour::lemma_tour_towns;
use vstd::prelude::*;

verus! {

/// The most towns, town 0 among them, whose tours a key has room for.
pub const MAX_TOWNS: usize = KEY_TOWNS + 1;

/// How far an enumeration has come.
#[derive(Clone, Copy, Debug, PartialEq, Eq, Structural)]
pub enum Phase {
    /// The first tour awaits its length; nothing is on record.
    Initialized,
    /// A later tour awaits its length.
    Enumerating,
    /// Every tour has its length on record.
    Exhausted,
}

/// The instance has more towns than a key has room for.
#[derive(Clone, Copy, Debug, PartialEq, Eq, Structural)]
pub struct InstanceTooLarge {
    /// The number of towns that was asked for.
    pub towns: usize,
}

/// The state of an enumeration: the tour that awaits its length, how
/// far the enumeration has come, and what is on record.
pub ghost struct Progress {
    pub tour: Seq<usize>,
    pub phase: Phase,
    pub tally: Tally,
}

/// The length of the tours through `towns` towns, town 0 left out.
pub open spec fn tour_len(towns: usize) -> nat {
    if towns == 0 {
        0
    } else {
        (towns - 1) as nat
    }
}

/// The state before any length is on record: the first tour is the
/// one in the order of the towns' numbers.
pub open spec fn start(towns: usize) -> Progress {
    Progress { tour: identity(tour_len(towns)), phase: Phase::Initialized, tally: empty_tally() }
}

/// The state after `length` has been supplied for the tour that
/// awaited it: the length is on record under the tour's key, and the
/// next tour awaits its length, unless that tour was the last. An
/// exhausted enumeration stays as it is.
pub open spec fn supplied(p: Progress, length: u64) -> Progress {
    if p.phase == Phase::Exhausted {
        p
    } else if is_last_arrangement(p.tour) {
        Progress {
            tour: p.tour,
            phase: Phase::Exhausted,
            tally: recorded(p.tally, key_of(p.tour) as u64, length),
        }
    } else {
        Progress {
            tour: next_arrangement(p.tour),
            phase: Phase::Enumerating,
            tally: recorded(p.tally, key_of(p.tour) as u64, length),
        }
    }
}

/// The state after the lengths in `lengths` have been supplied, one
/// after the other, from the start.
pub open spec fn fed(towns: usize, lengths: Seq<u64>) -> Progress
    decreases lengths.len(),
{
    if lengths.len() == 0 {
        start(towns)
    } else {
        supplied(fed(towns, lengths.drop_last()), lengths.last())
    }
}

/// The tour that comes `k` steps after the first.
pub open spec fn tour_at(towns: usize, k: nat) -> Seq<usize>
    decreases k,
{
    if k == 0 {
        identity(tour_len(towns))
    } else {
        next_arrangement(tour_at(towns, (k - 1) as nat))
    }
}

/// The first `n` tours in the order of the enumeration.
pub open spec fn visits(towns: usize, n: nat) -> Seq<Seq<usize>> {
    Seq::new(n, |k: int| tour_at(towns, k as nat))
}

/// What a run of the enumeration records: the key of each tour with
/// the length supplied for it.
pub open spec fn records(towns: usize, lengths: Seq<u64>) -> Seq<(u64, u64)> {
    Seq::new(lengths.len(), |k: int| (key_of(tour_at(towns, k as nat)) as u64, lengths[k]))
}

/// As far as there are arrangements, the tours of the enumeration are
/// the states of a sweep.
pub proof fn lemma_visits_sweep(towns: usize, k: nat)
    requires
        k < arrangements(tour_len(towns)),
    ensures
        is_sweep(visits(towns, k + 1)),
    decreases k,
{
    lemma_usize_order();
    let run = visits(towns, k + 1);
    if k == 0 {
        assert(strictly_ascending(run[0]));
    } else {
        let shorter = visits(towns, k);
        lemma_visits_sweep(towns, (k - 1) as nat);
        let prev = tour_at(towns, (k - 1) as nat);
        assert(shorter[k - 1] == prev);
        lemma_sweep_in_rank_order(shorter, k - 1);
        lemma_rearrangement_len(shorter[0], prev);
        lemma_last_has_top_rank(prev);
        lemma_next_arrangement(prev);
        assert(run[0] == shorter[0]);
        assert forall|a: int, b: int|
            0 <= a && b == a + 1 && b < run.len() implies is_next_arrangement(
            #[trigger] run[a],
            #[trigger] run[b],
        ) by {
            if b < k {
                assert(run[a] == shorter[a] && run[b] == shorter[b]);
            }
        }
    }
}

/// The tour that comes `k` steps after the first is a tour, and `k`
/// is its rank: the enumeration goes through the tours in lexical
/// order, and through none of them twice.
pub proof fn lemma_tours_in_rank_order(towns: usize, k: nat)
    requires
        k < arrangements(tour_len(towns)),
    ensures
        is_tour(tour_at(towns, k)),
        tour_at(towns, k).len() == tour_len(towns),
        rank(tour_at(towns, k)) == k,
{
    lemma_usize_order();
    lemma_visits_sweep(towns, k);
    let run = visits(towns, k + 1);
    lemma_sweep_in_rank_order(run, k as int);
    lemma_rearrangement_len(run[0], run[k as int]);
}

/// Every tour through the towns is among the tours of the enumeration.
pub proof fn lemma_every_tour_is_visited(towns: usize, tour: Seq<usize>) -> (k: nat)
    requires
        is_tour(tour),
        tour.len() == tour_len(towns),
    ensures
        k < arrangements(tour_len(towns)),
        tour_at(towns, k) == tour,
{
    lemma_usize_order();
    let all = arrangements(tour_len(towns));
    lemma_arrangements_grow(0, tour_len(towns));
    let run = visits(towns, all);
    lemma_visits_sweep(towns, (all - 1) as nat);
    lemma_tours_in_rank_order(towns, (all - 1) as nat);
    lemma_tour_towns(run.last());
    lemma_last_has_top_rank(run.last());
    let k = lemma_sweep_is_complete(run, tour);
    k as nat
}

/// As long as lengths are supplied for no more tours than there are,
/// each length is recorded under the key of the tour that its place
/// gives; the tour that awaits its length next is the one that many
/// steps after the first; and the enumeration is exhausted exactly
/// when every tour has had its length.
pub proof fn lemma_fed(towns: usize, lengths: Seq<u64>)
    requires
        lengths.len() <= arrangements(tour_len(towns)),
    ensures
        fed(towns, lengths).tally == tally(records(towns, lengths)),
        fed(towns, lengths).phase == Phase::Exhausted <==> lengths.len() == arrangements(
            tour_len(towns),
        ),
        fed(towns, lengths).phase == Phase::Initialized <==> lengths.len() == 0,
        lengths.len() < arrangements(tour_len(towns)) ==> fed(towns, lengths).tour == tour_at(
            towns,
            lengths.len(),
        ),
    decreases lengths.len(),
{
    lemma_usize_order();
    lemma_arrangements_grow(0, tour_len(towns));
    if lengths.len() == 0 {
        assert(records(towns, lengths) =~= Seq::empty());
    } else {
        let earlier = lengths.drop_last();
        let prev = fed(towns, earlier);
        lemma_fed(towns, earlier);
        lemma_tours_in_rank_order(towns, earlier.len());
        lemma_tour_towns(prev.tour);
        lemma_last_has_top_rank(prev.tour);
        assert(records(towns, lengths).drop_last() =~= records(towns, earlier));
    }
}

/// Lengths that are supplied after the enumeration is exhausted change
/// nothing.
pub proof fn lemma_fed_beyond(towns: usize, lengths: Seq<u64>)
    requires
        lengths.len() >= arrangements(tour_len(towns)),
    ensures
        fed(towns, lengths) == fed(towns, lengths.take(arrangements(tour_len(towns)) as int)),
    decreases lengths.len(),
{
    let all = arrangements(tour_len(towns)) as int;
    if lengths.len() == all {
        assert(lengths.take(all) =~= lengths);
    } else {
        let earlier = lengths.drop_last();
        lemma_fed_beyond(towns, earlier);
        assert(earlier.take(all) =~= lengths.take(all));
        lemma_fed(towns, lengths.take(all));
    }
}

/// `minimum` is the least of `lengths`: it is one of them, and none of
/// them is less.
pub open spec fn is_least_of(minimum: Option<u64>, lengths: Seq<u64>) -> bool {
    match minimum {
        Some(m) => {
            &&& exists|k: int| 0 <= k < lengths.len() && #[trigger] lengths[k] == m
            &&& forall|k: int| 0 <= k < lengths.len() ==> m <= #[trigger] lengths[k]
        },
        None => false,
    }
}

/// Once a length has been supplied for every tour, the minimum on
/// record is the least of all these lengths, whether or not it is
/// still on record under a key.
pub proof fn lemma_minimum_over_all_tours(towns: usize, lengths: Seq<u64>)
    requires
        lengths.len() == arrangements(tour_len(towns)),
    ensures
        fed(towns, lengths).phase == Phase::Exhausted,
        is_least_of(fed(towns, lengths).tally.minimum, lengths),
{
    lemma_fed(towns, lengths);
    lemma_arrangements_grow(0, tour_len(towns));
    let rs = records(towns, lengths);
    lemma_tally_minimum(rs);
    let m = tally(rs).minimum->Some_0;
    let i = choose|i: int| 0 <= i < rs.len() && (#[trigger] rs[i]).1 == m;
    assert(lengths[i] == m);
    assert forall|k: int| 0 <= k < lengths.len() implies m <= #[trigger] lengths[k] by {
        assert(rs[k].1 == lengths[k]);
    }
}

/// Once a length has been supplied for every tour, the key of every
/// tour is on record.
pub proof fn lemma_every_route_on_record(towns: usize, lengths: Seq<u64>, tour: Seq<usize>)
    requires
        lengths.len() == arrangements(tour_len(towns)),
        is_tour(tour),
        tour.len() == tour_len(towns),
    ensures
        fed(towns, lengths).tally.lengths.contains_key(key_of(tour) as u64),
{
    let k = lemma_every_tour_is_visited(towns, tour);
    lemma_fed(towns, lengths);
    let rs = records(towns, lengths);
    lemma_tally_keys(rs, key_of(tour) as u64);
    assert(rs[k as int].0 == key_of(tour) as u64);
}

/// Every key on record is the key of a tour for which a length was
/// supplied.
pub proof fn lemma_records_are_routes(towns: usize, lengths: Seq<u64>, key: u64) -> (k: nat)
    requires
        lengths.len() <= arrangements(tour_len(towns)),
        fed(towns, lengths).tally.lengths.contains_key(key),
    ensures
        k < lengths.len(),
        key == key_of(tour_at(towns, k)) as u64,
{
    lemma_fed(towns, lengths);
    let rs = records(towns, lengths);
    lemma_tally_keys(rs, key);
    let i = choose|i: int| 0 <= i < rs.len() && (#[trigger] rs[i]).0 == key;
    i as nat
}

/// The length on record under the key of a tour is the length that was
/// supplied for the tour, unless a length was supplied later for the
/// tour in reverse.
pub proof fn lemma_route_keeps_later_length(towns: usize, lengths: Seq<u64>, k: nat)
    requires
        towns <= MAX_TOWNS,
        lengths.len() <= arrangements(tour_len(towns)),
        k < lengths.len(),
        forall|j: nat|
            k < j < lengths.len() ==> #[trigger] tour_at(towns, j) != tour_at(towns, k).reverse(),
    ensures
        fed(towns, lengths).tally.lengths.contains_pair(
            key_of(tour_at(towns, k)) as u64,
            lengths[k as int],
        ),
{
    lemma_fed(towns, lengths);
    let rs = records(towns, lengths);
    let tour = tour_at(towns, k);
    lemma_tours_in_rank_order(towns, k);
    lemma_tour_towns(tour);
    lemma_key_in_bounds(tour);
    assert forall|j: int| k < j < rs.len() implies (#[trigger] rs[j]).0 != rs[k as int].0 by {
        let later = tour_at(towns, j as nat);
        lemma_tours_in_rank_order(towns, j as nat);
        lemma_tour_towns(later);
        lemma_key_in_bounds(later);
        if key_of(later) == key_of(tour) {
            lemma_key_tells_routes_apart(later, tour);
        }
    }
    lemma_tally_keeps_last(rs, k as int);
}

/// Goes through all tours of an instance: hands out one tour after the
/// other, takes the length of each, and keeps the records.
#[derive(Debug)]
pub struct Enumeration {
    tour: Vec<usize>,
    phase: Phase,
    totals: Aggregator,
}

impl View for Enumeration {
    type V = Progress;

    closed spec fn view(&self) -> Progress {
        Progress { tour: self.tour@, phase: self.phase, tally: self.totals@ }
    }
}

impl Enumeration {
    /// The tour that awaits its length is a tour that a key has room
    /// for.
    pub open spec fn wf(&self) -> bool {
        is_tour(self@.tour) && self@.tour.len() < MAX_TOWNS
    }

    /// An enumeration of the tours through `towns` towns, at its start,
    /// with room made for half as many records as the towns have
    /// orders; or an error where a key has no room for so many towns.
    pub fn new(towns: usize) -> (made: Result<Enumeration, InstanceTooLarge>)
        ensures
            match made {
                Ok(e) => towns <= MAX_TOWNS && e@ == start(towns) && e.wf(),
                Err(error) => towns > MAX_TOWNS && error.towns == towns,
            },
    {
        if towns > MAX_TOWNS {
            return Err(InstanceTooLarge { towns });
        }
        let mut tour: Vec<usize> = Vec::new();
        let mut town: usize = 1;
        while town < towns
            invariant
                1 <= town,
                town <= towns || towns == 0,
                towns == 0 ==> town == 1,
                towns <= MAX_TOWNS,
                tour@ == identity((town - 1) as nat),
            decreases towns - town,
        {
            tour.push(town);
            town += 1;
            assert(tour@ =~= identity((town - 1) as nat));
        }
        assert(tour@ =~= identity(tour_len(towns)));
        let room = match checked_factorial(towns) {
            Some(orders) => orders / 2,
            None => usize::MAX,
        };
        Ok(Enumeration { tour, phase: Phase::Initialized, totals: Aggregator::new(room) })
    }

    /// How far the enumeration has come.
    pub fn phase(&self) -> (phase: Phase)
        ensures
            phase == self@.phase,
    {
        self.phase
    }

    /// The tour that awaits its length; once the enumeration is
    /// exhausted, the last tour.
    pub fn tour(&self) -> (tour: &[usize])
        ensures
            tour@ == self@.tour,
    {
        self.tour.as_slice()
    }

    /// Takes the length of the tour that awaits it: records it under
    /// the tour's key, and steps to the next tour. Reports whether a
    /// tour awaits its length now. An exhausted enumeration takes no
    /// length and reports `false`.
    pub fn record(&mut self, length: u64) -> (more: bool)
        requires
            old(self).wf(),
        ensures
            final(self).wf(),
            final(self)@ == supplied(old(self)@, length),
            more == (final(self)@.phase == Phase::Enumerating),
    {
        if self.phase == Phase::Exhausted {
            return false;
        }
        let ghost tour = self.tour@;
        proof {
            lemma_usize_order();
            lemma_tour_towns(tour);
        }
        let key = tour_as_key(self.tour.as_slice());
        self.totals.record(key, length);
        let advanced = self.tour.as_mut_slice().next_permutation();
        proof {
            if advanced {
                lemma_next_arrangement(tour);
                lemma_next_is_unique(tour, self.tour@, next_arrangement(tour));
                lemma_rearrangement_len(tour, self.tour@);
            }
        }
        self.phase = if advanced {
            Phase::Enumerating
        } else {
            Phase::Exhausted
        };
        advanced
    }

    /// The least length on record, whatever its key.
    pub fn minimum(&self) -> (m: Option<u64>)
        ensures
            m == self@.tally.minimum,
    {
        self.totals.minimum()
    }

    /// The keys on record with their lengths, each key once, in no
    /// particular order.
    pub fn entries(&self) -> (pairs: Vec<(u64, u64)>)
        ensures
            lists(pairs@, self@.tally.lengths),
    {
        self.totals.entries()
    }
}

/// `measure` can give `length` for `tour`.
pub open spec fn measures<F: Fn(&[usize]) -> u64>(measure: F, tour: Seq<usize>, length: u64) -> bool {
    exists|t: &[usize]| t@ == tour && call_ensures(measure, (t,), length)
}

/// `lengths` holds, for each tour in the order of the enumeration, a
/// length that `measure` can give for it.
pub open spec fn measured_by<F: Fn(&[usize]) -> u64>(
    towns: usize,
    lengths: Seq<u64>,
    measure: F,
) -> bool {
    forall|k: int|
        0 <= k < lengths.len() ==> measures(measure, tour_at(towns, k as nat), #[trigger] lengths[k])
}

/// `p` is the state after every tour through `towns` towns has had
/// its length, and `lengths` holds these lengths in the order of the
/// enumeration, each as `measure` can give it for its tour; the minimum
/// on record is the least of them.
pub open spec fn enumerated_with<F: Fn(&[usize]) -> u64>(
    p: Progress,
    towns: usize,
    lengths: Seq<u64>,
    measure: F,
) -> bool {
    &&& lengths.len() == arrangements(tour_len(towns))
    &&& measured_by(towns, lengths, measure)
    &&& p == fed(towns, lengths)
    &&& is_least_of(p.tally.minimum, lengths)
}

/// Goes through all tours through `towns` towns, from the one in the
/// order of the towns' numbers to the last in lexical order, has each
/// of them measured once by `measure`, and records each length under
/// the key of its tour; or gives an error where a key has no room for
/// so many towns.
pub fn enumerate<F: Fn(&[usize]) -> u64>(towns: usize, measure: F) -> (done: Result<
    Enumeration,
    InstanceTooLarge,
>)
    requires
        forall|t: &[usize]|
            is_tour(t@) && t@.len() == tour_len(towns) ==> call_requires(measure, (t,)),
    ensures
        match done {
            Ok(e) => {
                &&& towns <= MAX_TOWNS
                &&& e.wf()
                &&& e@.phase == Phase::Exhausted
                &&& exists|lengths: Seq<u64>| enumerated_with(e@, towns, lengths, measure)
            },
            Err(error) => towns > MAX_TOWNS && error.towns == towns,
        },
{
    let mut e = match Enumeration::new(towns) {
        Ok(e) => e,
        Err(error) => {
            return Err(error);
        },
    };
    let ghost mut lengths: Seq<u64> = Seq::empty();
    proof {
        lemma_arrangements_grow(0, tour_len(towns));
    }
    loop
        invariant_except_break
            lengths.len() < arrangements(tour_len(towns)),
        invariant
            towns <= MAX_TOWNS,
            e.wf(),
            e@ == fed(towns, lengths),
            measured_by(towns, lengths, measure),
            forall|t: &[usize]|
                is_tour(t@) && t@.len() == tour_len(towns) ==> call_requires(measure, (t,)),
        ensures
            lengths.len() == arrangements(tour_len(towns)),
            e@.phase == Phase::Exhausted,
        decreases arrangements(tour_len(towns)) - lengths.len(),
    {
        proof {
            lemma_fed(towns, lengths);
            lemma_tours_in_rank_order(towns, lengths.len());
        }
        let current = e.tour();
        let length = measure(current);
        assert(measures(measure, e@.tour, length)) by {
            assert(current@ == e@.tour && call_ensures(measure, (current,), length));
        }
        let more = e.record(length);
        proof {
            let earlier = lengths;
            lengths = lengths.push(length);
            assert(lengths.drop_last() =~= earlier);
            lemma_fed(towns, lengths);
            assert forall|k: int| 0 <= k < lengths.len() implies measures(
                measure,
                tour_at(towns, k as nat),
                #[trigger] lengths[k],
            ) by {
                if k < earlier.len() {
                    assert(lengths[k] == earlier[k]);
                }
            }
        }
        if !more {
            break;
        }
    }
    proof {
        lemma_minimum_over_all_tours(towns, lengths);
        assert(enumerated_with(e@, towns, lengths, measure));
    }
    Ok(e)
}

} // verus!
