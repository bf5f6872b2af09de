//! The lengths on record: the latest for each key, and the least of all.
//!
//! A length is handed over as an unsigned number, and the numbers are
//! ordered as the lengths are: the lesser number stands for the shorter
//! tour.

use rustc_hash::FxBuildHasher;
use rustc_hash::FxHashMap;
use vstd::prelude::*;

verus! {

/// `rustc_hash::FxBuildHasher`, which builds the hashers of an
/// `FxHashMap`. Nothing is claimed of it.
#[verifier::external_type_specification]
#[verifier::external_body]
pub struct ExFxBuildHasher(rustc_hash::FxBuildHasher);

/// The most entries that room is made for ahead of the first record.
pub const PRESIZE_LIMIT: usize = 0x10_0000;

/// What has been recorded: the latest length under each key, and the
/// least length of all.
pub ghost struct Tally {
    pub lengths: Map<u64, u64>,
    pub minimum: Option<u64>,
}

/// The lesser of `length` and the least length so far.
pub open spec fn lesser(least: Option<u64>, length: u64) -> u64 {
    match least {
        Some(m) => if m <= length {
            m
        } else {
            length
        },
        None => length,
    }
}

/// The tally after `length` has been recorded under `key`: the length
/// takes the place of what the key held, and counts for the minimum.
pub open spec fn recorded(t: Tally, key: u64, length: u64) -> Tally {
    Tally { lengths: t.lengths.insert(key, length), minimum: Some(lesser(t.minimum, length)) }
}

/// The tally with nothing on record.
pub open spec fn empty_tally() -> Tally {
    Tally { lengths: Map::empty(), minimum: None }
}

/// The tally of the pairs of key and length in `records`, recorded in
/// this order.
pub open spec fn tally(records: Seq<(u64, u64)>) -> Tally
    decreases records.len(),
{
    if records.len() == 0 {
        empty_tally()
    } else {
        recorded(tally(records.drop_last()), records.last().0, records.last().1)
    }
}

/// `pairs` lists every entry of `m` once.
pub open spec fn lists(pairs: Seq<(u64, u64)>, m: Map<u64, u64>) -> bool {
    &&& forall|i: int|
        0 <= i < pairs.len() ==> m.contains_pair((#[trigger] pairs[i]).0, pairs[i].1)
    &&& forall|i: int, j: int|
        0 <= i < j < pairs.len() ==> (#[trigger] pairs[i]).0 != (#[trigger] pairs[j]).0
    &&& forall|k: u64| #[trigger]
        m.contains_key(k) ==> exists|i: int| 0 <= i < pairs.len() && (#[trigger] pairs[i]).0 == k
}

/// The minimum of a tally is the least of all the lengths recorded,
/// whatever their keys; only an empty tally has none.
pub proof fn lemma_tally_minimum(records: Seq<(u64, u64)>)
    ensures
        match tally(records).minimum {
            Some(m) => {
                &&& exists|i: int| 0 <= i < records.len() && (#[trigger] records[i]).1 == m
                &&& forall|i: int| 0 <= i < records.len() ==> m <= (#[trigger] records[i]).1
            },
            None => records.len() == 0,
        },
    decreases records.len(),
{
    if records.len() > 0 {
        let before = records.drop_last();
        let last = records.len() - 1;
        lemma_tally_minimum(before);
        let m = tally(records).minimum->Some_0;
        assert(forall|i: int| 0 <= i < before.len() ==> before[i] == records[i]);
        match tally(before).minimum {
            Some(earlier) => {
                if earlier <= records[last].1 {
                    let i = choose|i: int| 0 <= i < before.len() && (#[trigger] before[i]).1 == m;
                    assert(records[i].1 == m);
                } else {
                    assert(records[last].1 == m);
                }
            },
            None => {
                assert(records[last].1 == m);
            },
        }
        assert forall|i: int| 0 <= i < records.len() implies m <= (#[trigger] records[i]).1 by {
            if i < last {
                assert(before[i] == records[i]);
            }
        }
    }
}

/// A tally holds, under each key, the length that was recorded under
/// it last.
pub proof fn lemma_tally_keeps_last(records: Seq<(u64, u64)>, k: int)
    requires
        0 <= k < records.len(),
        forall|j: int| k < j < records.len() ==> (#[trigger] records[j]).0 != records[k].0,
    ensures
        tally(records).lengths.contains_pair(records[k].0, records[k].1),
    decreases records.len(),
{
    let before = records.drop_last();
    if k < records.len() - 1 {
        assert(forall|i: int| 0 <= i < before.len() ==> before[i] == records[i]);
        assert(records.last().0 != records[k].0);
        lemma_tally_keeps_last(before, k);
    }
}

/// A tally holds the keys under which something was recorded, and no
/// others.
pub proof fn lemma_tally_keys(records: Seq<(u64, u64)>, key: u64)
    ensures
        tally(records).lengths.contains_key(key) <==> exists|i: int|
            0 <= i < records.len() && (#[trigger] records[i]).0 == key,
    decreases records.len(),
{
    if records.len() > 0 {
        let before = records.drop_last();
        lemma_tally_keys(before, key);
        assert(forall|i: int| 0 <= i < before.len() ==> before[i] == records[i]);
        if tally(records).lengths.contains_key(key) {
            if records.last().0 == key {
                assert(records[records.len() - 1].0 == key);
            } else {
                let i = choose|i: int| 0 <= i < before.len() && (#[trigger] before[i]).0 == key;
                assert(records[i].0 == key);
            }
        }
        if exists|i: int| 0 <= i < records.len() && (#[trigger] records[i]).0 == key {
            let i = choose|i: int| 0 <= i < records.len() && (#[trigger] records[i]).0 == key;
            if i < records.len() - 1 {
                assert(before[i].0 == key);
            }
        }
    }
}

/// `FxHashMap::with_capacity_and_hasher` with the default Fx hasher
/// gives a map without entries. It is called with a capacity of at
/// most `PRESIZE_LIMIT`, for which the table can be laid out.
#[verifier::external_body]
fn lengths_with_capacity(capacity: usize) -> (m: FxHashMap<u64, u64>)
    requires
        capacity <= PRESIZE_LIMIT,
    ensures
        m@ == empty_tally().lengths,
{
    FxHashMap::with_capacity_and_hasher(capacity, FxBuildHasher::default())
}

/// `HashMap::insert` on an `FxHashMap` puts the value under the key,
/// in place of the value that the key held if it held one, and leaves
/// the other entries alone.
#[verifier::external_body]
fn put_length(m: &mut FxHashMap<u64, u64>, key: u64, length: u64)
    ensures
        final(m)@ == old(m)@.insert(key, length),
{
    m.insert(key, length);
}

/// `HashMap::iter` on an `FxHashMap` visits every entry once, in an
/// order that the map chooses; each entry is copied out as a pair.
#[verifier::external_body]
fn list_lengths(m: &FxHashMap<u64, u64>) -> (pairs: Vec<(u64, u64)>)
    ensures
        lists(pairs@, m@),
{
    m.iter().map(|(key, length)| (*key, *length)).collect()
}

/// Collects the length of every tour under the tour's key, and the
/// least length of all.
#[derive(Debug)]
pub struct Aggregator {
    lengths: FxHashMap<u64, u64>,
    minimum: Option<u64>,
}

impl View for Aggregator {
    type V = Tally;

    closed spec fn view(&self) -> Tally {
        Tally { lengths: self.lengths@, minimum: self.minimum }
    }
}

impl Aggregator {
    /// An aggregator with nothing on record, and with room for
    /// `capacity` keys as far as `PRESIZE_LIMIT` allows.
    pub fn new(capacity: usize) -> (a: Aggregator)
        ensures
            a@ == empty_tally(),
    {
        let room = if capacity > PRESIZE_LIMIT {
            PRESIZE_LIMIT
        } else {
            capacity
        };
        Aggregator { lengths: lengths_with_capacity(room), minimum: None }
    }

    /// Records `length` under `key`, in place of what the key held,
    /// and keeps the least length of all that were recorded.
    pub fn record(&mut self, key: u64, length: u64)
        ensures
            final(self)@ == recorded(old(self)@, key, length),
    {
        put_length(&mut self.lengths, key, length);
        self.minimum = match self.minimum {
            Some(m) => if m <= length {
                Some(m)
            } else {
                Some(length)
            },
            None => Some(length),
        };
    }

    /// The least length on record, whatever its key.
    pub fn minimum(&self) -> (m: Option<u64>)
        ensures
            m == self@.minimum,
    {
        self.minimum
    }

    /// The keys with their lengths, each key once, in no particular
    /// order.
    pub fn entries(&self) -> (pairs: Vec<(u64, u64)>)
        ensures
            lists(pairs@, self@.lengths),
    {
        list_lengths(&self.lengths)
    }
}

} // verus!
