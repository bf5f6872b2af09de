use fsum::FSum;
use std::cell::Cell;
use tsp::enumerate;
use tsp::round_trip_terms;
use tsp::Aggregator;
use tsp::Enumeration;
use tsp::InstanceTooLarge;
use tsp::Phase;

fn sorted(mut pairs: Vec<(u64, u64)>) -> Vec<(u64, u64)> {
    pairs.sort();
    pairs
}

#[test]
fn three_towns_end_to_end() {
    let towns = [(0.0f64, 0.0f64), (3.0, 0.0), (0.0, 4.0)];
    let dist: Vec<Vec<f64>> = towns
        .iter()
        .map(|a| towns.iter().map(|b| (a.0 - b.0).hypot(a.1 - b.1)).collect())
        .collect();
    assert_eq!(dist[0][1], 3.0);
    assert_eq!(dist[0][2], 4.0);
    assert_eq!(dist[1][2], 5.0);
    let mut run = Enumeration::new(3).unwrap();
    let mut tours: Vec<Vec<usize>> = Vec::new();
    let mut lengths: Vec<f64> = Vec::new();
    loop {
        let mut sum = FSum::new();
        for term in round_trip_terms(&dist, run.tour()) {
            sum.add(term);
        }
        tours.push(run.tour().to_vec());
        lengths.push(sum.value());
        if !run.record(sum.value().to_bits()) {
            break;
        }
    }
    assert_eq!(tours, vec![vec![1, 2], vec![2, 1]]);
    assert_eq!(lengths, vec![12.0, 12.0]);
    assert_eq!(run.entries(), vec![(1, 12.0f64.to_bits())]);
    assert_eq!(run.minimum(), Some(12.0f64.to_bits()));
    let least = f64::from_bits(run.minimum().unwrap());
    for (_, bits) in run.entries() {
        assert_eq!(f64::from_bits(bits) - least, 0.0);
    }
}

#[test]
fn new_enumeration_awaits_the_length_of_the_first_tour() {
    let run = Enumeration::new(5).unwrap();
    assert_eq!(run.phase(), Phase::Initialized);
    assert_eq!(run.tour(), &[1, 2, 3, 4]);
    assert_eq!(run.minimum(), None);
    assert_eq!(run.entries(), Vec::new());
}

#[test]
fn four_towns_keep_the_last_length_of_each_route_and_the_least_of_all() {
    let mut run = Enumeration::new(4).unwrap();
    let mut tours: Vec<Vec<usize>> = Vec::new();
    let mut length = 10;
    loop {
        tours.push(run.tour().to_vec());
        let more = run.record(length);
        length += 10;
        if !more {
            break;
        }
        assert_eq!(run.phase(), Phase::Enumerating);
    }
    assert_eq!(
        tours,
        vec![
            vec![1, 2, 3],
            vec![1, 3, 2],
            vec![2, 1, 3],
            vec![2, 3, 1],
            vec![3, 1, 2],
            vec![3, 2, 1],
        ]
    );
    assert_eq!(run.phase(), Phase::Exhausted);
    assert_eq!(sorted(run.entries()), vec![(0x012, 60), (0x021, 40), (0x102, 50)]);
    assert_eq!(run.minimum(), Some(10));
}

#[test]
fn minimum_is_the_least_length_wherever_it_is_supplied() {
    let supplied = [70u64, 20, 90, 5, 30, 5];
    let mut run = Enumeration::new(4).unwrap();
    for (k, length) in supplied.iter().enumerate() {
        assert_eq!(run.record(*length), k < 5);
    }
    assert_eq!(run.minimum(), Some(5));
    assert_eq!(sorted(run.entries()), vec![(0x012, 5), (0x021, 5), (0x102, 30)]);
}

#[test]
fn exhausted_enumeration_takes_no_length() {
    let mut run = Enumeration::new(3).unwrap();
    assert!(run.record(8));
    assert!(!run.record(9));
    assert_eq!(run.phase(), Phase::Exhausted);
    assert!(!run.record(1));
    assert_eq!(run.phase(), Phase::Exhausted);
    assert_eq!(run.tour(), &[2, 1]);
    assert_eq!(run.minimum(), Some(8));
    assert_eq!(run.entries(), vec![(1, 9)]);
}

#[test]
fn two_towns_have_one_tour() {
    let mut run = Enumeration::new(2).unwrap();
    assert_eq!(run.tour(), &[1]);
    assert!(!run.record(14));
    assert_eq!(run.phase(), Phase::Exhausted);
    assert_eq!(run.entries(), vec![(0, 14)]);
    assert_eq!(run.minimum(), Some(14));
}

#[test]
fn a_single_town_has_the_empty_tour() {
    let mut run = Enumeration::new(1).unwrap();
    assert!(run.tour().is_empty());
    assert_eq!(run.phase(), Phase::Initialized);
    assert!(!run.record(0));
    assert_eq!(run.phase(), Phase::Exhausted);
    assert_eq!(run.entries(), vec![(0, 0)]);
    assert_eq!(run.minimum(), Some(0));
}

#[test]
fn no_town_has_the_empty_tour() {
    let mut run = Enumeration::new(0).unwrap();
    assert!(run.tour().is_empty());
    assert!(!run.record(0));
    assert_eq!(run.entries(), vec![(0, 0)]);
}

#[test]
fn seventeen_towns_are_the_most_that_a_key_has_room_for() {
    let run = Enumeration::new(17).unwrap();
    assert_eq!(run.tour().len(), 16);
    assert_eq!(run.tour()[15], 16);
}

#[test]
fn eighteen_towns_are_too_many() {
    assert_eq!(Enumeration::new(18).unwrap_err(), InstanceTooLarge { towns: 18 });
    assert_eq!(Enumeration::new(usize::MAX).unwrap_err(), InstanceTooLarge { towns: usize::MAX });
}

#[test]
fn five_towns_record_twelve_routes_from_twenty_four_tours() {
    let mut run = Enumeration::new(5).unwrap();
    let mut calls = 0u64;
    loop {
        calls += 1;
        if !run.record(1000 - calls) {
            break;
        }
    }
    assert_eq!(calls, 24);
    assert_eq!(run.entries().len(), 12);
    assert_eq!(run.minimum(), Some(1000 - 24));
}

#[test]
fn new_aggregator_has_nothing_on_record() {
    let totals = Aggregator::new(4);
    assert_eq!(totals.minimum(), None);
    assert_eq!(totals.entries(), Vec::new());
}

#[test]
fn aggregator_keeps_the_last_length_under_a_key() {
    let mut totals = Aggregator::new(0);
    totals.record(7, 30);
    totals.record(9, 20);
    totals.record(7, 50);
    assert_eq!(sorted(totals.entries()), vec![(7, 50), (9, 20)]);
    assert_eq!(totals.minimum(), Some(20));
}

#[test]
fn aggregator_keeps_the_least_length_even_when_it_is_overwritten() {
    let mut totals = Aggregator::new(usize::MAX);
    totals.record(1, 3);
    totals.record(1, 8);
    assert_eq!(totals.entries(), vec![(1, 8)]);
    assert_eq!(totals.minimum(), Some(3));
}

#[test]
fn aggregator_lists_every_key_once() {
    let mut totals = Aggregator::new(16);
    for key in 0..100u64 {
        totals.record(key % 10, key);
    }
    let expected: Vec<(u64, u64)> = (0..10u64).map(|key| (key, 90 + key)).collect();
    assert_eq!(sorted(totals.entries()), expected);
    assert_eq!(totals.minimum(), Some(0));
}

#[test]
fn enumerate_three_towns_end_to_end() {
    let towns = [(0.0f64, 0.0f64), (3.0, 0.0), (0.0, 4.0)];
    let dist: Vec<Vec<f64>> = towns
        .iter()
        .map(|a| towns.iter().map(|b| (a.0 - b.0).hypot(a.1 - b.1)).collect())
        .collect();
    let run = enumerate(3, |tour: &[usize]| {
        let mut sum = FSum::new();
        for term in round_trip_terms(&dist, tour) {
            sum.add(term);
        }
        sum.value().to_bits()
    })
    .unwrap();
    assert_eq!(run.phase(), Phase::Exhausted);
    assert_eq!(run.entries(), vec![(1, 12.0f64.to_bits())]);
    assert_eq!(run.minimum(), Some(12.0f64.to_bits()));
}

#[test]
fn enumerate_measures_every_tour_once_in_lexical_order() {
    let seen: Cell<Vec<Vec<usize>>> = Cell::new(Vec::new());
    let run = enumerate(4, |tour: &[usize]| {
        let mut so_far = seen.take();
        so_far.push(tour.to_vec());
        seen.set(so_far);
        (tour[0] * 100 + tour[1] * 10 + tour[2]) as u64
    })
    .unwrap();
    assert_eq!(
        seen.take(),
        vec![
            vec![1, 2, 3],
            vec![1, 3, 2],
            vec![2, 1, 3],
            vec![2, 3, 1],
            vec![3, 1, 2],
            vec![3, 2, 1],
        ]
    );
    assert_eq!(sorted(run.entries()), vec![(0x012, 321), (0x021, 231), (0x102, 312)]);
    assert_eq!(run.minimum(), Some(123));
    assert_eq!(run.tour(), &[3, 2, 1]);
}

#[test]
fn enumerate_six_towns_measures_one_hundred_and_twenty_tours() {
    let calls = Cell::new(0u64);
    let run = enumerate(6, |_tour: &[usize]| {
        calls.set(calls.get() + 1);
        500 - calls.get()
    })
    .unwrap();
    assert_eq!(calls.get(), 120);
    assert_eq!(run.entries().len(), 60);
    assert_eq!(run.minimum(), Some(380));
}

#[test]
fn enumerate_measures_the_empty_tour_of_a_single_town() {
    let calls = Cell::new(0u64);
    let run = enumerate(1, |tour: &[usize]| {
        calls.set(calls.get() + 1);
        tour.len() as u64
    })
    .unwrap();
    assert_eq!(calls.get(), 1);
    assert_eq!(run.entries(), vec![(0, 0)]);
    assert_eq!(run.minimum(), Some(0));
}

#[test]
fn enumerate_measures_nothing_where_the_towns_are_too_many() {
    let calls = Cell::new(0u64);
    let refused = enumerate(18, |_tour: &[usize]| {
        calls.set(calls.get() + 1);
        0
    });
    assert_eq!(refused.unwrap_err(), InstanceTooLarge { towns: 18 });
    assert_eq!(calls.get(), 0);
}
