use tsp::checked_tour_as_key;
use tsp::tour_as_key;
use tsp::LexicalPermutation;

#[test]
fn key_packs_the_towns_less_one_four_bits_apiece() {
    assert_eq!(tour_as_key(&[1, 2, 3]), 0x012);
    assert_eq!(tour_as_key(&[2, 1, 3]), 0x102);
    assert_eq!(tour_as_key(&[1, 3, 2]), 0x021);
}

#[test]
fn key_reads_from_the_end_that_holds_the_lesser_town() {
    assert_eq!(tour_as_key(&[3, 2, 1]), 0x012);
    assert_eq!(tour_as_key(&[3, 1, 2]), 0x102);
    assert_eq!(tour_as_key(&[2, 3, 1]), 0x021);
}

#[test]
fn key_of_two_towns_is_one_in_both_directions() {
    assert_eq!(tour_as_key(&[1, 2]), 1);
    assert_eq!(tour_as_key(&[2, 1]), 1);
}

#[test]
fn key_of_a_single_town_is_zero() {
    assert_eq!(tour_as_key(&[1]), 0);
}

#[test]
fn key_of_no_towns_is_zero() {
    assert_eq!(tour_as_key(&[]), 0);
}

#[test]
fn key_of_sixteen_towns_fills_all_bits() {
    let tour: Vec<usize> = (1..=16).collect();
    assert_eq!(tour_as_key(&tour), 0x0123_4567_89AB_CDEF);
    let back: Vec<usize> = (1..=16).rev().collect();
    assert_eq!(tour_as_key(&back), 0x0123_4567_89AB_CDEF);
    let mut high = tour.clone();
    high.swap(0, 14);
    assert_eq!(tour_as_key(&high), 0xE123_4567_89AB_CD0F);
}

#[test]
fn key_of_a_tour_is_the_key_of_its_reverse() {
    let mut tour = vec![1usize, 2, 3, 4, 5];
    loop {
        let mut back = tour.clone();
        back.reverse();
        assert_eq!(tour_as_key(&tour), tour_as_key(&back));
        if !tour.next_permutation() {
            break;
        }
    }
}

#[test]
fn keys_tell_apart_all_tours_but_a_tour_and_its_reverse() {
    let mut tour = vec![1usize, 2, 3, 4, 5];
    let mut seen: Vec<(u64, Vec<usize>)> = Vec::new();
    loop {
        let key = tour_as_key(&tour);
        for (other_key, other) in &seen {
            let mut back = other.clone();
            back.reverse();
            assert_eq!(*other_key == key, back == tour);
        }
        seen.push((key, tour.clone()));
        if !tour.next_permutation() {
            break;
        }
    }
    let mut keys: Vec<u64> = seen.iter().map(|(key, _)| *key).collect();
    keys.sort();
    keys.dedup();
    assert_eq!(seen.len(), 120);
    assert_eq!(keys.len(), 60);
}

#[test]
fn checked_key_agrees_with_the_key() {
    assert_eq!(checked_tour_as_key(&[2, 3, 1]), Some(0x021));
    assert_eq!(checked_tour_as_key(&[]), Some(0));
    let tour: Vec<usize> = (1..=16).collect();
    assert_eq!(checked_tour_as_key(&tour), Some(0x0123_4567_89AB_CDEF));
}

#[test]
fn checked_key_refuses_more_than_sixteen_towns() {
    let tour: Vec<usize> = (1..=17).collect();
    assert_eq!(checked_tour_as_key(&tour), None);
}

#[test]
fn checked_key_refuses_town_zero() {
    assert_eq!(checked_tour_as_key(&[1, 0, 2]), None);
}

#[test]
fn checked_key_refuses_a_town_above_sixteen() {
    assert_eq!(checked_tour_as_key(&[1, 17]), None);
    assert_eq!(checked_tour_as_key(&[16, 1]), Some(0x0F));
}
