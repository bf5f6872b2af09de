use tsp::LexicalPermutation;

fn all_states<E: Ord + Clone>(first: &[E]) -> (Vec<Vec<E>>, usize) {
    let mut current = first.to_vec();
    let mut states = vec![current.clone()];
    let mut calls = 1;
    while current.next_permutation() {
        states.push(current.clone());
        calls += 1;
    }
    (states, calls)
}

#[test]
fn three_elements_step_through_six_arrangements_in_order() {
    let (states, calls) = all_states(&[1usize, 2, 3]);
    assert_eq!(
        states,
        vec![
            vec![1, 2, 3],
            vec![1, 3, 2],
            vec![2, 1, 3],
            vec![2, 3, 1],
            vec![3, 1, 2],
            vec![3, 2, 1],
        ]
    );
    assert_eq!(calls, 6);
}

#[test]
fn sixth_call_on_three_elements_reports_false_and_keeps_the_last() {
    let mut v = vec![1usize, 2, 3];
    for _ in 0..5 {
        assert!(v.next_permutation());
    }
    assert_eq!(v, vec![3, 2, 1]);
    assert!(!v.next_permutation());
    assert_eq!(v, vec![3, 2, 1]);
}

#[test]
fn empty_sequence_has_no_next_arrangement() {
    let mut v: Vec<usize> = Vec::new();
    assert!(!v.next_permutation());
    assert!(v.is_empty());
}

#[test]
fn single_element_has_no_next_arrangement() {
    let mut v = vec![7usize];
    assert!(!v.next_permutation());
    assert_eq!(v, vec![7]);
}

#[test]
fn two_elements_step_once() {
    let mut v = vec![1usize, 2];
    assert!(v.next_permutation());
    assert_eq!(v, vec![2, 1]);
    assert!(!v.next_permutation());
    assert_eq!(v, vec![2, 1]);
}

#[test]
fn step_in_the_middle_swaps_the_pivot_and_turns_the_tail() {
    let mut v = vec![1usize, 5, 8, 4, 7, 6, 5, 3, 1];
    assert!(v.next_permutation());
    assert_eq!(v, vec![1, 5, 8, 5, 1, 3, 4, 6, 7]);
}

#[test]
fn repeated_elements_step_through_the_arrangements_of_the_multiset() {
    let (states, calls) = all_states(&[1usize, 2, 2]);
    assert_eq!(states, vec![vec![1, 2, 2], vec![2, 1, 2], vec![2, 2, 1]]);
    assert_eq!(calls, 3);
}

#[test]
fn equal_elements_have_one_arrangement() {
    let mut v = vec![4usize, 4, 4];
    assert!(!v.next_permutation());
    assert_eq!(v, vec![4, 4, 4]);
}

#[test]
fn five_elements_give_one_hundred_and_twenty_rising_states() {
    let (states, calls) = all_states(&[1usize, 2, 3, 4, 5]);
    assert_eq!(calls, 120);
    assert_eq!(states.len(), 120);
    for pair in states.windows(2) {
        assert!(pair[0] < pair[1]);
    }
    for state in &states {
        let mut sorted = state.clone();
        sorted.sort();
        assert_eq!(sorted, vec![1, 2, 3, 4, 5]);
    }
    assert_eq!(states[119], vec![5, 4, 3, 2, 1]);
}

#[test]
fn characters_step_in_their_own_order() {
    let (states, calls) = all_states(&['a', 'b', 'c']);
    assert_eq!(calls, 6);
    assert_eq!(states[1], vec!['a', 'c', 'b']);
    assert_eq!(states[5], vec!['c', 'b', 'a']);
}

#[test]
fn strings_step_in_their_own_order() {
    let mut v = vec![String::from("ant"), String::from("bee"), String::from("cat")];
    assert!(v.next_permutation());
    assert_eq!(v, vec![String::from("ant"), String::from("cat"), String::from("bee")]);
}

#[test]
fn slice_of_an_array_steps_in_place() {
    let mut a = [0i32, -1, 2];
    assert!(a[..].next_permutation());
    assert_eq!(a, [0, 2, -1]);
}

#[test]
fn unsorted_start_goes_on_to_the_last_arrangement_only() {
    let (states, calls) = all_states(&[2usize, 3, 1]);
    assert_eq!(states, vec![vec![2, 3, 1], vec![3, 1, 2], vec![3, 2, 1]]);
    assert_eq!(calls, 3);
}
