use tsp::order::precedes;

#[test]
fn precedes_is_the_strict_order_of_the_elements() {
    assert!(precedes(&1usize, &2usize));
    assert!(!precedes(&2usize, &1usize));
    assert!(!precedes(&2usize, &2usize));
    assert!(precedes(&'a', &'b'));
    assert!(precedes(&(1, 'z'), &(2, 'a')));
    assert!(!precedes(&String::from("b"), &String::from("a")));
}
