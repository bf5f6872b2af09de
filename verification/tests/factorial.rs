use tsp::checked_factorial;
use tsp::factorial;

#[test]
fn factorial_of_nothing_and_of_one_is_one() {
    assert_eq!(factorial(0), 1);
    assert_eq!(factorial(1), 1);
}

#[test]
fn factorial_multiplies_up_to_its_argument() {
    assert_eq!(factorial(2), 2);
    assert_eq!(factorial(3), 6);
    assert_eq!(factorial(5), 120);
    assert_eq!(factorial(10), 3_628_800);
    assert_eq!(factorial(12), 479_001_600);
}

#[test]
fn checked_factorial_agrees_where_the_product_fits() {
    assert_eq!(checked_factorial(0), Some(1));
    assert_eq!(checked_factorial(1), Some(1));
    assert_eq!(checked_factorial(6), Some(720));
    assert_eq!(checked_factorial(12), Some(479_001_600));
}

#[test]
fn checked_factorial_gives_none_where_the_product_does_not_fit() {
    if usize::BITS == 64 {
        assert_eq!(checked_factorial(20), Some(2_432_902_008_176_640_000));
        assert_eq!(checked_factorial(21), None);
    } else {
        assert_eq!(checked_factorial(13), None);
    }
    assert_eq!(checked_factorial(100), None);
    assert_eq!(checked_factorial(usize::MAX), None);
}
