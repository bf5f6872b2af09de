use fsum::FSum;
use tsp::calc_tour_length;
use tsp::make_dist_mat;
use tsp::round_trip_terms;
use tsp::LexicalPermutation;

fn triangle() -> Vec<Vec<f64>> {
    vec![vec![0.0, 3.0, 4.0], vec![3.0, 0.0, 5.0], vec![4.0, 5.0, 0.0]]
}

fn length(dist: &[Vec<f64>], tour: &[usize]) -> f64 {
    let mut sum = FSum::new();
    for term in round_trip_terms(dist, tour) {
        sum.add(term);
    }
    sum.value()
}

#[test]
fn round_trip_goes_out_from_town_zero_and_back() {
    assert_eq!(round_trip_terms(&triangle(), &[1, 2]), vec![3.0, 5.0, 4.0]);
    assert_eq!(round_trip_terms(&triangle(), &[2, 1]), vec![4.0, 5.0, 3.0]);
}

#[test]
fn round_trip_to_one_town_has_two_terms() {
    let dist = vec![vec![0u32, 7], vec![9, 0]];
    assert_eq!(round_trip_terms(&dist, &[1]), vec![7, 9]);
}

#[test]
fn round_trip_without_towns_has_no_terms() {
    let none: Vec<Vec<f64>> = Vec::new();
    assert_eq!(round_trip_terms(&none, &[]), Vec::<f64>::new());
    assert_eq!(round_trip_terms(&[vec![0.0f64]], &[]), Vec::<f64>::new());
    assert_eq!(length(&[vec![0.0f64]], &[]), 0.0);
}

#[test]
fn round_trip_reads_rows_before_columns() {
    let dist = vec![
        vec![0u32, 1, 2, 3],
        vec![10, 0, 12, 13],
        vec![20, 21, 0, 23],
        vec![30, 31, 32, 0],
    ];
    assert_eq!(round_trip_terms(&dist, &[2, 3, 1]), vec![2, 23, 31, 10]);
}

#[test]
fn triangle_round_trip_is_twelve_long_in_both_directions() {
    assert_eq!(length(&triangle(), &[1, 2]), 12.0);
    assert_eq!(length(&triangle(), &[2, 1]), 12.0);
}

#[test]
fn reversed_tour_adds_up_the_same_terms_in_reverse() {
    let points = [(0.1f64, 0.7f64), (3.3, 0.2), (0.9, 4.1), (2.5, 2.5), (7.7, 1.3)];
    let dist: Vec<Vec<f64>> = points
        .iter()
        .map(|a| points.iter().map(|b| (a.0 - b.0).hypot(a.1 - b.1)).collect())
        .collect();
    let mut tour = vec![1usize, 2, 3, 4];
    loop {
        let mut back = tour.clone();
        back.reverse();
        let mut there = round_trip_terms(&dist, &tour);
        let home = round_trip_terms(&dist, &back);
        there.reverse();
        assert_eq!(there, home);
        assert_eq!(length(&dist, &tour), length(&dist, &back));
        if !tour.next_permutation() {
            break;
        }
    }
}

fn hypotenuse(a: &(f64, f64), b: &(f64, f64)) -> f64 {
    (a.0 - b.0).hypot(a.1 - b.1)
}

fn exact_sum(terms: Vec<f64>) -> f64 {
    let mut sum = FSum::new();
    for term in terms {
        sum.add(term);
    }
    sum.value()
}

#[test]
fn distance_table_of_the_right_triangle() {
    let towns = [(0.0f64, 0.0f64), (3.0, 0.0), (0.0, 4.0)];
    let dist = make_dist_mat(&towns, hypotenuse);
    assert_eq!(dist, triangle());
}

#[test]
fn distance_table_has_a_row_and_a_column_for_every_town() {
    let towns = [1u32, 2, 3, 4];
    let dist = make_dist_mat(&towns, |a: &u32, b: &u32| 10 * a + b);
    assert_eq!(
        dist,
        vec![
            vec![11, 12, 13, 14],
            vec![21, 22, 23, 24],
            vec![31, 32, 33, 34],
            vec![41, 42, 43, 44],
        ]
    );
}

#[test]
fn distance_table_of_no_towns_is_empty() {
    let towns: [(f64, f64); 0] = [];
    assert_eq!(make_dist_mat(&towns, hypotenuse), Vec::<Vec<f64>>::new());
    assert_eq!(make_dist_mat(&[(2.0, 2.0)], hypotenuse), vec![vec![0.0]]);
}

#[test]
fn tour_length_totals_the_terms_of_the_round_trip() {
    assert_eq!(calc_tour_length(&triangle(), &[1, 2], exact_sum), 12.0);
    assert_eq!(calc_tour_length(&triangle(), &[2, 1], exact_sum), 12.0);
    let dist = vec![vec![0u32, 7], vec![9, 0]];
    assert_eq!(calc_tour_length(&dist, &[1], |terms: Vec<u32>| terms.iter().sum::<u32>()), 16);
}

#[test]
fn tour_length_hands_all_terms_to_the_total_in_order() {
    let dist = vec![
        vec![0u32, 1, 2, 3],
        vec![10, 0, 12, 13],
        vec![20, 21, 0, 23],
        vec![30, 31, 32, 0],
    ];
    assert_eq!(calc_tour_length(&dist, &[3, 1, 2], |terms: Vec<u32>| terms), vec![3, 31, 12, 20]);
}

#[test]
fn tour_length_without_towns_totals_nothing() {
    assert_eq!(calc_tour_length(&[vec![0.0f64]], &[], exact_sum), 0.0);
    let none: Vec<Vec<f64>> = Vec::new();
    assert_eq!(calc_tour_length(&none, &[], |terms: Vec<f64>| terms.len()), 0);
}

#[test]
fn exact_total_of_large_and_small_terms_is_one_for_both_directions() {
    let dist = vec![
        vec![0.0, 1e16, 1.0, 1.0],
        vec![1e16, 0.0, 1.0, 1e16],
        vec![1.0, 1.0, 0.0, 1.0],
        vec![1.0, 1e16, 1.0, 0.0],
    ];
    let there = calc_tour_length(&dist, &[2, 3, 1], exact_sum);
    let home = calc_tour_length(&dist, &[1, 3, 2], exact_sum);
    assert_eq!(there, home);
    assert_eq!(there, 2e16 + 2.0);
}
