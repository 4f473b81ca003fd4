use ks_match::ks::{ks, merge, sorted_copy, Dist};
use ks_match::Error;

#[test]
fn ks_identical_bags_is_zero() {
    let a: Vec<i64> = vec![5, 1, 3, 3, 2];
    let d = ks(&a, &a).unwrap();
    assert_eq!(d.num, 0);
    assert_eq!(d.den, 25);
}

#[test]
fn ks_is_symmetric_and_in_range() {
    let a: Vec<i64> = vec![10, 4, 7, 7];
    let b: Vec<i64> = vec![2, 9, 9, 4, 30];
    let d1 = ks(&a, &b).unwrap();
    let d2 = ks(&b, &a).unwrap();
    assert!(d1.eq_frac(&d2));
    assert_eq!(d1.num, d2.num);
    assert_eq!(d1.den, d2.den);
    assert!(d1.num <= d1.den);
    assert!(d1.den > 0);
}

#[test]
fn ks_shifted_triples_is_one_third() {
    let a: Vec<i64> = vec![1, 2, 3];
    let b: Vec<i64> = vec![2, 3, 4];
    let d = ks(&a, &b).unwrap();
    // cumulative-fraction differences at thresholds 1,2,3,4: 1/3, 1/3, 1/3, 0
    assert!(d.eq_frac(&Dist { num: 1, den: 3 }));
    assert_eq!(d.num, 3);
    assert_eq!(d.den, 9);
}

#[test]
fn ks_disjoint_bags_is_one() {
    let a: Vec<i64> = vec![1, 2];
    let b: Vec<i64> = vec![10, 20, 30];
    let d = ks(&a, &b).unwrap();
    assert!(d.eq_frac(&Dist { num: 1, den: 1 }));
}

#[test]
fn ks_empty_bag_is_a_validation_error() {
    let empty: Vec<i64> = Vec::new();
    let full: Vec<i64> = vec![1, 2, 3];
    assert_eq!(ks(&empty, &full), Err(Error::EmptySample));
    assert_eq!(ks(&full, &empty), Err(Error::EmptySample));
    assert_eq!(ks(&empty, &empty), Err(Error::EmptySample));
}

#[test]
fn ks_unsorted_inputs_are_sorted_privately() {
    let a: Vec<i64> = vec![3, 1, 2];
    let b: Vec<i64> = vec![4, 2, 3];
    let d = ks(&a, &b).unwrap();
    assert!(d.eq_frac(&Dist { num: 1, den: 3 }));
    // the inputs themselves are left untouched
    assert_eq!(a, vec![3, 1, 2]);
    assert_eq!(b, vec![4, 2, 3]);
}

#[test]
fn merge_visits_each_distinct_value_once() {
    let a: Vec<i64> = vec![1, 2, 2, 3];
    let b: Vec<i64> = vec![2, 3, 4];
    let m = merge(&a, &b);
    assert_eq!(m, vec![(1, 1, 0), (2, 3, 1), (3, 4, 2), (4, 4, 3)]);
}

#[test]
fn sorted_copy_sorts_without_touching_the_input() {
    let v: Vec<i64> = vec![5, -1, 3, 3, 0];
    let s = sorted_copy(&v);
    assert_eq!(s, vec![-1, 0, 3, 3, 5]);
    assert_eq!(v, vec![5, -1, 3, 3, 0]);
}

#[test]
fn dist_comparisons_are_exact() {
    let third = Dist { num: 1, den: 3 };
    let half = Dist { num: 3, den: 6 };
    assert!(third.le(&half));
    assert!(!half.le(&third));
    assert!(half.eq_frac(&Dist { num: 1, den: 2 }));
    assert!(!half.eq_frac(&third));
}
