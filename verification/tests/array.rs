use atlas_core::standard::{is_continuous_subset, sorted_union};

#[test]
fn union_of_disjoint_sequences_interleaves() {
    assert_eq!(sorted_union(&[1, 3, 5], &[2, 4, 6]), vec![1, 2, 3, 4, 5, 6]);
}

#[test]
fn union_keeps_shared_elements_once() {
    assert_eq!(sorted_union(&[1, 2, 3, 4], &[1, 2, 3, 4, 5, 6]), vec![1, 2, 3, 4, 5, 6]);
    assert_eq!(sorted_union(&[-3, 0, 7], &[-3, 0, 7]), vec![-3, 0, 7]);
}

#[test]
fn union_with_empty_is_the_other() {
    assert_eq!(sorted_union(&[], &[4, 9]), vec![4, 9]);
    assert_eq!(sorted_union(&[4, 9], &[]), vec![4, 9]);
    assert_eq!(sorted_union(&[], &[]), Vec::<i64>::new());
}

#[test]
fn union_appends_the_longer_tail() {
    assert_eq!(sorted_union(&[1, 2], &[2, 10, 20, 30]), vec![1, 2, 10, 20, 30]);
    assert_eq!(sorted_union(&[5, 6, 7, 8], &[1]), vec![1, 5, 6, 7, 8]);
}

#[test]
fn union_is_increasing_and_bounded() {
    let a = [i64::MIN, -5, 0, 5, i64::MAX];
    let b = [-5, 1, 5, 6];
    let merged = sorted_union(&a, &b);
    assert!(merged.len() <= a.len() + b.len());
    assert!(merged.windows(2).all(|pair| pair[0] < pair[1]));
    for value in a.iter().chain(b.iter()) {
        assert!(merged.contains(value));
    }
    for value in merged.iter() {
        assert!(a.contains(value) || b.contains(value));
    }
}

#[test]
fn empty_needle_is_always_contiguous() {
    assert!(is_continuous_subset(&[1, 2, 3], &[]));
    assert!(is_continuous_subset(&[], &[]));
}

#[test]
fn run_is_found_at_any_offset() {
    assert!(is_continuous_subset(&[1, 2, 3, 4, 5], &[1, 2]));
    assert!(is_continuous_subset(&[1, 2, 3, 4, 5], &[3, 4]));
    assert!(is_continuous_subset(&[1, 2, 3, 4, 5], &[4, 5]));
    assert!(is_continuous_subset(&[1, 2, 3, 4, 5], &[1, 2, 3, 4, 5]));
}

#[test]
fn gaps_and_overruns_are_not_runs() {
    assert!(!is_continuous_subset(&[1, 2, 3, 4, 5], &[1, 3]));
    assert!(!is_continuous_subset(&[1, 2, 3, 4, 5], &[4, 5, 6]));
    assert!(!is_continuous_subset(&[1, 2, 3], &[1, 2, 3, 4]));
    assert!(!is_continuous_subset(&[], &[1]));
    assert!(!is_continuous_subset(&[1, 2, 3], &[3, 2]));
}

#[test]
fn run_is_found_after_a_false_start() {
    assert!(is_continuous_subset(&[1, 1, 2, 1, 2, 3], &[1, 2, 3]));
}
