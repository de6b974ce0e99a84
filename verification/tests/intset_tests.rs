use ofposet::intset::{CoverDirectionError, collect_sorted, cover_direction, insert, is_disjoint, is_sorted_unique, is_subset, union};

#[test]
fn collect_sorted_deduplicates() {
    assert_eq!(collect_sorted(vec![3, 1, 2, 1]), vec![1, 2, 3]);
}

#[test]
fn union_merges_sorted_sets() {
    assert_eq!(union(&vec![0, 2], &vec![1, 2, 4]), vec![0, 1, 2, 4]);
}

#[test]
fn disjointness_uses_sorted_set_intersection() {
    assert!(is_disjoint(&[0, 2], &[1, 3]));
    assert!(is_disjoint(&[], &[0]));
    assert!(!is_disjoint(&[0, 2, 4], &[1, 2, 3]));
}

#[test]
fn cover_direction_finds_the_first_new_element() {
    assert_eq!(cover_direction(&[0, 2, 4], &[0, 1, 2, 3, 4]), Ok(1));
    assert_eq!(cover_direction(&[1, 2], &[0, 1, 2]), Ok(0));
    assert_eq!(cover_direction(&[0, 1], &[0, 1, 5]), Ok(5));
}

#[test]
fn cover_direction_errors_when_there_is_no_new_element() {
    assert_eq!(cover_direction(&[0, 1], &[0, 1]), Err(CoverDirectionError));
    assert_eq!(cover_direction(&[0, 1, 2], &[0, 2]), Err(CoverDirectionError));
    assert_eq!(cover_direction(&[], &[]), Err(CoverDirectionError));
}

#[test]
fn insert_keeps_sets_sorted_and_deduplicated() {
    let mut set = vec![1, 4];
    insert(&mut set, 3);
    insert(&mut set, 0);
    insert(&mut set, 4);
    assert_eq!(set, vec![0, 1, 3, 4]);
}

#[test]
fn sortedness_and_subsets() {
    assert!(is_sorted_unique(&[0, 1, 5]));
    assert!(!is_sorted_unique(&[0, 0]));
    assert!(!is_sorted_unique(&[2, 1]));
    assert!(is_sorted_unique(&[]));
    assert!(is_subset(&[1, 3], &[0, 1, 2, 3]));
    assert!(!is_subset(&[1, 4], &[0, 1, 2, 3]));
}
