use degrees_of_separation::dataprocessing::combine_vectors;
use degrees_of_separation::dataprocessing::merge_and_sort_columns;
use degrees_of_separation::dataprocessing::reassign_indexes;
use degrees_of_separation::statistics::max_of;
use degrees_of_separation::statistics::sum_of;

#[test]
fn merge_deduplicates_and_sorts() {
    let sorted = merge_and_sort_columns(vec![878, 3, 3], vec![10, 878, 2]);
    assert_eq!(sorted, vec![2, 3, 10, 878]);
}

#[test]
fn reassign_index_space_through_itself_is_identity() {
    // Index compaction is a bijection onto a dense range
    let sorted = merge_and_sort_columns(vec![878, 3, 3], vec![10, 878, 2]);
    let ranks = reassign_indexes(&sorted, sorted.clone());
    assert_eq!(ranks, vec![0, 1, 2, 3]);
}

#[test]
fn reassigned_values_map_back_to_the_raw_column() {
    // Compaction preserves the raw edge multiset
    let column1 = vec![878, 3, 3];
    let column2 = vec![10, 878, 2];
    let sorted = merge_and_sort_columns(column1.clone(), column2.clone());
    let new1 = reassign_indexes(&sorted, column1.clone());
    let new2 = reassign_indexes(&sorted, column2.clone());
    let back1: Vec<usize> = new1.iter().map(|&i| sorted[i]).collect();
    let back2: Vec<usize> = new2.iter().map(|&i| sorted[i]).collect();
    assert_eq!(back1, column1);
    assert_eq!(back2, column2);
}

#[test]
fn reassign_passes_unknown_values_through() {
    let index = vec![2, 4];
    let out = reassign_indexes(&index, vec![4, 7]);
    assert_eq!(out, vec![1, 7]);
}

#[test]
fn combine_zips_columns_into_pairs() {
    let pairs = combine_vectors(vec![0, 1, 2], vec![3, 4, 5]);
    assert_eq!(pairs, vec![(0, 3), (1, 4), (2, 5)]);
}

#[test]
fn sum_of_distances() {
    // The mean of [1, 1, 2] over 3 valid pairs is 4 / 3
    assert_eq!(sum_of(&vec![1, 1, 2]), 4);
    assert_eq!(sum_of(&vec![]), 0);
}

#[test]
fn max_of_distances() {
    assert_eq!(max_of(&vec![1, 2, 1]), 2);
    assert_eq!(max_of(&vec![7]), 7);
}
