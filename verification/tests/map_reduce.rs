use ownership_basics::map_reduce::{fold_range, map_red, map_red_n, LenSum, MapReduce};

/// The length-sum scenario: mapping each string to its length and reducing
/// by addition from a zero seed totals the characters.
#[test]
fn test_map_red() {
    let data: Vec<String> = vec![
        "x".to_string(),
        "xx".to_string(),
        "xxx".to_string(),
        "xxxx".to_string(),
    ];
    let result = map_red(&data, &LenSum, 0);
    assert_eq!(result, 10);
}

/// An empty input returns the seed unchanged, whatever the seed is.
#[test]
fn empty_input_returns_init() {
    let data: Vec<String> = vec![];
    assert_eq!(map_red(&data, &LenSum, 5), 5);
    assert_eq!(map_red(&data, &LenSum, 0), 0);
}

/// One partition (a single whole-input fold) and two partitions agree on
/// the same input, and both give the exact sequential result.
#[test]
fn one_and_two_partitions_agree() {
    let data: Vec<String> = vec![
        "a".to_string(),
        "bb".to_string(),
        "".to_string(),
        "dddd".to_string(),
        "eeeee".to_string(),
    ];
    let one_way = fold_range(&data, &LenSum, 0, data.len(), 0);
    let two_way = map_red(&data, &LenSum, 0);
    assert_eq!(one_way, 12);
    assert_eq!(two_way, 12);
}

/// Three partitions of uneven sizes, their folds combined in partition
/// order, agree with the two-way reducer and with the sequential fold.
#[test]
fn three_partitions_agree() {
    let data: Vec<String> = vec![
        "x".to_string(),
        "xx".to_string(),
        "xxx".to_string(),
        "xxxx".to_string(),
        "xxxxx".to_string(),
        "xxxxxx".to_string(),
    ];
    let part1 = fold_range(&data, &LenSum, 0, 2, 0);
    let part2 = fold_range(&data, &LenSum, 2, 5, 0);
    let part3 = fold_range(&data, &LenSum, 5, 6, 0);
    let combined = LenSum.reduce(LenSum.reduce(part1, part2), part3);
    assert_eq!(combined, 21);
    assert_eq!(map_red(&data, &LenSum, 0), 21);
}

/// Cutting into 1, 2, 3 or more partitions than there are elements yields
/// the same result as the two-way reducer.
#[test]
fn any_partition_count_agrees() {
    let data: Vec<String> = vec![
        "x".to_string(),
        "xx".to_string(),
        "xxx".to_string(),
        "xxxx".to_string(),
    ];
    assert_eq!(map_red_n(&data, &LenSum, 0, 1), 10);
    assert_eq!(map_red_n(&data, &LenSum, 0, 2), 10);
    assert_eq!(map_red_n(&data, &LenSum, 0, 3), 10);
    assert_eq!(map_red_n(&data, &LenSum, 0, 10), 10);
    assert_eq!(map_red(&data, &LenSum, 0), 10);
}

/// The N-way reducer also returns the seed unchanged on an empty input.
#[test]
fn n_way_empty_returns_init() {
    let data: Vec<String> = vec![];
    assert_eq!(map_red_n(&data, &LenSum, 5, 4), 5);
}

/// An input of odd length splits unevenly (the second chunk keeps the
/// remainder) without changing the result.
#[test]
fn odd_length_input() {
    let data: Vec<String> = vec!["x".to_string(), "yy".to_string(), "zzz".to_string()];
    assert_eq!(map_red(&data, &LenSum, 0), 6);
}

/// A single element: the first chunk is empty and the whole fold happens in
/// the second.
#[test]
fn single_element_input() {
    let data: Vec<String> = vec!["xxxx".to_string()];
    assert_eq!(map_red(&data, &LenSum, 0), 4);
}

/// Folding a sub-range covers exactly that range, in order.
#[test]
fn fold_range_covers_only_its_range() {
    let data: Vec<String> = vec![
        "x".to_string(),
        "xx".to_string(),
        "xxx".to_string(),
        "xxxx".to_string(),
    ];
    assert_eq!(fold_range(&data, &LenSum, 1, 3, 0), 5);
    assert_eq!(fold_range(&data, &LenSum, 2, 2, 7), 7);
}

/// The reduction used by the length-sum problem adds, and saturates instead
/// of overflowing.
#[test]
fn reduce_adds_and_saturates() {
    assert_eq!(LenSum.reduce(3, 4), 7);
    assert_eq!(LenSum.reduce(usize::MAX, 7), usize::MAX);
    assert_eq!(LenSum.reduce(7, usize::MAX - 3), usize::MAX);
    assert_eq!(LenSum.reduce(usize::MAX - 3, 3), usize::MAX);
}

/// The mapping counts characters, not nothing: an empty string maps to zero
/// and a longer one to its length.
#[test]
fn map_counts_characters() {
    assert_eq!(LenSum.map(&"".to_string()), 0);
    assert_eq!(LenSum.map(&"xxxx".to_string()), 4);
}

/// Duplicating a seed gives back an equal value.
#[test]
fn dup_copies_the_seed() {
    assert_eq!(LenSum.dup(&5), 5);
}
