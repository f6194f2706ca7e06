use shard_core::cardinality::expected;

#[test]
fn expected_of_two_words() {
    // 3 * 3 / 4
    assert_eq!(expected(&vec![3, 3], 4), 2);
    // 3 * 4 / 10
    assert_eq!(expected(&vec![3, 4], 10), 1);
    // 1 * 1 / 2
    assert_eq!(expected(&vec![1, 1], 2), 0);
}

#[test]
fn expected_of_three_words() {
    // 3 * 3 * 3 / 4^2
    assert_eq!(expected(&vec![3, 3, 3], 4), 1);
    // 5 * 5 * 5 / 5^2
    assert_eq!(expected(&vec![5, 5, 5], 5), 5);
    // 7 * 9 * 11 / 10^2
    assert_eq!(expected(&vec![7, 9, 11], 10), 6);
}

#[test]
fn expected_of_one_word_is_its_length() {
    assert_eq!(expected(&vec![17], 100), 17);
    assert_eq!(expected(&vec![17], 1), 17);
}

#[test]
fn expected_is_zero_without_points_or_words() {
    assert_eq!(expected(&vec![3, 3], 0), 0);
    assert_eq!(expected(&vec![], 5), 0);
    assert_eq!(expected(&vec![], 0), 0);
}

#[test]
fn expected_is_zero_with_an_empty_list() {
    assert_eq!(expected(&vec![3, 0, 9], 4), 0);
    assert_eq!(expected(&vec![0], 1), 0);
    assert_eq!(expected(&vec![0, 0], 1), 0);
}

#[test]
fn expected_with_one_point_is_the_product() {
    assert_eq!(expected(&vec![2, 3, 4], 1), 24);
    assert_eq!(expected(&vec![usize::MAX, 2], 1), usize::MAX);
    assert_eq!(expected(&vec![usize::MAX, 1], 1), usize::MAX);
}

#[test]
fn expected_keeps_all_digits_of_a_large_product() {
    // a product far beyond 64 bits that comes back into range
    let big = 1usize << 40;
    assert_eq!(expected(&vec![big, big, big], big), big);
    assert_eq!(expected(&vec![big, big, big, big], big), big);
    assert_eq!(expected(&vec![big + 1, big + 1], big), big + 2);
    // (2^40 + 1)^3 / 2^80 = 2^40 + 3, and a fraction
    assert_eq!(expected(&vec![big + 1, big + 1, big + 1], big), big + 3);
    // 3^40 / 2^39
    assert_eq!(expected(&vec![3; 40], 2), 22114664);
}

#[test]
fn expected_is_held_at_the_largest_number() {
    assert_eq!(expected(&vec![usize::MAX, usize::MAX], 2), usize::MAX);
    assert_eq!(expected(&vec![usize::MAX, usize::MAX, 4], 2), usize::MAX);
    assert_eq!(expected(&vec![usize::MAX, 2], 2), usize::MAX);
    assert_eq!(expected(&vec![usize::MAX, 2], 3), 12297829382473034410);
}

#[test]
fn expected_with_lists_longer_than_the_count() {
    // 10 * 10 / 3
    assert_eq!(expected(&vec![10, 10], 3), 33);
    // 10 * 10 * 10 / 9
    assert_eq!(expected(&vec![10, 10, 10], 3), 111);
}
