use chunk_delta::helper::{
    binary_search, binary_search_by, is_power_of_two, lower_bound, lower_bound_by, mod_power,
    upper_bound, upper_bound_by,
};

#[test]
fn helper_test_is_power_of_two() {
    assert!(is_power_of_two(2048));
    assert!(is_power_of_two(65536));
    assert!(!is_power_of_two(32767));
    assert!(!is_power_of_two(32769));
}

#[test]
fn helper_test_mod_power() {
    assert_eq!(mod_power(2, 12, 13), 1);
    assert_eq!(mod_power(3, 17, 5), 3);
    assert_eq!(mod_power(31, 24, 17), 16);
    assert_eq!(mod_power(31, 64, 1000000007), 822947887);
}

#[test]
fn helper_is_power_of_two_edges() {
    assert!(is_power_of_two(1));
    assert!(is_power_of_two(2));
    assert!(!is_power_of_two(3));
    assert!(is_power_of_two(1 << 31));
    assert!(!is_power_of_two(u32::MAX));
}

#[test]
fn helper_mod_power_edges() {
    assert_eq!(mod_power(7, 0, 13), 1);
    assert_eq!(mod_power(7, 5, 1), 0);
    assert_eq!(mod_power(u32::MAX, 3, u32::MAX - 1), 1);
    assert_eq!(mod_power(0, 4, 9), 0);
}

#[test]
fn test_is_power_of_two() {
    assert!(is_power_of_two(2048));
    assert!(is_power_of_two(65536));
    assert!(!is_power_of_two(32767));
    assert!(!is_power_of_two(32769));
}

#[test]
fn test_mod_power() {
    assert_eq!(mod_power(2, 12, 13), 1);
    assert_eq!(mod_power(3, 17, 5), 3);
    assert_eq!(mod_power(31, 24, 17), 16);
    assert_eq!(mod_power(31, 64, 1000000007), 822947887);
}

#[test]
fn test_binary_search() {
    let sorted_items: &[u8] = &[14, 16, 21, 32, 65, 122, 123, 156];

    let index_of_10 = binary_search(10, sorted_items);
    assert_eq!(index_of_10, None);

    let index_of_14 = binary_search(14, sorted_items);
    assert_eq!(index_of_14, Some(0));

    let index_of_21 = binary_search(21, sorted_items);
    assert_eq!(index_of_21, Some(2));

    let index_of_30 = binary_search(30, sorted_items);
    assert_eq!(index_of_30, None);

    let index_of_122 = binary_search(122, sorted_items);
    assert_eq!(index_of_122, Some(5));

    let index_of_156 = binary_search(156, sorted_items);
    assert_eq!(index_of_156, Some(7));

    let index_of_180 = binary_search(180, sorted_items);
    assert_eq!(index_of_180, None);
}

#[test]
fn test_lower_bound() {
    let sorted_items: &[u8] = &[14, 15, 15, 15, 65, 122, 122, 135, 135, 135];

    let index_of_1 = lower_bound(1, sorted_items);
    assert_eq!(index_of_1, Some(0));

    let index_of_10 = lower_bound(10, sorted_items);
    assert_eq!(index_of_10, Some(0));

    let index_of_14 = lower_bound(14, sorted_items);
    assert_eq!(index_of_14, Some(0));

    let index_of_15 = lower_bound(15, sorted_items);
    assert_eq!(index_of_15, Some(1));

    let index_of_16 = lower_bound(16, sorted_items);
    assert_eq!(index_of_16, Some(4));

    let index_of_122 = lower_bound(122, sorted_items);
    assert_eq!(index_of_122, Some(5));

    let index_of_135 = lower_bound(135, sorted_items);
    assert_eq!(index_of_135, Some(7));

    let index_of_136 = lower_bound(136, sorted_items);
    assert_eq!(index_of_136, None);

    let index_of_200 = lower_bound(200, sorted_items);
    assert_eq!(index_of_200, None);
}

#[test]
fn test_upper_bound() {
    let sorted_items: &[u8] = &[14, 15, 15, 15, 65, 122, 122, 135, 135, 135];

    let index_of_1 = upper_bound(1, sorted_items);
    assert_eq!(index_of_1, Some(0));

    let index_of_10 = upper_bound(10, sorted_items);
    assert_eq!(index_of_10, Some(0));

    let index_of_14 = upper_bound(14, sorted_items);
    assert_eq!(index_of_14, Some(1));

    let index_of_15 = upper_bound(15, sorted_items);
    assert_eq!(index_of_15, Some(4));

    let index_of_16 = upper_bound(16, sorted_items);
    assert_eq!(index_of_16, Some(4));

    let index_of_122 = upper_bound(122, sorted_items);
    assert_eq!(index_of_122, Some(7));

    let index_of_135 = upper_bound(135, sorted_items);
    assert_eq!(index_of_135, None);

    let index_of_200 = upper_bound(200, sorted_items);
    assert_eq!(index_of_200, None);
}

#[test]
fn helper_search_by_comparator() {
    let pairs: &[(usize, usize)] = &[(1, 4), (1, 1), (4, 2), (6, 2), (8, 5), (9, 2)];
    assert_eq!(lower_bound_by(pairs, |p| p.0.cmp(&4)), Some(2));
    assert_eq!(lower_bound_by(pairs, |p| p.0.cmp(&5)), Some(3));
    assert_eq!(lower_bound_by(pairs, |p| p.0.cmp(&10)), None);
    assert_eq!(upper_bound_by(pairs, |p| p.0.cmp(&1)), Some(2));
    assert_eq!(upper_bound_by(pairs, |p| p.0.cmp(&9)), None);
    assert_eq!(binary_search_by(pairs, |p| p.0.cmp(&6)), Some(3));
    assert_eq!(binary_search_by(pairs, |p| p.0.cmp(&7)), None);
    let empty: &[(usize, usize)] = &[];
    assert_eq!(lower_bound_by(empty, |p| p.0.cmp(&1)), None);
}
