use std::collections::HashSet;

use rath::binary_search::find_max_unimodal_array;

#[test]
fn test_sorted_array() {
    let actual = find_max_unimodal_array(&[1, 2, 3, 4, 5]);
    assert_eq!(Some(4), actual);
}

#[test]
fn test_reverse_sorted_array() {
    let actual = find_max_unimodal_array(&[5, 4, 3, 2, 1]);
    assert_eq!(Some(0), actual);
}

#[test]
fn test_with_peak_in_middle() {
    let actual = find_max_unimodal_array(&[4, 5, 6, 3, 2, 1]);
    assert_eq!(Some(2), actual);
}

#[test]
fn test_with_peak_elsewhere() {
    let actual = find_max_unimodal_array(&[4, 5, 6, 7, 2, 1]);
    assert_eq!(Some(3), actual);
}

#[test]
fn test_with_multiple_peaks() {
    let actual = find_max_unimodal_array(&[4, 5, 3, 7, 8, 1]);
    let peaks: HashSet<&Option<usize>> = HashSet::from_iter([Some(1), Some(4)].iter());
    assert_eq!(peaks.contains(&actual), true);
}

#[test]
fn empty_array_has_no_peak() {
    assert_eq!(find_max_unimodal_array(&[]), None);
}

#[test]
fn single_element_is_the_peak() {
    assert_eq!(find_max_unimodal_array(&[7]), Some(0));
}
