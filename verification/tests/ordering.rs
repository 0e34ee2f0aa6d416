use std::cmp::Ordering;

use str_list::list::StrListBuf;
use str_list::order::str_compare;

fn buf_of(values: &[&str]) -> StrListBuf {
    let owned: Vec<String> = values.iter().map(|v| v.to_string()).collect();
    StrListBuf::from_strs(&owned)
}

#[test]
fn first_differing_element_decides() {
    let a = buf_of(&["a", "bb"]);
    let b = buf_of(&["a", "c"]);
    assert_eq!(a.compare(&b), Ordering::Less);
    assert_eq!(b.compare(&a), Ordering::Greater);
}

#[test]
fn strict_prefix_is_smaller() {
    let a = buf_of(&["a"]);
    let b = buf_of(&["a", "b"]);
    assert_eq!(a.compare(&b), Ordering::Less);
    assert_eq!(b.compare(&a), Ordering::Greater);
}

#[test]
fn later_first_element_wins_regardless_of_rest() {
    let a = buf_of(&["b"]);
    let b = buf_of(&["a", "zzzz"]);
    assert_eq!(a.compare(&b), Ordering::Greater);
    assert_eq!(b.compare(&a), Ordering::Less);
}

#[test]
fn element_order_is_not_packed_byte_order() {
    // "ab" is longer than "a", so ["ab"] sorts after ["a"] element-wise,
    // even though in the packed buffer "a" is followed by the delimiter
    // byte 0xff, which is numerically larger than b'b'.
    let a = buf_of(&["a"]);
    let b = buf_of(&["ab"]);
    assert_eq!(a.compare(&b), Ordering::Less);
}

#[test]
fn equal_lists_compare_equal() {
    let a = buf_of(&["x", "y"]);
    let b = buf_of(&["x", "y"]);
    assert_eq!(a.compare(&b), Ordering::Equal);
    assert!(a.equals(&b));
    assert!(b.equals(&a));
}

#[test]
fn empty_list_is_smallest() {
    let a = buf_of(&[]);
    let b = buf_of(&[""]);
    assert_eq!(a.compare(&b), Ordering::Less);
    assert_eq!(a.compare(&a), Ordering::Equal);
}

#[test]
fn unequal_lists_are_not_equal() {
    let a = buf_of(&["x"]);
    let b = buf_of(&["x", "x"]);
    let c = buf_of(&["y"]);
    assert!(!a.equals(&b));
    assert!(!a.equals(&c));
}

#[test]
fn view_compare_matches_buffer_compare() {
    let a = buf_of(&["m", "n"]);
    let b = buf_of(&["m", "p"]);
    assert_eq!(a.as_str_list().compare(&b.as_str_list()), Ordering::Less);
}

#[test]
fn str_compare_basic() {
    assert_eq!(str_compare("abc", "abd"), Ordering::Less);
    assert_eq!(str_compare("abc", "abc"), Ordering::Equal);
    assert_eq!(str_compare("abd", "abc"), Ordering::Greater);
    assert_eq!(str_compare("ab", "abc"), Ordering::Less);
    assert_eq!(str_compare("", "a"), Ordering::Less);
    assert_eq!(str_compare("", ""), Ordering::Equal);
}

#[test]
fn str_compare_by_scalar_value() {
    // 'é' (U+00E9) sorts after every ASCII character.
    assert_eq!(str_compare("é", "z"), Ordering::Greater);
    assert_eq!(str_compare("日", "é"), Ordering::Greater);
}
