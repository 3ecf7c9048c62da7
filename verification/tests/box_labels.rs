use marble_puzzles::box_ids::{
    calc_checksum, count_exactly_n, differ_by_one_char, find_common_letters, find_fabric_boxes,
    has_exactly,
};

#[test]
fn test_count_exactly_two() {
    let v = [
        "abcdef", "bababc", "abbcde", "abcccd", "aabcdd", "abcdee", "ababab",
    ];
    assert_eq!(count_exactly_n(&v, 2), 4);
}

#[test]
fn test_count_exactly_three() {
    let v = [
        "abcdef", "bababc", "abbcde", "abcccd", "aabcdd", "abcdee", "ababab",
    ];
    assert_eq!(count_exactly_n(&v, 3), 3);
}

#[test]
fn test_calc_checksum() {
    let v = [
        "abcdef", "bababc", "abbcde", "abcccd", "aabcdd", "abcdee", "ababab",
    ];
    assert_eq!(calc_checksum(&v), 12);
}

#[test]
fn test_find_common_letters() {
    let v = [
        "abcde", "fghij", "klmno", "pqrst", "fguij", "axcye", "wvxyz",
    ];
    assert_eq!(find_common_letters(&v).unwrap(), "fgij");
}

#[test]
fn test_find_box_ids() {
    let v = [
        "abcde", "fghij", "klmno", "pqrst", "fguij", "axcye", "wvxyz",
    ];
    assert_eq!(find_fabric_boxes(&v).unwrap(), ("fghij", "fguij"));
}

#[test]
fn test_differ_by_one_char() {
    assert!(differ_by_one_char("fghij", "fguij"));
    assert!(!differ_by_one_char("abcde", "axcye"));
}

#[test]
fn letters_are_counted_one_by_one() {
    assert!(has_exactly("bababc", 2));
    assert!(has_exactly("bababc", 3));
    assert!(has_exactly("bababc", 1));
    assert!(!has_exactly("bababc", 4));
    assert!(!has_exactly("bababc", 0));
    assert!(!has_exactly("", 0));
    assert!(!has_exactly("", 1));
    assert!(has_exactly("\u{e9}a\u{e9}", 2));
    assert!(has_exactly("\u{1f600}\u{1f600}\u{1f601}", 1));
}

#[test]
fn counting_edge_cases() {
    let none: [&str; 0] = [];
    assert_eq!(count_exactly_n(&none, 2), 0);
    assert_eq!(calc_checksum(&none), 0);
    let v = ["aa", "bb", "abc", ""];
    assert_eq!(count_exactly_n(&v, 0), 0);
    assert_eq!(count_exactly_n(&v, 1), 1);
    assert_eq!(count_exactly_n(&v, 2), 2);
    assert_eq!(calc_checksum(&v), 0);
}

#[test]
fn differing_places_are_counted_over_the_shared_length() {
    assert!(!differ_by_one_char("", ""));
    assert!(!differ_by_one_char("abc", "abc"));
    assert!(differ_by_one_char("abc", "abd"));
    assert!(differ_by_one_char("abc", "xb"));
    assert!(!differ_by_one_char("abc", "ab"));
    assert!(!differ_by_one_char("abc", "xyc"));
    assert!(differ_by_one_char("a\u{e9}c", "aec"));
}

#[test]
fn first_pair_comes_in_reading_order() {
    let v = ["abc", "xyz", "abd", "xyw"];
    assert_eq!(find_fabric_boxes(&v), Some(("abc", "abd")));
    assert_eq!(find_common_letters(&v), Some(String::from("ab")));
    let w = ["xyw", "abc", "abd", "xyz"];
    assert_eq!(find_fabric_boxes(&w), Some(("xyw", "xyz")));
    let lone = ["abc", "abc", "xyz"];
    assert_eq!(find_fabric_boxes(&lone), None);
    assert_eq!(find_common_letters(&lone), None);
    let short = ["abcde", "abx"];
    assert_eq!(find_common_letters(&short), Some(String::from("ab")));
}
