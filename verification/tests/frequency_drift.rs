use marble_puzzles::frequency::{
    calc_freq, find_first_repeated_freq, parse_changes, search_first_repeated, sum_changes,
    try_calc_freq, try_find_first_repeated_freq, try_parse_changes,
};

#[test]
fn test_calc_freq() {
    assert_eq!(calc_freq("+1\n-2\n+3\n+1"), 3);
    assert_eq!(calc_freq("+1\n+1\n+1"), 3);
    assert_eq!(calc_freq("+1\n+1\n-2"), 0);
    assert_eq!(calc_freq("-1\n-2\n-3"), -6);
}

#[test]
fn test_parse_changes() {
    assert_eq!(parse_changes("+1 -2 +3 +1"), vec![1, -2, 3, 1]);
    assert_eq!(parse_changes("+1 +1 +1"), vec![1, 1, 1]);
    assert_eq!(parse_changes("+1 +1 -2"), vec![1, 1, -2]);
    assert_eq!(parse_changes("-1 -2 -3"), vec![-1, -2, -3]);
}

#[test]
fn test_find_first_repeated_freq() {
    assert_eq!(find_first_repeated_freq("+1 -2 +3 +1"), 2);
    assert_eq!(find_first_repeated_freq("+1 -1"), 0);
    assert_eq!(find_first_repeated_freq("+3 +3 +4 -2 -4"), 10);
    assert_eq!(find_first_repeated_freq("-6 +3 +8 +5 -6"), 5);
    assert_eq!(find_first_repeated_freq("+7 +7 -2 -7 -4"), 14);
}

#[test]
fn try_parse_changes_accepts_what_parse_changes_reads() {
    assert_eq!(try_parse_changes("+1 -2 +3 +1"), Some(vec![1, -2, 3, 1]));
    assert_eq!(try_parse_changes(""), Some(vec![]));
    assert_eq!(try_parse_changes(" \n\t "), Some(vec![]));
    assert_eq!(try_parse_changes("7"), Some(vec![7]));
    assert_eq!(
        try_parse_changes("\u{a0}2147483647\u{2003}-2147483648\r\n"),
        Some(vec![i32::MAX, i32::MIN])
    );
    assert_eq!(try_parse_changes("-0 +0 0 007"), Some(vec![0, 0, 0, 7]));
}

#[test]
fn try_parse_changes_rejects_other_words() {
    assert_eq!(try_parse_changes("+1 x"), None);
    assert_eq!(try_parse_changes("+"), None);
    assert_eq!(try_parse_changes("-"), None);
    assert_eq!(try_parse_changes("+-1"), None);
    assert_eq!(try_parse_changes("1_000"), None);
    assert_eq!(try_parse_changes("1,2"), None);
    assert_eq!(try_parse_changes("2147483648"), None);
    assert_eq!(try_parse_changes("-2147483649"), None);
    assert_eq!(try_parse_changes("99999999999999999999999999"), None);
    assert_eq!(try_parse_changes("\u{0663}"), None);
}

#[test]
fn changes_add_up() {
    assert_eq!(sum_changes(&vec![]), 0);
    assert_eq!(sum_changes(&vec![i32::MAX, i32::MAX, 2]), 4294967296);
    assert_eq!(sum_changes(&vec![i32::MIN, i32::MIN]), -4294967296);
    assert_eq!(try_calc_freq("+1\n-2\n+3\n+1"), Some(3));
    assert_eq!(try_calc_freq(""), Some(0));
    assert_eq!(try_calc_freq("2147483647 1 -1"), Some(2147483647));
    assert_eq!(try_calc_freq("2147483647 1"), None);
    assert_eq!(try_calc_freq("-2147483648 -1"), None);
    assert_eq!(try_calc_freq("1 two"), None);
}

#[test]
fn first_repeat_is_found_or_ruled_out() {
    assert_eq!(search_first_repeated(&vec![]), Some(0));
    assert_eq!(search_first_repeated(&vec![0]), Some(0));
    assert_eq!(search_first_repeated(&vec![1, -1]), Some(0));
    assert_eq!(search_first_repeated(&vec![3, 3, 4, -2, -4]), Some(10));
    assert_eq!(search_first_repeated(&vec![1_000_000_000]), None);
    assert_eq!(search_first_repeated(&vec![-2_000_000_000, -1_000_000_000]), None);
    assert_eq!(try_find_first_repeated_freq("+7 +7 -2 -7 -4"), Some(14));
    assert_eq!(try_find_first_repeated_freq(""), Some(0));
    assert_eq!(try_find_first_repeated_freq("+1000000000"), None);
    assert_eq!(try_find_first_repeated_freq("+1 one"), None);
}
