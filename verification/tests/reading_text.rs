use marble_puzzles::text::{
    chars_of, parse_i32, parse_u32, parse_unsigned, parse_usize, split_whitespace,
};

fn letters(s: &str) -> Vec<char> {
    s.chars().collect()
}

#[test]
fn chars_come_in_order() {
    assert_eq!(Vec::<char>::new(), chars_of(""));
    assert_eq!(vec!['a', '\u{e9}', ' ', '\u{1f600}'], chars_of("a\u{e9} \u{1f600}"));
}

#[test]
fn words_are_split_like_the_standard_library_does() {
    let texts = [
        "",
        " ",
        "a",
        " a",
        "a ",
        "a b",
        "  lead and  trail\t\n",
        "+1\n-2\n+3\n+1",
        "x\u{a0}y\u{2003}z\u{3000}w",
        "tab\tand\r\nnewline\u{b}vt\u{c}ff",
        "no\u{200b}break",
        "\u{85}next\u{2028}line\u{2029}",
    ];
    for text in texts {
        let expected: Vec<Vec<char>> = text.split_whitespace().map(letters).collect();
        assert_eq!(expected, split_whitespace(text));
    }
}

#[test]
fn unsigned_numbers_are_read_up_to_a_limit() {
    assert_eq!(Some(0), parse_unsigned(&letters("0"), 0));
    assert_eq!(None, parse_unsigned(&letters("1"), 0));
    assert_eq!(Some(255), parse_unsigned(&letters("255"), 255));
    assert_eq!(None, parse_unsigned(&letters("256"), 255));
    assert_eq!(Some(12), parse_unsigned(&letters("+0012"), 255));
    assert_eq!(Some(u64::MAX), parse_unsigned(&letters("18446744073709551615"), u64::MAX));
    assert_eq!(None, parse_unsigned(&letters("18446744073709551616"), u64::MAX));
    assert_eq!(None, parse_unsigned(&letters(""), 9));
    assert_eq!(None, parse_unsigned(&letters("+"), 9));
    assert_eq!(None, parse_unsigned(&letters("++1"), 9));
    assert_eq!(None, parse_unsigned(&letters("-1"), 9));
    assert_eq!(None, parse_unsigned(&letters("1 "), 9));
    assert_eq!(None, parse_unsigned(&letters("99999999999999999999x"), 9));
}

#[test]
fn numbers_are_read_like_the_standard_library_does() {
    let words = [
        "", "+", "-", "0", "-0", "+0", "12", "-12", "+12", "0012", "2147483647", "2147483648",
        "-2147483648", "-2147483649", "4294967295", "4294967296", "18446744073709551615",
        "18446744073709551616", "1e3", "0x10", " 1", "1 ", "1_0", "--1", "+-1", "\u{0661}",
        "\u{ff11}", "9223372036854775808",
    ];
    for word in words {
        assert_eq!(word.parse::<i32>().ok(), parse_i32(&letters(word)));
        assert_eq!(word.parse::<u32>().ok(), parse_u32(&letters(word)));
        assert_eq!(word.parse::<usize>().ok(), parse_usize(&letters(word)));
    }
}
