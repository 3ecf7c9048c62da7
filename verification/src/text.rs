//! Reading text: characters, white space, words and decimal numbers.

use vstd::prelude::*;

verus! {

/// Whether `c` is white space: the answer of `char::is_whitespace`.
pub uninterp spec fn char_is_whitespace(c: char) -> bool;

/// Asks `char::is_whitespace` of the standard library, which answers by the
/// Unicode property `White_Space`. The contract gives that answer a name and
/// claims nothing else of it.
#[verifier::external_body]
fn is_whitespace(c: char) -> (b: bool)
    ensures
        b == char_is_whitespace(c),
{
    c.is_whitespace()
}

/// Appends `c` to `text` with `String::push` of the standard library, which
/// adds the character at the end and changes nothing before it.
#[verifier::external_body]
pub(crate) fn push_char(text: &mut String, c: char)
    ensures
        final(text)@ == old(text)@.push(c),
{
    text.push(c)
}

/// The characters of `s`, in order.
pub fn chars_of(s: &str) -> (v: Vec<char>)
    ensures
        v@ == s@,
{
    let mut v: Vec<char> = Vec::new();
    for c in it: s.chars()
        invariant
            it.seq() == s@,
            v@ == it.seq().take(it.index() as int),
    {
        v.push(c);
        assert(v@ =~= it.seq().take(it.index() + 1));
    }
    assert(v@ =~= s@);
    v
}

/// The number of characters at the start of `s` before the first white space
/// or the end.
pub open spec fn word_len(s: Seq<char>) -> nat
    decreases s.len(),
{
    if s.len() == 0 || char_is_whitespace(s[0]) {
        0
    } else {
        1 + word_len(s.drop_first())
    }
}

/// The words of `s`: its longest runs of characters that are not white
/// space, from left to right.
pub open spec fn words(s: Seq<char>) -> Seq<Seq<char>>
    decreases s.len(),
    via words_decreases
{
    if s.len() == 0 {
        Seq::empty()
    } else if char_is_whitespace(s[0]) {
        words(s.drop_first())
    } else {
        seq![s.take(word_len(s) as int)] + words(s.skip(word_len(s) as int))
    }
}

#[via_fn]
proof fn words_decreases(s: Seq<char>) {
    lemma_word_len_bound(s);
}

/// A word is no longer than the text it starts.
pub proof fn lemma_word_len_bound(s: Seq<char>)
    ensures
        word_len(s) <= s.len(),
        s.len() > 0 && !char_is_whitespace(s[0]) ==> word_len(s) >= 1,
    decreases s.len(),
{
    if s.len() > 0 && !char_is_whitespace(s[0]) {
        lemma_word_len_bound(s.drop_first());
    }
}

/// A run of `run` characters without white space, with white space or the end
/// behind it, is a word.
proof fn lemma_word_len_run(s: Seq<char>, run: nat)
    requires
        run <= s.len(),
        forall|k: int| 0 <= k < run ==> !char_is_whitespace(#[trigger] s[k]),
        run == s.len() || char_is_whitespace(s[run as int]),
    ensures
        word_len(s) == run,
    decreases run,
{
    if run > 0 {
        let rest = s.drop_first();
        assert forall|k: int| 0 <= k < run - 1 implies !char_is_whitespace(#[trigger] rest[k]) by {
            assert(rest[k] == s[k + 1]);
        }
        lemma_word_len_run(rest, (run - 1) as nat);
    }
}

/// The characters of the word at the start of `s` are not white space.
pub proof fn lemma_word_has_no_space(s: Seq<char>, place: int)
    requires
        0 <= place < word_len(s),
    ensures
        place < s.len(),
        !char_is_whitespace(s[place]),
    decreases s.len(),
{
    if place > 0 {
        lemma_word_has_no_space(s.drop_first(), place - 1);
    }
}

/// No word is empty, and no word holds white space.
pub proof fn lemma_words_are_words(s: Seq<char>, index: int)
    requires
        0 <= index < words(s).len(),
    ensures
        words(s)[index].len() > 0,
        forall|place: int|
            0 <= place < words(s)[index].len() ==> !char_is_whitespace(
                #[trigger] words(s)[index][place],
            ),
    decreases s.len(),
{
    lemma_word_len_bound(s);
    if char_is_whitespace(s[0]) {
        lemma_words_are_words(s.drop_first(), index);
    } else if index == 0 {
        let word = s.take(word_len(s) as int);
        assert(words(s)[0] == word);
        assert forall|place: int| 0 <= place < word.len() implies !char_is_whitespace(
            #[trigger] word[place],
        ) by {
            lemma_word_has_no_space(s, place);
        }
    } else {
        let rest = s.skip(word_len(s) as int);
        assert(words(s)[index] == words(rest)[index - 1]);
        lemma_words_are_words(rest, index - 1);
    }
}

/// The character sequences that a vector of words stands for.
pub open spec fn word_views(found: Seq<Vec<char>>) -> Seq<Seq<char>> {
    Seq::new(found.len(), |i: int| found[i]@)
}

/// Splits `s` at white space and returns its words in order. Empty words do
/// not occur: white space at either end, or several in a row, separates as
/// one would.
pub fn split_whitespace(s: &str) -> (found: Vec<Vec<char>>)
    ensures
        word_views(found@) == words(s@),
{
    let chars: Vec<char> = chars_of(s);
    let length: usize = chars.len();
    let mut found: Vec<Vec<char>> = Vec::new();
    let mut at: usize = 0;
    assert(s@.skip(0) =~= s@);
    assert(word_views(found@) + words(s@) =~= words(s@));
    while at < length
        invariant
            chars@ == s@,
            length == chars.len(),
            at <= length,
            words(s@) == word_views(found@) + words(s@.skip(at as int)),
        decreases length - at,
    {
        if is_whitespace(chars[at]) {
            assert(s@.skip(at as int).drop_first() =~= s@.skip(at + 1));
            at = at + 1;
        } else {
            let start: usize = at;
            let mut word: Vec<char> = Vec::new();
            while at < length && !is_whitespace(chars[at])
                invariant
                    chars@ == s@,
                    length == chars.len(),
                    start <= at <= length,
                    word@ == s@.subrange(start as int, at as int),
                    forall|k: int| start <= k < at ==> !char_is_whitespace(#[trigger] s@[k]),
                decreases length - at,
            {
                word.push(chars[at]);
                at = at + 1;
                assert(word@ =~= s@.subrange(start as int, at as int));
            }
            proof {
                let rest = s@.skip(start as int);
                assert forall|k: int| 0 <= k < at - start implies !char_is_whitespace(
                    #[trigger] rest[k],
                ) by {
                    assert(rest[k] == s@[start + k]);
                }
                lemma_word_len_run(rest, (at - start) as nat);
                assert(rest.take(at - start) =~= word@);
                assert(rest.skip(at - start) =~= s@.skip(at as int));
                assert(word_views(found@.push(word)) =~= word_views(found@) + seq![word@]);
                assert((word_views(found@) + seq![word@]) + words(s@.skip(at as int))
                    =~= word_views(found@) + (seq![word@] + words(s@.skip(at as int))));
            }
            found.push(word);
        }
    }
    assert(words(s@.skip(at as int)) =~= Seq::<Seq<char>>::empty());
    assert(word_views(found@) + Seq::<Seq<char>>::empty() =~= word_views(found@));
    found
}

/// Whether `c` is one of the ten decimal digits.
pub open spec fn is_digit(c: char) -> bool {
    '0' as u32 <= c as u32 <= '9' as u32
}

/// The number that the digit `c` stands for.
pub open spec fn digit_value(c: char) -> nat {
    (c as u32 - '0' as u32) as nat
}

/// Whether `s` is made of decimal digits only.
pub open spec fn all_digits(s: Seq<char>) -> bool {
    forall|i: int| 0 <= i < s.len() ==> is_digit(#[trigger] s[i])
}

/// The number that the digits of `s` write in base ten; 0 for no digits.
pub open spec fn decimal_value(s: Seq<char>) -> nat
    decreases s.len(),
{
    if s.len() == 0 {
        0
    } else {
        10 * decimal_value(s.drop_last()) + digit_value(s.last())
    }
}

/// The number that `s` writes without a sign or with `+`: one digit at
/// least, and nothing but digits.
pub open spec fn unsigned_decimal(s: Seq<char>) -> Option<nat> {
    let digits = if s.len() > 0 && s[0] == '+' {
        s.drop_first()
    } else {
        s
    };
    if digits.len() > 0 && all_digits(digits) {
        Some(decimal_value(digits))
    } else {
        None
    }
}

/// The number that `s` writes, with `-` or `+` in front or without a sign.
pub open spec fn signed_decimal(s: Seq<char>) -> Option<int> {
    if s.len() > 0 && s[0] == '-' {
        if s.len() > 1 && all_digits(s.drop_first()) {
            Some(-(decimal_value(s.drop_first()) as int))
        } else {
            None
        }
    } else {
        match unsigned_decimal(s) {
            Some(value) => Some(value as int),
            None => None,
        }
    }
}

/// The number that `s` writes, where it writes one that is at most `limit`.
pub open spec fn unsigned_within(s: Seq<char>, limit: nat) -> Option<nat> {
    match unsigned_decimal(s) {
        Some(value) => if value <= limit {
            Some(value)
        } else {
            None
        },
        None => None,
    }
}

/// The number that `s` writes, where it writes one that an `i32` holds.
pub open spec fn i32_of(s: Seq<char>) -> Option<i32> {
    match signed_decimal(s) {
        Some(value) => if i32::MIN <= value <= i32::MAX {
            Some(value as i32)
        } else {
            None
        },
        None => None,
    }
}

/// The number that `s` writes, where it writes one that a `usize` holds.
pub open spec fn usize_of(s: Seq<char>) -> Option<usize> {
    match unsigned_within(s, usize::MAX as nat) {
        Some(value) => Some(value as usize),
        None => None,
    }
}

/// The number that `s` writes, where it writes one that a `u32` holds.
pub open spec fn u32_of(s: Seq<char>) -> Option<u32> {
    match unsigned_within(s, u32::MAX as nat) {
        Some(value) => Some(value as u32),
        None => None,
    }
}

/// Reads the characters of `s` from index `from` on as digits of a number
/// that is at most `limit`.
fn parse_digits(s: &[char], from: usize, limit: u64) -> (r: Option<u64>)
    requires
        from <= s.len(),
    ensures
        r matches Some(value) ==> value == decimal_value(s@.skip(from as int)),
        r is Some <==> from < s.len() && all_digits(s@.skip(from as int)) && decimal_value(
            s@.skip(from as int),
        ) <= limit,
{
    let length: usize = s.len();
    if from == length {
        return None;
    }
    let ghost digits = s@.skip(from as int);
    let mut value: u64 = 0;
    let mut over: bool = false;
    let mut at: usize = from;
    assert(s@.subrange(from as int, at as int) =~= Seq::<char>::empty());
    while at < length
        invariant
            from <= at <= length,
            length == s.len(),
            digits == s@.skip(from as int),
            all_digits(s@.subrange(from as int, at as int)),
            !over ==> value == decimal_value(s@.subrange(from as int, at as int)) && value
                <= limit,
            over ==> decimal_value(s@.subrange(from as int, at as int)) > limit,
        decreases length - at,
    {
        let code: u32 = s[at] as u32;
        if code < 48 || code > 57 {
            assert(digits[at - from] == s@[at as int]);
            assert(!is_digit(digits[at - from]));
            return None;
        }
        let digit: u64 = (code - 48) as u64;
        let ghost before = s@.subrange(from as int, at as int);
        let ghost now = s@.subrange(from as int, at + 1);
        proof {
            assert(now.drop_last() =~= before);
            assert(now.last() == s@[at as int]);
            assert(digit == digit_value(s@[at as int]));
            assert forall|i: int| 0 <= i < now.len() implies is_digit(#[trigger] now[i]) by {
                if i < before.len() {
                    assert(now[i] == before[i]);
                }
            }
        }
        if over || digit > limit || value > (limit - digit) / 10 {
            over = true;
        } else {
            value = 10 * value + digit;
        }
        at = at + 1;
    }
    assert(s@.subrange(from as int, at as int) =~= digits);
    if over {
        None
    } else {
        Some(value)
    }
}

/// Reads `s` as a decimal number that is at most `limit`, written without a
/// sign or with `+`.
pub fn parse_unsigned(s: &[char], limit: u64) -> (r: Option<u64>)
    ensures
        r matches Some(value) ==> unsigned_within(s@, limit as nat) == Some(value as nat),
        r is None ==> unsigned_within(s@, limit as nat) is None,
{
    if s.len() > 0 && s[0] == '+' {
        assert(s@.skip(1) =~= s@.drop_first());
        parse_digits(s, 1, limit)
    } else {
        assert(s@.skip(0) =~= s@);
        parse_digits(s, 0, limit)
    }
}

/// Reads `s` as a decimal number that an `i32` holds, with or without a sign.
pub fn parse_i32(s: &[char]) -> (r: Option<i32>)
    ensures
        r == i32_of(s@),
{
    if s.len() > 0 && s[0] == '-' {
        assert(s@.skip(1) =~= s@.drop_first());
        match parse_digits(s, 1, 0x8000_0000) {
            Some(value) => Some((0 - (value as i64)) as i32),
            None => None,
        }
    } else {
        match parse_unsigned(s, 0x7fff_ffff) {
            Some(value) => Some(value as i32),
            None => None,
        }
    }
}

/// Reads `s` as a decimal number that a `usize` holds.
pub fn parse_usize(s: &[char]) -> (r: Option<usize>)
    ensures
        r == usize_of(s@),
{
    match parse_unsigned(s, usize::MAX as u64) {
        Some(value) => Some(value as usize),
        None => None,
    }
}

/// Reads `s` as a decimal number that a `u32` holds.
pub fn parse_u32(s: &[char]) -> (r: Option<u32>)
    ensures
        r == u32_of(s@),
{
    match parse_unsigned(s, 0xffff_ffff) {
        Some(value) => Some(value as u32),
        None => None,
    }
}

} // verus!
