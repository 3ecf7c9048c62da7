//! Box labels: how many labels repeat a letter a given number of times, and
//! the two labels that differ in exactly one place.

use vstd::prelude::*;
use std::collections::HashMap;
use crate::text::{chars_of, push_char};

verus! {

/// How often `letter` occurs in `id`.
pub open spec fn occurrences(id: Seq<char>, letter: char) -> nat
    decreases id.len(),
{
    if id.len() == 0 {
        0
    } else {
        occurrences(id.drop_last(), letter) + if id.last() == letter {
            1nat
        } else {
            0nat
        }
    }
}

/// Whether some letter of `id` occurs in it exactly `n` times.
pub open spec fn has_letter_exactly(id: Seq<char>, n: nat) -> bool {
    exists|i: int| 0 <= i < id.len() && occurrences(id, #[trigger] id[i]) == n
}

/// The characters of each label.
pub open spec fn id_views(box_ids: Seq<&str>) -> Seq<Seq<char>> {
    Seq::new(box_ids.len(), |i: int| box_ids[i]@)
}

/// How many of the labels have a letter that occurs exactly `n` times.
pub open spec fn count_with(ids: Seq<Seq<char>>, n: nat) -> nat
    decreases ids.len(),
{
    if ids.len() == 0 {
        0
    } else {
        count_with(ids.drop_last(), n) + if has_letter_exactly(ids.last(), n) {
            1nat
        } else {
            0nat
        }
    }
}

/// The number of places that both `a` and `b` have.
pub open spec fn shared_len(a: Seq<char>, b: Seq<char>) -> nat {
    if a.len() <= b.len() {
        a.len()
    } else {
        b.len()
    }
}

/// In how many of their first `upto` places `a` and `b` differ.
pub open spec fn mismatches_within(a: Seq<char>, b: Seq<char>, upto: nat) -> nat
    decreases upto,
{
    if upto == 0 {
        0
    } else {
        mismatches_within(a, b, (upto - 1) as nat) + if a[upto - 1] != b[upto - 1] {
            1nat
        } else {
            0nat
        }
    }
}

/// Whether `a` and `b` differ in exactly one of the places that both have.
pub open spec fn differ_by_one(a: Seq<char>, b: Seq<char>) -> bool {
    mismatches_within(a, b, shared_len(a, b)) == 1
}

/// The letters that `a` and `b` have in common, place by place, among their
/// first `upto` places.
pub open spec fn common_within(a: Seq<char>, b: Seq<char>, upto: nat) -> Seq<char>
    decreases upto,
{
    if upto == 0 {
        Seq::empty()
    } else if a[upto - 1] == b[upto - 1] {
        common_within(a, b, (upto - 1) as nat).push(a[upto - 1])
    } else {
        common_within(a, b, (upto - 1) as nat)
    }
}

/// The letters that `a` and `b` have in common, place by place.
pub open spec fn common_letters(a: Seq<char>, b: Seq<char>) -> Seq<char> {
    common_within(a, b, shared_len(a, b))
}

/// Whether labels `i` and `j` differ in exactly one place, and no pair before
/// them does; pairs are taken in the order of `i`, and for one `i` in the
/// order of `j`.
pub open spec fn is_first_pair(ids: Seq<Seq<char>>, i: int, j: int) -> bool {
    &&& 0 <= i < ids.len()
    &&& 0 <= j < ids.len()
    &&& differ_by_one(ids[i], ids[j])
    &&& forall|p: int, q: int|
        0 <= p < ids.len() && 0 <= q < ids.len() && (p < i || (p == i && q < j))
            ==> !differ_by_one(#[trigger] ids[p], #[trigger] ids[q])
}

/// Whether no two labels differ in exactly one place.
pub open spec fn no_pair(ids: Seq<Seq<char>>) -> bool {
    forall|p: int, q: int|
        0 <= p < ids.len() && 0 <= q < ids.len() ==> !differ_by_one(
            #[trigger] ids[p],
            #[trigger] ids[q],
        )
}

/// The code point of a letter, under which it is counted.
spec fn code_of(c: char) -> u32 {
    c as u32
}

/// Different letters have different code points.
proof fn lemma_code_injective(c: char, d: char)
    ensures
        c != d ==> code_of(c) != code_of(d),
{
}

/// A letter occurs in a label no more often than the label is long.
proof fn lemma_occurrences_bound(id: Seq<char>, letter: char)
    ensures
        occurrences(id, letter) <= id.len(),
    decreases id.len(),
{
    if id.len() > 0 {
        lemma_occurrences_bound(id.drop_last(), letter);
    }
}

/// Counts each letter of a label, under the letter's code point.
fn letter_counts(letters: &Vec<char>) -> (counts: HashMap<u32, usize>)
    ensures
        forall|c: char|
            occurrences(letters@, c) > 0 ==> counts@.contains_key(code_of(c)) && counts@[code_of(c)]
                == #[trigger] occurrences(letters@, c),
{
    let mut counts: HashMap<u32, usize> = HashMap::new();
    let mut at: usize = 0;
    assert(letters@.take(0) =~= Seq::<char>::empty());
    while at < letters.len()
        invariant
            at <= letters.len(),
            forall|c: char|
                occurrences(letters@.take(at as int), c) > 0 ==> counts@.contains_key(code_of(c))
                    && counts@[code_of(c)] == #[trigger] occurrences(letters@.take(at as int), c),
            forall|c: char|
                counts@.contains_key(code_of(c)) ==> #[trigger] occurrences(
                    letters@.take(at as int),
                    c,
                ) > 0,
        decreases letters.len() - at,
    {
        let letter: char = letters[at];
        let code: u32 = letter as u32;
        let ghost before = letters@.take(at as int);
        let ghost now = letters@.take(at + 1);
        let ghost old_counts = counts@;
        proof {
            assert(now.drop_last() =~= before);
            assert(now.last() == letter);
            lemma_occurrences_bound(before, letter);
        }
        let known: usize = match counts.get(&code) {
            Some(count) => *count,
            None => 0,
        };
        assert(known == occurrences(before, letter));
        counts.insert(code, known + 1);
        at = at + 1;
        assert forall|c: char| occurrences(now, c) > 0 implies counts@.contains_key(code_of(c))
            && counts@[code_of(c)] == #[trigger] occurrences(now, c) by {
            if c != letter {
                lemma_code_injective(c, letter);
                assert(occurrences(now, c) == occurrences(before, c));
            }
        }
        assert forall|c: char| counts@.contains_key(code_of(c)) implies #[trigger] occurrences(
            now,
            c,
        ) > 0 by {
            if c != letter {
                lemma_code_injective(c, letter);
                assert(old_counts.contains_key(code_of(c)));
                assert(occurrences(now, c) == occurrences(before, c));
            }
        }
    }
    assert(letters@.take(at as int) =~= letters@);
    counts
}

/// Whether some letter of `id` occurs in it exactly `n` times.
pub fn has_exactly(id: &str, n: usize) -> (found: bool)
    ensures
        found == has_letter_exactly(id@, n as nat),
{
    let letters: Vec<char> = chars_of(id);
    let counts = letter_counts(&letters);
    let mut at: usize = 0;
    while at < letters.len()
        invariant
            at <= letters.len(),
            letters@ == id@,
            forall|c: char|
                occurrences(letters@, c) > 0 ==> counts@.contains_key(code_of(c)) && counts@[code_of(c)]
                    == #[trigger] occurrences(letters@, c),
            forall|i: int| 0 <= i < at ==> occurrences(id@, #[trigger] id@[i]) != n,
        decreases letters.len() - at,
    {
        let code: u32 = letters[at] as u32;
        proof {
            let letter = letters[at as int];
            assert(occurrences(letters@, letter) > 0) by {
                lemma_occurs(letters@, at as int);
            }
        }
        match counts.get(&code) {
            Some(count) => {
                if *count == n {
                    return true;
                }
            },
            None => {},
        }
        at = at + 1;
    }
    false
}

/// A letter that stands in a label occurs in it.
proof fn lemma_occurs(id: Seq<char>, place: int)
    requires
        0 <= place < id.len(),
    ensures
        occurrences(id, id[place]) > 0,
    decreases id.len(),
{
    if place < id.len() - 1 {
        lemma_occurs(id.drop_last(), place);
    }
}

/// How many of the labels have a letter that occurs exactly `n` times.
pub fn count_exactly_n(box_ids: &[&str], n: usize) -> (count: usize)
    ensures
        count == count_with(id_views(box_ids@), n as nat),
{
    let ghost ids = id_views(box_ids@);
    let mut count: usize = 0;
    let mut at: usize = 0;
    assert(ids.take(0) =~= Seq::<Seq<char>>::empty());
    while at < box_ids.len()
        invariant
            at <= box_ids.len(),
            ids == id_views(box_ids@),
            count == count_with(ids.take(at as int), n as nat),
            count <= at,
        decreases box_ids.len() - at,
    {
        proof {
            assert(ids.take(at + 1).drop_last() =~= ids.take(at as int));
            assert(ids.take(at + 1).last() == box_ids@[at as int]@);
        }
        if has_exactly(box_ids[at], n) {
            count = count + 1;
        }
        at = at + 1;
    }
    assert(ids.take(at as int) =~= ids);
    count
}

/// The number of labels with a letter that occurs exactly twice, times the
/// number of labels with a letter that occurs exactly three times.
pub fn calc_checksum(box_ids: &[&str]) -> (checksum: usize)
    requires
        count_with(id_views(box_ids@), 2) * count_with(id_views(box_ids@), 3) <= usize::MAX,
    ensures
        checksum == count_with(id_views(box_ids@), 2) * count_with(id_views(box_ids@), 3),
{
    count_exactly_n(box_ids, 2) * count_exactly_n(box_ids, 3)
}

/// Whether `s1` and `s2` differ in exactly one of the places that both have.
pub fn differ_by_one_char(s1: &str, s2: &str) -> (differ: bool)
    ensures
        differ == differ_by_one(s1@, s2@),
{
    let first: Vec<char> = chars_of(s1);
    let second: Vec<char> = chars_of(s2);
    let shared: usize = if first.len() <= second.len() {
        first.len()
    } else {
        second.len()
    };
    let mut differing: usize = 0;
    let mut at: usize = 0;
    while at < shared
        invariant
            at <= shared,
            shared == shared_len(s1@, s2@),
            first@ == s1@,
            second@ == s2@,
            differing == mismatches_within(s1@, s2@, at as nat),
            differing <= at,
        decreases shared - at,
    {
        if first[at] != second[at] {
            differing = differing + 1;
        }
        at = at + 1;
    }
    differing == 1
}

/// The first two labels that differ in exactly one place, if any two do.
pub fn find_fabric_boxes<'a>(box_ids: &[&'a str]) -> (pair: Option<(&'a str, &'a str)>)
    ensures
        match pair {
            Some((first, second)) => exists|i: int, j: int|
                is_first_pair(id_views(box_ids@), i, j) && first == box_ids@[i] && second
                    == box_ids@[j],
            None => no_pair(id_views(box_ids@)),
        },
{
    let ghost ids = id_views(box_ids@);
    let length: usize = box_ids.len();
    let mut i: usize = 0;
    while i < length
        invariant
            i <= length,
            length == box_ids.len(),
            ids == id_views(box_ids@),
            forall|p: int, q: int|
                0 <= p < i && 0 <= q < length ==> !differ_by_one(
                    #[trigger] ids[p],
                    #[trigger] ids[q],
                ),
        decreases length - i,
    {
        let mut j: usize = 0;
        while j < length
            invariant
                i < length,
                j <= length,
                length == box_ids.len(),
                ids == id_views(box_ids@),
                forall|p: int, q: int|
                    0 <= p < i && 0 <= q < length ==> !differ_by_one(
                        #[trigger] ids[p],
                        #[trigger] ids[q],
                    ),
                forall|q: int| 0 <= q < j ==> !differ_by_one(ids[i as int], #[trigger] ids[q]),
            decreases length - j,
        {
            if differ_by_one_char(box_ids[i], box_ids[j]) {
                assert(is_first_pair(ids, i as int, j as int));
                return Some((box_ids[i], box_ids[j]));
            }
            j = j + 1;
        }
        i = i + 1;
    }
    None
}

/// The letters that the first two labels differing in exactly one place have
/// in common, place by place.
pub fn find_common_letters(box_ids: &[&str]) -> (letters: Option<String>)
    ensures
        match letters {
            Some(common) => exists|i: int, j: int|
                is_first_pair(id_views(box_ids@), i, j) && common@ == common_letters(
                    #[trigger] id_views(box_ids@)[i],
                    #[trigger] id_views(box_ids@)[j],
                ),
            None => no_pair(id_views(box_ids@)),
        },
{
    match find_fabric_boxes(box_ids) {
        Some((box1, box2)) => {
            let first: Vec<char> = chars_of(box1);
            let second: Vec<char> = chars_of(box2);
            let shared: usize = if first.len() <= second.len() {
                first.len()
            } else {
                second.len()
            };
            let mut common: String = String::new();
            let mut at: usize = 0;
            while at < shared
                invariant
                    at <= shared,
                    shared == shared_len(box1@, box2@),
                    first@ == box1@,
                    second@ == box2@,
                    common@ == common_within(box1@, box2@, at as nat),
                decreases shared - at,
            {
                if first[at] == second[at] {
                    push_char(&mut common, first[at]);
                }
                at = at + 1;
            }
            proof {
                let (i, j) = choose|i: int, j: int|
                    is_first_pair(id_views(box_ids@), i, j) && box1 == box_ids@[i] && box2
                        == box_ids@[j];
                assert(is_first_pair(id_views(box_ids@), i, j) && common@ == common_letters(
                    id_views(box_ids@)[i],
                    id_views(box_ids@)[j],
                ));
            }
            Some(common)
        },
        None => None,
    }
}

} // verus!
