//! Frequency drift: a list of signed changes, the frequency they add up to,
//! and the first frequency that is reached twice when the list is read
//! again and again.

use vstd::prelude::*;
use vstd::set_lib::{lemma_int_range, lemma_len_subset, lemma_map_size, set_int_range};
use std::collections::HashSet;
use crate::circle::lemma_wrapped_step;
use crate::text::{i32_of, parse_i32, split_whitespace, word_views, words};

verus! {

/// Whether every word of `s` writes a change: a decimal number that an `i32`
/// holds, with or without a sign.
pub open spec fn changes_valid(s: Seq<char>) -> bool {
    forall|i: int| 0 <= i < words(s).len() ==> i32_of(#[trigger] words(s)[i]) is Some
}

/// The changes that the words of `s` write, in order.
pub open spec fn changes_of(s: Seq<char>) -> Seq<i32> {
    Seq::new(words(s).len(), |i: int| i32_of(words(s)[i]).unwrap())
}

/// The sum of the changes.
pub open spec fn total(changes: Seq<i32>) -> int
    decreases changes.len(),
{
    if changes.len() == 0 {
        0
    } else {
        total(changes.drop_last()) + changes.last()
    }
}

/// The frequency after `steps` changes, starting from 0 and reading the list
/// again from its start whenever its end is reached.
pub open spec fn reached(changes: Seq<i32>, steps: nat) -> int
    decreases steps,
{
    if steps == 0 || changes.len() == 0 {
        0
    } else {
        reached(changes, (steps - 1) as nat) + changes[((steps - 1) % (changes.len() as int))]
    }
}

/// Whether the frequency after `steps` changes was reached before.
pub open spec fn repeats_at(changes: Seq<i32>, steps: nat) -> bool {
    exists|earlier: nat| earlier < steps && reached(changes, earlier) == reached(changes, steps)
}

/// Whether the first frequency to be reached twice is reached for the second
/// time after `steps` changes, every frequency up to then being one that an
/// `i32` holds.
pub open spec fn first_repeat_at(changes: Seq<i32>, steps: nat) -> bool {
    &&& repeats_at(changes, steps)
    &&& forall|sooner: nat| sooner < steps ==> !repeats_at(changes, sooner)
    &&& forall|upto: nat| upto <= steps ==> i32::MIN <= #[trigger] reached(changes, upto) <= i32::MAX
}

/// The first frequency that is reached twice. Without changes that is 0.
/// `None` where a frequency that no `i32` holds comes before any repeat.
pub open spec fn first_repeated(changes: Seq<i32>) -> Option<int> {
    if changes.len() == 0 {
        Some(0)
    } else if exists|steps: nat| first_repeat_at(changes, steps) {
        Some(reached(changes, choose|steps: nat| first_repeat_at(changes, steps)))
    } else {
        None
    }
}

/// There is one first repeat at most.
pub proof fn lemma_first_repeat_unique(changes: Seq<i32>, one: nat, other: nat)
    requires
        first_repeat_at(changes, one),
        first_repeat_at(changes, other),
    ensures
        one == other,
{
}

/// No more than 2^32 different values are `i32`s.
proof fn lemma_i32_set_bound(s: Set<i32>)
    requires
        s.finite(),
    ensures
        s.len() <= 0x1_0000_0000,
{
    let f = |x: i32| x as int;
    let image = s.map(f);
    let all = set_int_range(-0x8000_0000, 0x8000_0000);
    assert(vstd::relations::injective_on(f, s));
    lemma_map_size(s, image, f);
    lemma_int_range(-0x8000_0000, 0x8000_0000);
    assert(image.subset_of(all)) by {
        assert forall|v: int| image.contains(v) implies all.contains(v) by {
            let x = choose|x: i32| s.contains(x) && f(x) == v;
            assert(-0x8000_0000 <= v < 0x8000_0000);
        }
    }
    lemma_len_subset(image, all);
}

/// Reads each word as a change; `None` where a word writes none.
fn read_changes(found: &Vec<Vec<char>>) -> (r: Option<Vec<i32>>)
    ensures
        r is Some <==> forall|i: int|
            0 <= i < found.len() ==> i32_of(#[trigger] word_views(found@)[i]) is Some,
        r matches Some(changes) ==> changes@ == Seq::new(
            found.len() as nat,
            |i: int| i32_of(word_views(found@)[i]).unwrap(),
        ),
{
    let mut changes: Vec<i32> = Vec::new();
    let mut at: usize = 0;
    while at < found.len()
        invariant
            at <= found.len(),
            changes.len() == at,
            forall|i: int| 0 <= i < at ==> i32_of(#[trigger] word_views(found@)[i]) == Some(
                changes[i],
            ),
        decreases found.len() - at,
    {
        assert(word_views(found@)[at as int] == found[at as int]@);
        match parse_i32(found[at].as_slice()) {
            Some(change) => {
                changes.push(change);
            },
            None => {
                return None;
            },
        }
        at = at + 1;
    }
    assert(changes@ =~= Seq::new(
        found.len() as nat,
        |i: int| i32_of(word_views(found@)[i]).unwrap(),
    ));
    Some(changes)
}

/// Reads the changes that `text` lists, separated by white space; `None`
/// where a word is not a change.
pub fn try_parse_changes(text: &str) -> (r: Option<Vec<i32>>)
    ensures
        r is Some <==> changes_valid(text@),
        r matches Some(changes) ==> changes@ == changes_of(text@),
{
    let found = split_whitespace(text);
    match read_changes(&found) {
        // Every word is a change, so the list can be read.
        Some(_) => Some(parse_changes(text)),
        None => None,
    }
}

/// Reads the changes that `s` lists, separated by white space.
pub fn parse_changes(s: &str) -> (changes: Vec<i32>)
    requires
        changes_valid(s@),
    ensures
        changes@ == changes_of(s@),
{
    let found = split_whitespace(s);
    read_changes(&found).unwrap()
}

/// Adds the changes up.
pub fn sum_changes(changes: &Vec<i32>) -> (sum: i128)
    ensures
        sum == total(changes@),
{
    let mut sum: i128 = 0;
    let mut at: usize = 0;
    assert(changes@.take(0) =~= Seq::<i32>::empty());
    while at < changes.len()
        invariant
            at <= changes.len(),
            sum == total(changes@.take(at as int)),
            -0x8000_0000 * at <= sum <= 0x8000_0000 * at,
        decreases changes.len() - at,
    {
        assert(changes@.take(at + 1).drop_last() =~= changes@.take(at as int));
        sum = sum + changes[at] as i128;
        at = at + 1;
    }
    assert(changes@.take(at as int) =~= changes@);
    sum
}

/// The frequency that the changes listed in `s` add up to, starting from 0.
pub fn calc_freq(s: &str) -> (frequency: i32)
    requires
        changes_valid(s@),
        i32::MIN <= total(changes_of(s@)) <= i32::MAX,
    ensures
        frequency == total(changes_of(s@)),
{
    let changes = parse_changes(s);
    sum_changes(&changes) as i32
}

/// The frequency that the changes listed in `text` add up to; `None` where a
/// word is not a change or the sum is one that no `i32` holds.
pub fn try_calc_freq(text: &str) -> (r: Option<i32>)
    ensures
        r is Some <==> changes_valid(text@) && i32::MIN <= total(changes_of(text@)) <= i32::MAX,
        r matches Some(frequency) ==> frequency == total(changes_of(text@)),
{
    match try_parse_changes(text) {
        Some(changes) => {
            let sum = sum_changes(&changes);
            if sum < -0x8000_0000 || sum > 0x7fff_ffff {
                None
            } else {
                // The sum is in range, so the frequency can be computed.
                Some(calc_freq(text))
            }
        },
        None => None,
    }
}

/// Looks for the first frequency that is reached twice when the changes are
/// applied again and again, starting from 0.
pub fn search_first_repeated(changes: &Vec<i32>) -> (r: Option<i32>)
    ensures
        r matches Some(frequency) ==> first_repeated(changes@) == Some(frequency as int),
        r is None ==> first_repeated(changes@) is None,
{
    let length: usize = changes.len();
    if length == 0 {
        return Some(0);
    }
    let mut seen: HashSet<i32> = HashSet::new();
    seen.insert(0);
    let mut frequency: i32 = 0;
    let mut index: usize = 0;
    let ghost mut steps: nat = 0;
    assert(reached(changes@, 0) == 0);
    loop
        invariant
            length == changes.len(),
            length > 0,
            index == steps % (length as nat),
            index < length,
            frequency == reached(changes@, steps),
            seen@.finite(),
            seen@.len() == steps + 1,
            forall|k: nat| k <= steps ==> seen@.contains((#[trigger] reached(changes@, k)) as i32),
            forall|f: i32| #[trigger]
                seen@.contains(f) ==> exists|k: nat| k <= steps && reached(changes@, k) == f,
            forall|k: nat| k <= steps ==> i32::MIN <= #[trigger] reached(changes@, k) <= i32::MAX,
            forall|k: nat| k <= steps ==> !repeats_at(changes@, k),
        decreases 0x1_0000_0000 - seen@.len(),
    {
        let next: i64 = frequency as i64 + changes[index] as i64;
        assert(reached(changes@, steps + 1) == next);
        if next < -0x8000_0000 || next > 0x7fff_ffff {
            proof {
                assert forall|m: nat| !first_repeat_at(changes@, m) by {
                    if first_repeat_at(changes@, m) {
                        if m <= steps {
                            assert(repeats_at(changes@, m));
                        } else {
                            assert(i32::MIN <= reached(changes@, steps + 1) <= i32::MAX);
                        }
                    }
                }
            }
            return None;
        }
        let next: i32 = next as i32;
        if seen.contains(&next) {
            proof {
                let earlier = choose|k: nat| k <= steps && reached(changes@, k) == next;
                assert(earlier < steps + 1 && reached(changes@, earlier) == reached(
                    changes@,
                    steps + 1,
                ));
                assert(repeats_at(changes@, steps + 1));
                assert forall|upto: nat| upto <= steps + 1 implies i32::MIN <= #[trigger] reached(
                    changes@,
                    upto,
                ) <= i32::MAX by {
                    if upto <= steps {
                    }
                }
                assert(first_repeat_at(changes@, steps + 1));
                let chosen = choose|m: nat| first_repeat_at(changes@, m);
                lemma_first_repeat_unique(changes@, chosen, steps + 1);
            }
            return Some(next);
        }
        proof {
            assert(!repeats_at(changes@, steps + 1)) by {
                if repeats_at(changes@, steps + 1) {
                    let target = reached(changes@, steps + 1);
                    let earlier = choose|earlier: nat|
                        earlier < steps + 1 && #[trigger] reached(changes@, earlier) == target;
                    assert(seen@.contains(reached(changes@, earlier) as i32));
                }
            }
            lemma_wrapped_step(steps as int, length as int);
        }
        let ghost before = seen@;
        seen.insert(next);
        frequency = next;
        index = if index + 1 == length {
            0
        } else {
            index + 1
        };
        proof {
            steps = steps + 1;
            lemma_i32_set_bound(seen@);
            assert forall|k: nat| k <= steps implies seen@.contains(
                (#[trigger] reached(changes@, k)) as i32,
            ) by {
                if k < steps {
                    assert(before.contains(reached(changes@, k) as i32));
                }
            }
            assert forall|f: i32| #[trigger] seen@.contains(f) implies exists|k: nat|
                k <= steps && reached(changes@, k) == f by {
                if f == next {
                    assert(steps <= steps && reached(changes@, steps) == f);
                } else {
                    assert(before.contains(f));
                    let k = choose|k: nat| k <= steps - 1 && reached(changes@, k) == f;
                    assert(k <= steps && reached(changes@, k) == f);
                }
            }
        }
    }
}

/// The first frequency that is reached twice when the changes listed in `s`
/// are applied again and again, starting from 0.
pub fn find_first_repeated_freq(s: &str) -> (frequency: i32)
    requires
        changes_valid(s@),
        first_repeated(changes_of(s@)) is Some,
    ensures
        first_repeated(changes_of(s@)) == Some(frequency as int),
{
    let changes = parse_changes(s);
    search_first_repeated(&changes).unwrap()
}

/// The first frequency that is reached twice when the changes listed in
/// `text` are applied again and again; `None` where a word is not a change,
/// or a frequency that no `i32` holds comes first.
pub fn try_find_first_repeated_freq(text: &str) -> (r: Option<i32>)
    ensures
        r is Some <==> changes_valid(text@) && first_repeated(changes_of(text@)) is Some,
        r matches Some(frequency) ==> first_repeated(changes_of(text@)) == Some(frequency as int),
{
    match try_parse_changes(text) {
        Some(changes) => match search_first_repeated(&changes) {
            // A frequency repeats in range, so it can be found.
            Some(_) => Some(find_first_repeated_freq(text)),
            None => None,
        },
        None => None,
    }
}

} // verus!
