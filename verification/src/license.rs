//! The license tree: a list of numbers that writes a tree node by node, each
//! node as a count of children, a count of metadata entries, the children,
//! and the entries.

use vstd::prelude::*;
use crate::text::{parse_usize, split_whitespace, usize_of, word_views, words};

verus! {

/// What reading one node gives: where the node ends, the sum of the metadata
/// entries of the node and of all nodes below it, the value of the node, and
/// whether the value of the node and of each node below it is one that a
/// `usize` holds.
pub struct Reading {
    pub end: int,
    pub sum: int,
    pub value: int,
    pub fits: bool,
}

/// What reading the children of a node gives: where the last one ends, the
/// sum of all metadata entries in them, the value of each, and whether all
/// values in them are ones that a `usize` holds.
pub struct Kids {
    pub end: int,
    pub sum: int,
    pub values: Seq<int>,
    pub fit: bool,
}

/// The metadata entries of a node: the `count` numbers from `start` on, or as
/// many as there are where the list ends before that.
pub open spec fn entries_at(data: Seq<usize>, start: int, count: int) -> Seq<usize> {
    data.subrange(
        start,
        if start + count <= data.len() {
            start + count
        } else {
            data.len() as int
        },
    )
}

/// The sum of the entries.
pub open spec fn entries_sum(entries: Seq<usize>) -> int
    decreases entries.len(),
{
    if entries.len() == 0 {
        0
    } else {
        entries_sum(entries.drop_last()) + entries.last()
    }
}

/// The value of the child that `entry` refers to: entry 1 refers to the first
/// child. An entry that refers to no child counts 0.
pub open spec fn referred(values: Seq<int>, entry: usize) -> int {
    if 1 <= entry <= values.len() {
        values[entry - 1]
    } else {
        0
    }
}

/// The sum of the values of the children that the entries refer to.
pub open spec fn referred_sum(values: Seq<int>, entries: Seq<usize>) -> int
    decreases entries.len(),
{
    if entries.len() == 0 {
        0
    } else {
        referred_sum(values, entries.drop_last()) + referred(values, entries.last())
    }
}

/// Reads the node that starts at `pos`. `None` where the list ends before the
/// two counts of the node or of a node below it. A node without children has
/// the sum of its entries as its value; another node has the sum of the
/// values of the children that its entries refer to.
pub open spec fn read_node(data: Seq<usize>, pos: int) -> Option<Reading>
    decreases data.len() - pos, 0nat,
{
    if 0 <= pos && pos + 2 <= data.len() {
        match read_children(data, pos + 2, data[pos] as nat) {
            Some(kids) => {
                let entries = entries_at(data, kids.end, data[pos + 1] as int);
                let value = if data[pos] == 0 {
                    entries_sum(entries)
                } else {
                    referred_sum(kids.values, entries)
                };
                Some(
                    Reading {
                        end: kids.end + entries.len(),
                        sum: kids.sum + entries_sum(entries),
                        value,
                        fits: kids.fit && value <= usize::MAX,
                    },
                )
            },
            None => None,
        }
    } else {
        None
    }
}

/// Reads `count` nodes one after another, the first of them at `pos`.
pub open spec fn read_children(data: Seq<usize>, pos: int, count: nat) -> Option<Kids>
    decreases data.len() - pos, count + 1,
{
    if count == 0 {
        Some(Kids { end: pos, sum: 0, values: Seq::empty(), fit: true })
    } else {
        match read_children(data, pos, (count - 1) as nat) {
            Some(before) => if pos <= before.end <= data.len() {
                match read_node(data, before.end) {
                    Some(kid) => Some(
                        Kids {
                            end: kid.end,
                            sum: before.sum + kid.sum,
                            values: before.values.push(kid.value),
                            fit: before.fit && kid.fits,
                        },
                    ),
                    None => None,
                }
            } else {
                None
            },
            None => None,
        }
    }
}

/// Whether the list writes a tree.
pub open spec fn is_license(data: Seq<usize>) -> bool {
    read_node(data, 0) is Some
}

/// The sum of all metadata entries of the tree.
pub open spec fn metadata_sum(data: Seq<usize>) -> int {
    read_node(data, 0).unwrap().sum
}

/// The value of the root of the tree.
pub open spec fn root_value(data: Seq<usize>) -> int {
    read_node(data, 0).unwrap().value
}

/// Whether the value of each node of the tree is one that a `usize` holds.
pub open spec fn values_fit(data: Seq<usize>) -> bool {
    read_node(data, 0).unwrap().fits
}

/// Sums of entries are not negative, and the sum of some first entries is no
/// more than the sum of all.
pub proof fn lemma_entries_sum(entries: Seq<usize>, fewer: int)
    requires
        0 <= fewer <= entries.len(),
    ensures
        0 <= entries_sum(entries.take(fewer)) <= entries_sum(entries),
    decreases entries.len(),
{
    if entries.len() == 0 {
        assert(entries.take(fewer) =~= entries);
    } else if fewer == entries.len() {
        assert(entries.take(fewer) =~= entries);
        lemma_entries_sum(entries.drop_last(), fewer - 1);
    } else {
        lemma_entries_sum(entries.drop_last(), fewer);
        assert(entries.drop_last().take(fewer) =~= entries.take(fewer));
    }
}

/// Where no child has a negative value, sums of referred values are not
/// negative, and the sum for some first entries is no more than for all.
pub proof fn lemma_referred_sum(values: Seq<int>, entries: Seq<usize>, fewer: int)
    requires
        0 <= fewer <= entries.len(),
        forall|i: int| 0 <= i < values.len() ==> values[i] >= 0,
    ensures
        0 <= referred_sum(values, entries.take(fewer)) <= referred_sum(values, entries),
    decreases entries.len(),
{
    if entries.len() == 0 {
        assert(entries.take(fewer) =~= entries);
    } else if fewer == entries.len() {
        assert(entries.take(fewer) =~= entries);
        lemma_referred_sum(values, entries.drop_last(), fewer - 1);
    } else {
        lemma_referred_sum(values, entries.drop_last(), fewer);
        assert(entries.drop_last().take(fewer) =~= entries.take(fewer));
    }
}

/// A node that can be read ends behind its two counts and within the list;
/// its sum and its value are not negative.
pub proof fn lemma_node_bounds(data: Seq<usize>, pos: int)
    requires
        read_node(data, pos) is Some,
    ensures
        0 <= pos,
        pos + 2 <= read_node(data, pos).unwrap().end <= data.len(),
        read_node(data, pos).unwrap().sum >= 0,
        read_node(data, pos).unwrap().value >= 0,
    decreases data.len() - pos, 0nat,
{
    let kids = read_children(data, pos + 2, data[pos] as nat).unwrap();
    lemma_children_bounds(data, pos + 2, data[pos] as nat);
    let entries = entries_at(data, kids.end, data[pos + 1] as int);
    lemma_entries_sum(entries, 0);
    lemma_referred_sum(kids.values, entries, 0);
}

/// Children that can be read end within the list; there is a value for each
/// of them, and neither their sum nor any value is negative.
pub proof fn lemma_children_bounds(data: Seq<usize>, pos: int, count: nat)
    requires
        0 <= pos <= data.len(),
        read_children(data, pos, count) is Some,
    ensures
        pos <= read_children(data, pos, count).unwrap().end <= data.len(),
        read_children(data, pos, count).unwrap().sum >= 0,
        read_children(data, pos, count).unwrap().values.len() == count,
        forall|i: int|
            0 <= i < count ==> read_children(data, pos, count).unwrap().values[i] >= 0,
    decreases data.len() - pos, count + 1,
{
    if count > 0 {
        let before = read_children(data, pos, (count - 1) as nat).unwrap();
        lemma_children_bounds(data, pos, (count - 1) as nat);
        lemma_node_bounds(data, before.end);
    }
}

/// Where `count` children can be read, so can the first `fewer` of them:
/// their sum is no more, their values are the first values, and they fit if
/// all do.
pub proof fn lemma_children_prefix(data: Seq<usize>, pos: int, fewer: nat, count: nat)
    requires
        0 <= pos <= data.len(),
        fewer <= count,
        read_children(data, pos, count) is Some,
    ensures
        read_children(data, pos, fewer) is Some,
        read_children(data, pos, fewer).unwrap().sum <= read_children(data, pos, count).unwrap().sum,
        read_children(data, pos, fewer).unwrap().values == read_children(
            data,
            pos,
            count,
        ).unwrap().values.take(fewer as int),
        read_children(data, pos, count).unwrap().fit ==> read_children(
            data,
            pos,
            fewer,
        ).unwrap().fit,
    decreases count,
{
    let all = read_children(data, pos, count).unwrap();
    lemma_children_bounds(data, pos, count);
    if fewer == count {
        assert(all.values.take(fewer as int) =~= all.values);
    } else {
        let before = read_children(data, pos, (count - 1) as nat).unwrap();
        lemma_children_prefix(data, pos, fewer, (count - 1) as nat);
        lemma_children_bounds(data, pos, (count - 1) as nat);
        lemma_node_bounds(data, before.end);
        assert(all.values.take(fewer as int) =~= before.values.take(fewer as int));
    }
}

/// Whether every word of `s` writes a number that a `usize` holds.
pub open spec fn numbers_valid(s: Seq<char>) -> bool {
    forall|i: int| 0 <= i < words(s).len() ==> usize_of(#[trigger] words(s)[i]) is Some
}

/// The numbers that the words of `s` write, in order.
pub open spec fn numbers_of(s: Seq<char>) -> Seq<usize> {
    Seq::new(words(s).len(), |i: int| usize_of(words(s)[i]).unwrap())
}

/// Reads each word as a number; `None` where a word writes none.
fn read_numbers(found: &Vec<Vec<char>>) -> (r: Option<Vec<usize>>)
    ensures
        r is Some <==> forall|i: int|
            0 <= i < found.len() ==> usize_of(#[trigger] word_views(found@)[i]) is Some,
        r matches Some(numbers) ==> numbers@ == Seq::new(
            found.len() as nat,
            |i: int| usize_of(word_views(found@)[i]).unwrap(),
        ),
{
    let mut numbers: Vec<usize> = Vec::new();
    let mut at: usize = 0;
    while at < found.len()
        invariant
            at <= found.len(),
            numbers.len() == at,
            forall|i: int| 0 <= i < at ==> usize_of(#[trigger] word_views(found@)[i]) == Some(
                numbers[i],
            ),
        decreases found.len() - at,
    {
        assert(word_views(found@)[at as int] == found[at as int]@);
        match parse_usize(found[at].as_slice()) {
            Some(number) => {
                numbers.push(number);
            },
            None => {
                return None;
            },
        }
        at = at + 1;
    }
    assert(numbers@ =~= Seq::new(
        found.len() as nat,
        |i: int| usize_of(word_views(found@)[i]).unwrap(),
    ));
    Some(numbers)
}

/// Reads the numbers that `text` lists, separated by white space; `None`
/// where a word is not a number that a `usize` holds.
pub fn try_parse_input(text: &str) -> (r: Option<Vec<usize>>)
    ensures
        r is Some <==> numbers_valid(text@),
        r matches Some(numbers) ==> numbers@ == numbers_of(text@),
{
    let found = split_whitespace(text);
    match read_numbers(&found) {
        // Every word is a number, so the list can be read.
        Some(_) => Some(parse_input(text)),
        None => None,
    }
}

/// Reads the numbers that `s` lists, separated by white space.
pub fn parse_input(s: &str) -> (numbers: Vec<usize>)
    requires
        numbers_valid(s@),
    ensures
        numbers@ == numbers_of(s@),
{
    let found = split_whitespace(s);
    read_numbers(&found).unwrap()
}

/// Adds up the metadata entries of the node that starts at `*at` and of all
/// nodes below it, and moves `*at` behind the node. `None` where the node
/// cannot be read or the sum is more than a `usize` holds.
pub fn try_sum_metadata_r(data: &[usize], at: &mut usize) -> (r: Option<usize>)
    ensures
        match r {
            Some(sum) => read_node(data@, *old(at) as int) matches Some(node) && node.sum == sum
                && node.end == *final(at),
            None => !(read_node(data@, *old(at) as int) matches Some(node) && node.sum
                <= usize::MAX),
        },
    decreases data.len() - *old(at),
{
    let length: usize = data.len();
    let start: usize = *at;
    if start >= length || length - start < 2 {
        return None;
    }
    let child_count: usize = data[start];
    let metadata_count: usize = data[start + 1];
    let ghost first: int = start + 2;
    *at = start + 2;
    let mut sum: usize = 0;
    let mut done: usize = 0;
    while done < child_count
        invariant
            length == data.len(),
            start == *old(at),
            start + 2 <= *at <= length,
            first == start + 2,
            done <= child_count,
            data@[start as int] == child_count,
            read_children(data@, first, done as nat) matches Some(kids) && kids.end == *at
                && kids.sum == sum,
        decreases child_count - done,
    {
        let ghost here: int = *at as int;
        let child = try_sum_metadata_r(data, at);
        let total: Option<usize> = match child {
            Some(child_sum) => sum.checked_add(child_sum),
            None => None,
        };
        match total {
            Some(total) => {
                proof {
                    lemma_node_bounds(data@, here);
                }
                sum = total;
            },
            None => {
                proof {
                    if let Some(node) = read_node(data@, start as int) {
                        if node.sum <= usize::MAX {
                            let all = read_children(data@, first, child_count as nat).unwrap();
                            lemma_children_prefix(
                                data@,
                                first,
                                (done + 1) as nat,
                                child_count as nat,
                            );
                            lemma_children_bounds(data@, first, done as nat);
                            lemma_node_bounds(data@, here);
                            lemma_entries_sum(
                                entries_at(data@, all.end, data@[start + 1] as int),
                                0,
                            );
                            assert(false);
                        }
                    }
                }
                return None;
            },
        }
        done = done + 1;
    }
    let ghost kids = read_children(data@, first, child_count as nat).unwrap();
    let ghost entries = entries_at(data@, kids.end, metadata_count as int);
    let mut taken: usize = 0;
    assert(entries.take(0) =~= Seq::<usize>::empty());
    while taken < metadata_count && *at < length
        invariant
            length == data.len(),
            start == *old(at),
            first == start + 2,
            read_children(data@, first, child_count as nat) == Some(kids),
            entries == entries_at(data@, kids.end, metadata_count as int),
            first <= kids.end <= length,
            *at == kids.end + taken,
            taken <= metadata_count,
            *at <= length,
            taken <= entries.len(),
            sum == kids.sum + entries_sum(entries.take(taken as int)),
            data@[start as int] == child_count,
            data@[start + 1] == metadata_count,
            start + 2 <= length,
        decreases metadata_count - taken,
    {
        proof {
            assert(entries.take(taken + 1).drop_last() =~= entries.take(taken as int));
            assert(entries.take(taken + 1).last() == data@[*at as int]);
            lemma_entries_sum(entries, taken + 1);
            lemma_children_bounds(data@, first, child_count as nat);
        }
        match sum.checked_add(data[*at]) {
            Some(total) => {
                sum = total;
            },
            None => {
                return None;
            },
        }
        *at = *at + 1;
        taken = taken + 1;
    }
    assert(entries.take(taken as int) =~= entries);
    Some(sum)
}

/// Adds up the metadata entries of the node that starts at `*at` and of all
/// nodes below it, and moves `*at` behind the node.
pub fn sum_metadata_r(data: &[usize], at: &mut usize) -> (sum: usize)
    requires
        read_node(data@, *old(at) as int) matches Some(node) && node.sum <= usize::MAX,
    ensures
        read_node(data@, *old(at) as int) matches Some(node) && node.sum == sum && node.end
            == *final(at),
{
    try_sum_metadata_r(data, at).unwrap()
}

/// The sum of all metadata entries of the tree that `data` writes; `None`
/// where it writes none or the sum is more than a `usize` holds.
pub fn try_sum_metadata(data: &[usize]) -> (r: Option<usize>)
    ensures
        r is Some <==> is_license(data@) && metadata_sum(data@) <= usize::MAX,
        r matches Some(sum) ==> sum == metadata_sum(data@),
{
    let mut at: usize = 0;
    try_sum_metadata_r(data, &mut at)
}

/// The sum of all metadata entries of the tree that `data` writes.
pub fn sum_metadata(data: &[usize]) -> (sum: usize)
    requires
        is_license(data@),
        metadata_sum(data@) <= usize::MAX,
    ensures
        sum == metadata_sum(data@),
{
    let mut at: usize = 0;
    sum_metadata_r(data, &mut at)
}

/// The value of the child that `entry` refers to, or 0.
fn referred_value(values: &Vec<usize>, entry: usize) -> (value: usize)
    ensures
        value == if 1 <= entry <= values.len() {
            values[entry - 1]
        } else {
            0
        },
{
    if entry >= 1 && entry <= values.len() {
        values[entry - 1]
    } else {
        0
    }
}

/// Computes the value of the node that starts at `*at` and moves `*at` behind
/// the node. `None` where the node cannot be read, or its value or that of a
/// node below it is more than a `usize` holds.
pub fn try_compute_node_value(data: &[usize], at: &mut usize) -> (r: Option<usize>)
    ensures
        match r {
            Some(value) => read_node(data@, *old(at) as int) matches Some(node) && node.fits
                && node.value == value && node.end == *final(at),
            None => !(read_node(data@, *old(at) as int) matches Some(node) && node.fits),
        },
    decreases data.len() - *old(at),
{
    let length: usize = data.len();
    let start: usize = *at;
    if start >= length || length - start < 2 {
        return None;
    }
    let child_count: usize = data[start];
    let metadata_count: usize = data[start + 1];
    let ghost first: int = start + 2;
    *at = start + 2;
    let mut child_node_values: Vec<usize> = Vec::new();
    let mut done: usize = 0;
    while done < child_count
        invariant
            length == data.len(),
            start == *old(at),
            start + 2 <= *at <= length,
            first == start + 2,
            done <= child_count,
            data@[start as int] == child_count,
            child_node_values.len() == done,
            read_children(data@, first, done as nat) matches Some(kids) && kids.end == *at
                && kids.fit && kids.values.len() == done && forall|i: int|
                0 <= i < done ==> kids.values[i] == child_node_values[i],
        decreases child_count - done,
    {
        let ghost here: int = *at as int;
        match try_compute_node_value(data, at) {
            Some(value) => {
                proof {
                    lemma_node_bounds(data@, here);
                }
                child_node_values.push(value);
            },
            None => {
                proof {
                    if let Some(node) = read_node(data@, start as int) {
                        if node.fits {
                            lemma_children_prefix(
                                data@,
                                first,
                                (done + 1) as nat,
                                child_count as nat,
                            );
                            assert(false);
                        }
                    }
                }
                return None;
            },
        }
        done = done + 1;
    }
    let ghost kids = read_children(data@, first, child_count as nat).unwrap();
    let ghost entries = entries_at(data@, kids.end, metadata_count as int);
    let mut value: usize = 0;
    let mut taken: usize = 0;
    assert(entries.take(0) =~= Seq::<usize>::empty());
    proof {
        lemma_children_bounds(data@, first, child_count as nat);
    }
    while taken < metadata_count && *at < length
        invariant
            length == data.len(),
            start == *old(at),
            first == start + 2,
            start + 2 <= length,
            read_children(data@, first, child_count as nat) == Some(kids),
            entries == entries_at(data@, kids.end, metadata_count as int),
            first <= kids.end <= length,
            kids.fit,
            kids.values.len() == child_count,
            child_node_values.len() == child_count,
            forall|i: int| 0 <= i < child_count ==> kids.values[i] == child_node_values[i],
            forall|i: int| 0 <= i < child_count ==> kids.values[i] >= 0,
            *at == kids.end + taken,
            taken <= metadata_count,
            *at <= length,
            taken <= entries.len(),
            data@[start as int] == child_count,
            data@[start + 1] == metadata_count,
            value == if child_count == 0 {
                entries_sum(entries.take(taken as int))
            } else {
                referred_sum(kids.values, entries.take(taken as int))
            },
        decreases metadata_count - taken,
    {
        let entry: usize = data[*at];
        proof {
            assert(entries.take(taken + 1).drop_last() =~= entries.take(taken as int));
            assert(entries.take(taken + 1).last() == entry);
            lemma_entries_sum(entries, taken + 1);
            lemma_referred_sum(kids.values, entries, taken + 1);
        }
        let part: usize = if child_node_values.is_empty() {
            entry
        } else {
            referred_value(&child_node_values, entry)
        };
        match value.checked_add(part) {
            Some(total) => {
                value = total;
            },
            None => {
                return None;
            },
        }
        *at = *at + 1;
        taken = taken + 1;
    }
    assert(entries.take(taken as int) =~= entries);
    Some(value)
}

/// Computes the value of the node that starts at `*at` and moves `*at` behind
/// the node.
pub fn compute_node_value(data: &[usize], at: &mut usize) -> (value: usize)
    requires
        read_node(data@, *old(at) as int) matches Some(node) && node.fits,
    ensures
        read_node(data@, *old(at) as int) matches Some(node) && node.value == value && node.end
            == *final(at),
{
    try_compute_node_value(data, at).unwrap()
}

/// The value of the root of the tree that `data` writes; `None` where it
/// writes none or the value of a node is more than a `usize` holds.
pub fn try_compute_root_node_value(data: &[usize]) -> (r: Option<usize>)
    ensures
        r is Some <==> is_license(data@) && values_fit(data@),
        r matches Some(value) ==> value == root_value(data@),
{
    let mut at: usize = 0;
    try_compute_node_value(data, &mut at)
}

/// The value of the root of the tree that `data` writes.
pub fn compute_root_node_value(data: &[usize]) -> (value: usize)
    requires
        is_license(data@),
        values_fit(data@),
    ensures
        value == root_value(data@),
{
    let mut at: usize = 0;
    compute_node_value(data, &mut at)
}

} // verus!
