//! Natural ordering of version-like strings.
//!
//! A string is split into numeric and textual components; two strings are
//! ordered by comparing their components from left to right, digit runs by
//! value and letter runs byte by byte. A batch of strings is sorted by that
//! order, and the result names the strings by their positions in the batch.

pub mod comparator;
pub mod component;
pub mod sorter;
pub mod tokenizer;

use crate::comparator::{cmp_fwd, compare_tokens, lemma_compare_reflexive};
use crate::sorter::{do_sort, is_sort_result, Direction};
use crate::tokenizer::{parse, tokenize};
use std::cmp::Ordering;
use vstd::prelude::*;
use vstd::string::StringSliceAdditionalSpecFns;

verus! {

/// The order of two version strings, given as bytes: that of their tokens.
pub open spec fn compare_bytes(a: Seq<u8>, b: Seq<u8>) -> int {
    compare_tokens(tokenize(a), tokenize(b))
}

/// Reflexivity: every string compares as equal with itself.
pub proof fn lemma_compare_bytes_reflexive(x: Seq<u8>)
    ensures
        compare_bytes(x, x) == 0,
{
    lemma_compare_reflexive(tokenize(x));
}

/// Compares two version strings. Returns `-1` if `a` sorts before `b`, `0`
/// if neither sorts before the other, and `1` if `b` sorts before `a`.
pub fn compare(a: &str, b: &str) -> (r: i32)
    ensures
        r == compare_bytes(a.spec_bytes(), b.spec_bytes()),
{
    let left = parse(a, 0);
    let right = parse(b, 0);
    match cmp_fwd(&left, &right) {
        Ordering::Less => -1,
        Ordering::Equal => 0,
        Ordering::Greater => 1,
    }
}

/// Sorts a batch of version strings, the least first. Returns the positions
/// that the strings have in `versions`, in sorted order.
pub fn ascending_sort(versions: Vec<String>) -> (sorted: Vec<u32>)
    ensures
        is_sort_result(sorted@, versions@, Direction::Ascending),
{
    do_sort(versions, Direction::Ascending)
}

/// Sorts a batch of version strings, the greatest first. Returns the
/// positions that the strings have in `versions`, in sorted order.
pub fn descending_sort(versions: Vec<String>) -> (sorted: Vec<u32>)
    ensures
        is_sort_result(sorted@, versions@, Direction::Descending),
{
    do_sort(versions, Direction::Descending)
}

} // verus!
