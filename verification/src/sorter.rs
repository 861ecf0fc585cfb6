//! Sorting a batch of version strings.
//!
//! Every string of the batch is tokenized once and tagged with its position.
//! The positions are then put in order by a merge sort over the comparator,
//! and returned. The strings themselves are not moved.
//!
//! The comparator is not transitive on every batch, so "sorted" is stated of
//! neighbours: each position may stand directly before the next. Where the
//! comparator is transitive on the batch, this is the same as sorted.

use crate::comparator::{
    cmp_bwd, cmp_fwd, compare_tokens, consistent, lemma_compare_antisymmetric,
    lemma_compare_transitive,
};
use crate::component::{Token, VersionNumber};
use crate::tokenizer::{parse, tokenize};
use std::cmp::Ordering;
use vstd::prelude::*;
use vstd::multiset::group_multiset_axioms;
use vstd::seq_lib::{
    lemma_multiset_commutative, to_multiset_build, to_multiset_contains, to_multiset_len,
};
use vstd::utf8::encode_utf8;

verus! {

/// The order in which a batch is to be sorted.
#[derive(Clone, Copy, Debug, PartialEq, Eq)]
pub enum Direction {
    /// The least string first.
    Ascending,
    /// The greatest string first.
    Descending,
}

/// In a result sorted in `direction`, `a` may stand before `b`.
pub open spec fn in_order(direction: Direction, a: Seq<Token>, b: Seq<Token>) -> bool {
    match direction {
        Direction::Ascending => compare_tokens(a, b) <= 0,
        Direction::Descending => compare_tokens(a, b) >= 0,
    }
}

/// The tokens of each string of a batch.
pub open spec fn batch_tokens(versions: Seq<String>) -> Seq<Seq<Token>> {
    Seq::new(versions.len(), |i: int| tokenize(encode_utf8(versions[i]@)))
}

/// The tokens of each element of a vector of tokenized strings.
pub open spec fn tokens_of_all(vns: Seq<VersionNumber<'_>>) -> Seq<Seq<Token>> {
    Seq::new(vns.len(), |i: int| vns[i]@)
}

/// `order` holds every position from `0` to `n - 1`, each of them once.
pub open spec fn is_permutation(order: Seq<int>, n: nat) -> bool {
    &&& order.len() == n
    &&& forall|k: int| 0 <= k < n ==> 0 <= #[trigger] order[k] < n
    &&& forall|j: int, k: int| 0 <= j < k < n ==> #[trigger] order[j] != #[trigger] order[k]
    &&& forall|p: int| 0 <= p < n ==> #[trigger] order.contains(p)
}

/// Each position of `order` may stand before the one that follows it.
pub open spec fn is_chain(order: Seq<int>, batch: Seq<Seq<Token>>, direction: Direction) -> bool {
    forall|j: int, k: int|
        #![trigger order[j], order[k]]
        0 <= j && k == j + 1 && k < order.len() ==> in_order(
            direction,
            batch[order[j]],
            batch[order[k]],
        )
}

/// Each position of `order` may stand before every one that comes after it.
pub open spec fn is_sorted(order: Seq<int>, batch: Seq<Seq<Token>>, direction: Direction) -> bool {
    forall|j: int, k: int|
        #![trigger order[j], order[k]]
        0 <= j < k < order.len() ==> in_order(direction, batch[order[j]], batch[order[k]])
}

/// `order` is a result of sorting `batch` in `direction`: a permutation of
/// its positions in which neighbours are in order.
pub open spec fn is_sorted_order(
    order: Seq<int>,
    batch: Seq<Seq<Token>>,
    direction: Direction,
) -> bool {
    is_permutation(order, batch.len()) && is_chain(order, batch, direction)
}

/// No two strings of the batch, at different positions, compare as equal.
pub open spec fn no_ties(batch: Seq<Seq<Token>>) -> bool {
    forall|i: int, j: int|
        0 <= i < batch.len() && 0 <= j < batch.len() && i != j ==> compare_tokens(
            #[trigger] batch[i],
            #[trigger] batch[j],
        ) != 0
}

/// The comparator is transitive on the strings of the batch.
pub open spec fn transitive_on(batch: Seq<Seq<Token>>) -> bool {
    forall|i: int, j: int, k: int|
        #![trigger batch[i], batch[j], batch[k]]
        0 <= i < batch.len() && 0 <= j < batch.len() && 0 <= k < batch.len() && compare_tokens(
            batch[i],
            batch[j],
        ) <= 0 && compare_tokens(batch[j], batch[k]) <= 0 ==> compare_tokens(batch[i], batch[k])
            <= 0
}

/// Positions as they are stored: as machine integers.
pub open spec fn as_ints(order: Seq<usize>) -> Seq<int> {
    order.map_values(|p: usize| p as int)
}

/// Positions as they are returned: the low 32 bits of each.
pub open spec fn narrowed(order: Seq<int>) -> Seq<u32> {
    order.map_values(|p: int| p as u32)
}

/// The positions that a returned vector holds.
pub open spec fn positions(sorted: Seq<u32>) -> Seq<int> {
    sorted.map_values(|p: u32| p as int)
}

/// The positions from `lo` up to, not including, `hi`, in rising order.
pub open spec fn range_seq(lo: int, hi: int) -> Seq<usize> {
    Seq::new((hi - lo) as nat, |k: int| (lo + k) as usize)
}

/// The comparator is transitive on a batch of which every three strings are
/// consistent.
pub proof fn lemma_consistent_batch_is_transitive(batch: Seq<Seq<Token>>)
    requires
        forall|i: int, j: int, k: int|
            #![trigger batch[i], batch[j], batch[k]]
            0 <= i < batch.len() && 0 <= j < batch.len() && 0 <= k < batch.len() ==> consistent(
                batch[i],
                batch[j],
                batch[k],
            ),
    ensures
        transitive_on(batch),
{
    assert forall|i: int, j: int, k: int|
        #![trigger batch[i], batch[j], batch[k]]
        0 <= i < batch.len() && 0 <= j < batch.len() && 0 <= k < batch.len() && compare_tokens(
            batch[i],
            batch[j],
        ) <= 0 && compare_tokens(batch[j], batch[k]) <= 0 implies compare_tokens(
        batch[i],
        batch[k],
    ) <= 0 by {
        lemma_compare_transitive(batch[i], batch[j], batch[k]);
    }
}

/// Where the comparator is transitive on the batch, a permutation whose
/// neighbours are in order is sorted: each position may stand before every
/// later one.
pub proof fn lemma_chain_is_sorted(order: Seq<int>, batch: Seq<Seq<Token>>, direction: Direction)
    requires
        is_sorted_order(order, batch, direction),
        transitive_on(batch),
    ensures
        is_sorted(order, batch, direction),
{
    assert forall|j: int, k: int| 0 <= j < k < order.len() implies in_order(
        direction,
        batch[order[j]],
        batch[order[k]],
    ) by {
        lemma_chain_reaches(order, batch, direction, j, k);
    }
}

/// The induction behind `lemma_chain_is_sorted`, on the distance from `j` to `k`.
proof fn lemma_chain_reaches(
    order: Seq<int>,
    batch: Seq<Seq<Token>>,
    direction: Direction,
    j: int,
    k: int,
)
    requires
        is_sorted_order(order, batch, direction),
        transitive_on(batch),
        0 <= j < k < order.len(),
    ensures
        in_order(direction, batch[order[j]], batch[order[k]]),
    decreases k - j,
{
    if k > j + 1 {
        lemma_chain_reaches(order, batch, direction, j, k - 1);
        // `order[j]` may stand before `order[k - 1]`, and that before `order[k]`.
        let (first, between, last) = (batch[order[j]], batch[order[k - 1]], batch[order[k]]);
        if direction == Direction::Descending {
            lemma_compare_antisymmetric(first, between);
            lemma_compare_antisymmetric(between, last);
            lemma_compare_antisymmetric(first, last);
        }
    }
}

/// Two sorted ascending results for a batch without ties agree below index
/// `upto`.
proof fn lemma_sorted_unique(p: Seq<int>, q: Seq<int>, batch: Seq<Seq<Token>>, upto: int)
    requires
        is_permutation(p, batch.len()),
        is_permutation(q, batch.len()),
        is_sorted(p, batch, Direction::Ascending),
        is_sorted(q, batch, Direction::Ascending),
        no_ties(batch),
        0 <= upto <= batch.len(),
    ensures
        forall|i: int| 0 <= i < upto ==> p[i] == q[i],
    decreases upto,
{
    if upto > 0 {
        lemma_sorted_unique(p, q, batch, upto - 1);
        let i = upto - 1;
        if p[i] != q[i] {
            // Each of the two positions stands in the other result, and not
            // below `i`, where the results agree: so it stands after `i`
            // there, and each of the two strings is before the other.
            assert(q.contains(p[i]));
            let k = choose|k: int| 0 <= k < q.len() && q[k] == p[i];
            assert(p.contains(q[i]));
            let m = choose|m: int| 0 <= m < p.len() && p[m] == q[i];
            assert(k > i && m > i);
            lemma_compare_antisymmetric(batch[p[i]], batch[q[i]]);
            assert(false);
        }
    }
}

/// On a batch without ties, on which the comparator is transitive, the
/// descending result is the ascending result read backwards.
///
/// Without transitivity this fails: `ac1`, `a2`, `ab3` compare without ties
/// but in a circle, and more than one order of them has its neighbours in
/// order, in either direction.
pub proof fn lemma_descending_is_reverse(up: Seq<int>, down: Seq<int>, batch: Seq<Seq<Token>>)
    requires
        is_sorted_order(up, batch, Direction::Ascending),
        is_sorted_order(down, batch, Direction::Descending),
        no_ties(batch),
        transitive_on(batch),
    ensures
        down == up.reverse(),
{
    let n = batch.len() as int;
    let back = down.reverse();
    lemma_chain_is_sorted(up, batch, Direction::Ascending);
    lemma_chain_is_sorted(down, batch, Direction::Descending);
    assert(is_permutation(back, batch.len())) by {
        assert forall|p: int| 0 <= p < n implies #[trigger] back.contains(p) by {
            assert(down.contains(p));
            let k = choose|k: int| 0 <= k < down.len() && down[k] == p;
            assert(back[n - 1 - k] == p);
        }
    }
    assert(is_sorted(back, batch, Direction::Ascending)) by {
        assert forall|j: int, k: int| 0 <= j < k < back.len() implies in_order(
            Direction::Ascending,
            batch[back[j]],
            batch[back[k]],
        ) by {
            lemma_compare_antisymmetric(batch[back[j]], batch[back[k]]);
        }
    }
    lemma_sorted_unique(up, back, batch, n);
}

/// A rearrangement of the positions `0` to `n - 1` is a permutation of them.
proof fn lemma_rearranged_range(order: Seq<usize>, n: nat)
    requires
        order.to_multiset() == range_seq(0, n as int).to_multiset(),
        n <= usize::MAX,
    ensures
        is_permutation(as_ints(order), n),
{
    let range = range_seq(0, n as int);
    let ints = as_ints(order);
    range.lemma_multiset_has_no_duplicates();
    order.lemma_multiset_has_no_duplicates_conv();
    to_multiset_len(order);
    to_multiset_len(range);
    assert forall|k: int| 0 <= k < n implies 0 <= #[trigger] ints[k] < n by {
        to_multiset_contains(order, order[k]);
        to_multiset_contains(range, order[k]);
    }
    assert forall|p: int| 0 <= p < n implies #[trigger] ints.contains(p) by {
        assert(range[p] == p as usize);
        to_multiset_contains(range, p as usize);
        to_multiset_contains(order, p as usize);
        let k = choose|k: int| 0 <= k < order.len() && order[k] == p as usize;
        assert(ints[k] == p);
    }
}

/// Whether `a` may stand before `b` in a result sorted in `direction`.
fn precedes(direction: Direction, a: &VersionNumber, b: &VersionNumber) -> (r: bool)
    ensures
        r == in_order(direction, a@, b@),
        !r ==> in_order(direction, b@, a@),
{
    proof {
        lemma_compare_antisymmetric(a@, b@);
    }
    let outcome = match direction {
        Direction::Ascending => cmp_fwd(a, b),
        Direction::Descending => cmp_bwd(a, b),
    };
    match outcome {
        Ordering::Greater => false,
        _ => true,
    }
}

/// Merges two runs of positions, each with its neighbours in order, into one.
fn merge(
    vns: &Vec<VersionNumber>,
    direction: Direction,
    left: &Vec<usize>,
    right: &Vec<usize>,
) -> (out: Vec<usize>)
    requires
        forall|k: int| 0 <= k < left.len() ==> left[k] < vns.len(),
        forall|k: int| 0 <= k < right.len() ==> right[k] < vns.len(),
        is_chain(as_ints(left@), tokens_of_all(vns@), direction),
        is_chain(as_ints(right@), tokens_of_all(vns@), direction),
    ensures
        out@.to_multiset() == left@.to_multiset().add(right@.to_multiset()),
        forall|k: int| 0 <= k < out.len() ==> out[k] < vns.len(),
        is_chain(as_ints(out@), tokens_of_all(vns@), direction),
{
    broadcast use group_multiset_axioms;

    let ghost batch = tokens_of_all(vns@);
    let mut out: Vec<usize> = Vec::new();
    let mut i: usize = 0;
    let mut j: usize = 0;
    proof {
        to_multiset_len(out@);
        to_multiset_len(left@.take(0));
        to_multiset_len(right@.take(0));
        assert(out@.to_multiset() =~= left@.take(0).to_multiset().add(
            right@.take(0).to_multiset(),
        ));
    }
    while i < left.len() || j < right.len()
        invariant
            i <= left.len(),
            j <= right.len(),
            batch == tokens_of_all(vns@),
            forall|k: int| 0 <= k < left.len() ==> left[k] < vns.len(),
            forall|k: int| 0 <= k < right.len() ==> right[k] < vns.len(),
            is_chain(as_ints(left@), batch, direction),
            is_chain(as_ints(right@), batch, direction),
            out@.len() == i + j,
            out@.to_multiset() == left@.take(i as int).to_multiset().add(
                right@.take(j as int).to_multiset(),
            ),
            forall|k: int| 0 <= k < out.len() ==> out[k] < vns.len(),
            is_chain(as_ints(out@), batch, direction),
            out.len() > 0 && i < left.len() ==> in_order(
                direction,
                batch[out@.last() as int],
                batch[left[i as int] as int],
            ),
            out.len() > 0 && j < right.len() ==> in_order(
                direction,
                batch[out@.last() as int],
                batch[right[j as int] as int],
            ),
        decreases left.len() - i + right.len() - j,
    {
        let ghost before = out@;
        let take_left = if i >= left.len() {
            false
        } else if j >= right.len() {
            true
        } else {
            precedes(direction, &vns[left[i]], &vns[right[j]])
        };
        if take_left {
            let p = left[i];
            proof {
                assert(left@.take(i + 1) =~= left@.take(i as int).push(p));
                to_multiset_build(left@.take(i as int), p);
                to_multiset_build(out@, p);
            }
            assert(i + 1 < left.len() ==> in_order(
                direction,
                batch[as_ints(left@)[i as int]],
                batch[as_ints(left@)[i + 1]],
            ));
            out.push(p);
            i += 1;
        } else {
            let p = right[j];
            proof {
                assert(right@.take(j + 1) =~= right@.take(j as int).push(p));
                to_multiset_build(right@.take(j as int), p);
                to_multiset_build(out@, p);
            }
            assert(j + 1 < right.len() ==> in_order(
                direction,
                batch[as_ints(right@)[j as int]],
                batch[as_ints(right@)[j + 1]],
            ));
            out.push(p);
            j += 1;
        }
        assert(is_chain(as_ints(out@), batch, direction)) by {
            let now = as_ints(out@);
            assert forall|a: int, b: int| 0 <= a && b == a + 1 && b < now.len() implies in_order(
                direction,
                batch[now[a]],
                batch[now[b]],
            ) by {
                if b < before.len() {
                    assert(now[a] == as_ints(before)[a] && now[b] == as_ints(before)[b]);
                }
            }
        }
    }
    assert(left@.take(i as int) =~= left@);
    assert(right@.take(j as int) =~= right@);
    out
}

/// Sorts the positions from `lo` up to, not including, `hi`.
fn sort_range(vns: &Vec<VersionNumber>, direction: Direction, lo: usize, hi: usize) -> (out:
    Vec<usize>)
    requires
        lo <= hi <= vns.len(),
    ensures
        out@.to_multiset() == range_seq(lo as int, hi as int).to_multiset(),
        forall|k: int| 0 <= k < out.len() ==> out[k] < vns.len(),
        is_chain(as_ints(out@), tokens_of_all(vns@), direction),
    decreases hi - lo,
{
    let mut out: Vec<usize> = Vec::new();
    if hi - lo == 0 {
        assert(out@ =~= range_seq(lo as int, hi as int));
        out
    } else if hi - lo == 1 {
        out.push(lo);
        assert(out@ =~= range_seq(lo as int, hi as int));
        out
    } else {
        let mid = lo + (hi - lo) / 2;
        let left = sort_range(vns, direction, lo, mid);
        let right = sort_range(vns, direction, mid, hi);
        proof {
            lemma_multiset_commutative(
                range_seq(lo as int, mid as int),
                range_seq(mid as int, hi as int),
            );
            assert(range_seq(lo as int, mid as int) + range_seq(mid as int, hi as int)
                =~= range_seq(lo as int, hi as int));
        }
        merge(vns, direction, &left, &right)
    }
}

/// The low 32 bits of a position.
fn narrow(p: usize) -> (r: u32)
    ensures
        r == p as u32,
{
    #[verifier::truncate]
    (p as u32)
}

/// What `do_sort` returns for `versions` and `direction`.
///
/// `sorted` has one entry for each string. The entries are the low 32 bits
/// of a permutation of the positions in which each string may stand before
/// its successor. For a batch of no more than 2^32 strings, the entries are
/// that permutation itself; and if the comparator is transitive on the
/// batch, each string may stand before every later one.
pub open spec fn is_sort_result(
    sorted: Seq<u32>,
    versions: Seq<String>,
    direction: Direction,
) -> bool {
    &&& sorted.len() == versions.len()
    &&& exists|order: Seq<int>| #[trigger]
        is_sorted_order(order, batch_tokens(versions), direction) && sorted == narrowed(order)
    &&& versions.len() <= 0x1_0000_0000 ==> is_sorted_order(
        positions(sorted),
        batch_tokens(versions),
        direction,
    )
    &&& versions.len() <= 0x1_0000_0000 && transitive_on(batch_tokens(versions)) ==> is_sorted(
        positions(sorted),
        batch_tokens(versions),
        direction,
    )
}

/// Sorts a batch of version strings. Returns the positions that the strings
/// have in `versions`, in sorted order.
///
/// Every batch is accepted.
pub fn do_sort(versions: Vec<String>, direction: Direction) -> (sorted: Vec<u32>)
    ensures
        is_sort_result(sorted@, versions@, direction),
{
    let len = versions.len();
    let mut vns: Vec<VersionNumber> = Vec::with_capacity(len);
    for i in 0..len
        invariant
            len == versions@.len(),
            vns@.len() == i,
            forall|k: int| 0 <= k < i ==> (#[trigger] vns@[k]).i == k,
            forall|k: int|
                0 <= k < i ==> (#[trigger] vns@[k])@ == tokenize(encode_utf8(versions@[k]@)),
    {
        vns.push(parse(versions[i].as_str(), i));
    }
    let order = sort_range(&vns, direction, 0, len);
    let ghost batch = batch_tokens(versions@);
    proof {
        lemma_rearranged_range(order@, len as nat);
    }
    let mut sorted_versions: Vec<u32> = Vec::with_capacity(len);
    for i in 0..len
        invariant
            len == versions@.len(),
            len == vns@.len(),
            len == order@.len(),
            is_permutation(as_ints(order@), len as nat),
            forall|k: int| 0 <= k < len ==> (#[trigger] vns@[k]).i == k,
            sorted_versions@.len() == i,
            forall|k: int| 0 <= k < i ==> #[trigger] sorted_versions@[k] == order@[k] as u32,
    {
        assert(0 <= as_ints(order@)[i as int] < len);
        sorted_versions.push(narrow(vns[order[i]].i));
    }
    proof {
        assert(sorted_versions@ =~= narrowed(as_ints(order@)));
        if len <= 0x1_0000_0000 {
            assert forall|k: int| 0 <= k < len implies order@[k] as u32 == order@[k] by {
            }
            assert(positions(sorted_versions@) =~= as_ints(order@));
            if transitive_on(batch) {
                lemma_chain_is_sorted(as_ints(order@), batch, direction);
            }
        }
    }
    sorted_versions
}

} // verus!
