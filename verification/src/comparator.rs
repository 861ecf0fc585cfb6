//! The order of tokenized version strings.
//!
//! Two token sequences are compared index by index. Numbers are ordered by
//! value, texts byte by byte over the length of the shorter one, and a number
//! is greater than a text. Where one sequence ends before any index has
//! decided, the next component of the longer one decides: the longer sequence
//! is the greater if that component is a number and the lesser if it is a text.
//!
//! Results are written as `-1`, `0` and `1`.

use crate::component::{Component, Token, VersionNumber};
use std::cmp::Ordering;
use vstd::prelude::*;

verus! {

/// The order of two texts from byte `k` on, over the length of the shorter
/// one: decided by the first byte in which they differ, `0` if there is none.
pub open spec fn compare_text_from(x: Seq<u8>, y: Seq<u8>, k: int) -> int
    decreases x.len() - k,
{
    if k < 0 || k >= x.len() || k >= y.len() {
        0
    } else if x[k] < y[k] {
        -1
    } else if x[k] > y[k] {
        1
    } else {
        compare_text_from(x, y, k + 1)
    }
}

/// The order of two texts. A text and any of its prefixes give `0`.
pub open spec fn compare_text(x: Seq<u8>, y: Seq<u8>) -> int {
    compare_text_from(x, y, 0)
}

/// The order of two tokens.
pub open spec fn compare_token(a: Token, b: Token) -> int {
    match (a, b) {
        (Token::Number(m), Token::Number(n)) => if m < n {
            -1
        } else if m > n {
            1
        } else {
            0
        },
        (Token::Text(x), Token::Text(y)) => compare_text(x, y),
        (Token::Number(_), Token::Text(_)) => 1,
        (Token::Text(_), Token::Number(_)) => -1,
    }
}

/// The order of two token sequences, given that they agree below index `k`.
pub open spec fn compare_from(a: Seq<Token>, b: Seq<Token>, k: int) -> int
    decreases a.len() - k,
{
    if k < 0 {
        0
    } else if k < a.len() && k < b.len() {
        if compare_token(a[k], b[k]) != 0 {
            compare_token(a[k], b[k])
        } else {
            compare_from(a, b, k + 1)
        }
    } else if k < b.len() {
        if b[k] is Number {
            -1
        } else {
            1
        }
    } else if k < a.len() {
        if a[k] is Number {
            1
        } else {
            -1
        }
    } else {
        0
    }
}

/// The order of two token sequences: negative where `a` comes first, zero
/// where neither comes first, positive where `b` comes first.
pub open spec fn compare_tokens(a: Seq<Token>, b: Seq<Token>) -> int {
    compare_from(a, b, 0)
}

/// Two tokens that neither order puts first.
pub open spec fn agree(a: Token, b: Token) -> bool {
    compare_token(a, b) == 0
}

/// Among three tokens, two agreements give the third.
pub open spec fn agreement_transitive(x: Token, y: Token, z: Token) -> bool {
    &&& agree(x, y) && agree(y, z) ==> agree(x, z)
    &&& agree(x, y) && agree(x, z) ==> agree(y, z)
    &&& agree(x, z) && agree(y, z) ==> agree(x, y)
}

/// Three sequences agree, each pair of them, at every index below `k`.
pub open spec fn agree_before(a: Seq<Token>, b: Seq<Token>, c: Seq<Token>, k: int) -> bool {
    forall|j: int|
        0 <= j < k ==> agree(#[trigger] a[j], b[j]) && agree(b[j], c[j]) && agree(a[j], c[j])
}

/// At the first index at which three sequences do not all agree, agreement
/// between their tokens is transitive.
///
/// This fails only where the three tokens are texts, one of them a prefix of
/// the two others, and those two differ within their common length.
pub open spec fn consistent(a: Seq<Token>, b: Seq<Token>, c: Seq<Token>) -> bool {
    forall|k: int|
        0 <= k < a.len() && k < b.len() && k < c.len() && #[trigger] agree_before(a, b, c, k)
            ==> agreement_transitive(a[k], b[k], c[k])
}

/// The order of two texts is one of `-1`, `0`, `1`, and turns round with its
/// arguments.
pub proof fn lemma_text_antisymmetric(x: Seq<u8>, y: Seq<u8>, k: int)
    ensures
        -1 <= compare_text_from(x, y, k) <= 1,
        compare_text_from(y, x, k) == -compare_text_from(x, y, k),
    decreases x.len() - k,
{
    if 0 <= k < x.len() && k < y.len() && x[k] == y[k] {
        lemma_text_antisymmetric(x, y, k + 1);
    }
}

/// Of three texts of which the first is not after the second and the second
/// not after the third, the first is not after the third, unless both pairs
/// agree. Where both pairs are strictly ordered, so are the outer two.
pub proof fn lemma_text_transitive(x: Seq<u8>, y: Seq<u8>, z: Seq<u8>, k: int)
    requires
        compare_text_from(x, y, k) <= 0,
        compare_text_from(y, z, k) <= 0,
        compare_text_from(x, y, k) != 0 || compare_text_from(y, z, k) != 0,
    ensures
        compare_text_from(x, z, k) <= 0,
        compare_text_from(x, y, k) < 0 && compare_text_from(y, z, k) < 0 ==> compare_text_from(
            x,
            z,
            k,
        ) < 0,
    decreases x.len() - k,
{
    if 0 <= k < x.len() && k < y.len() && k < z.len() && x[k] == y[k] && y[k] == z[k] {
        lemma_text_transitive(x, y, z, k + 1);
    }
}

/// Every text agrees with itself.
pub proof fn lemma_text_reflexive(x: Seq<u8>, k: int)
    ensures
        compare_text_from(x, x, k) == 0,
    decreases x.len() - k,
{
    if 0 <= k < x.len() {
        lemma_text_reflexive(x, k + 1);
    }
}

/// The order of two tokens is one of `-1`, `0`, `1`, and turns round with its
/// arguments.
pub proof fn lemma_token_antisymmetric(a: Token, b: Token)
    ensures
        -1 <= compare_token(a, b) <= 1,
        compare_token(b, a) == -compare_token(a, b),
{
    if let (Token::Text(x), Token::Text(y)) = (a, b) {
        lemma_text_antisymmetric(x, y, 0);
    }
}

/// Among three tokens whose agreement is transitive, "not after" is
/// transitive, and strict as soon as one of the two steps is.
pub proof fn lemma_token_transitive(a: Token, b: Token, c: Token)
    requires
        agreement_transitive(a, b, c),
        compare_token(a, b) <= 0,
        compare_token(b, c) <= 0,
    ensures
        compare_token(a, c) <= 0,
        compare_token(a, b) < 0 || compare_token(b, c) < 0 ==> compare_token(a, c) < 0,
{
    if let (Token::Text(x), Token::Text(y), Token::Text(z)) = (a, b, c) {
        if compare_text(x, y) != 0 || compare_text(y, z) != 0 {
            lemma_text_transitive(x, y, z, 0);
        }
    }
}

/// The order of two sequences is one of `-1`, `0`, `1`, and turns round with
/// its arguments: `a` is before `b` exactly where `b` is after `a`.
pub proof fn lemma_compare_from_antisymmetric(a: Seq<Token>, b: Seq<Token>, k: int)
    ensures
        -1 <= compare_from(a, b, k) <= 1,
        compare_from(b, a, k) == -compare_from(a, b, k),
    decreases a.len() - k,
{
    if 0 <= k < a.len() && k < b.len() {
        lemma_token_antisymmetric(a[k], b[k]);
        if compare_token(a[k], b[k]) == 0 {
            lemma_compare_from_antisymmetric(a, b, k + 1);
        }
    }
}

/// Antisymmetry: comparing `b` with `a` gives the opposite of comparing `a`
/// with `b`, and every result is `-1`, `0` or `1`.
pub proof fn lemma_compare_antisymmetric(a: Seq<Token>, b: Seq<Token>)
    ensures
        -1 <= compare_tokens(a, b) <= 1,
        compare_tokens(b, a) == -compare_tokens(a, b),
{
    lemma_compare_from_antisymmetric(a, b, 0);
}

/// Every sequence compares as equal with itself, from any index on.
pub proof fn lemma_compare_from_reflexive(a: Seq<Token>, k: int)
    ensures
        compare_from(a, a, k) == 0,
    decreases a.len() - k,
{
    if 0 <= k < a.len() {
        if let Token::Text(x) = a[k] {
            lemma_text_reflexive(x, 0);
        }
        lemma_compare_from_reflexive(a, k + 1);
    }
}

/// Reflexivity: a token sequence compared with itself gives `0`.
pub proof fn lemma_compare_reflexive(a: Seq<Token>)
    ensures
        compare_tokens(a, a) == 0,
{
    lemma_compare_from_reflexive(a, 0);
}

/// Transitivity from index `k` on, for three sequences that agree below `k`.
pub proof fn lemma_compare_from_transitive(a: Seq<Token>, b: Seq<Token>, c: Seq<Token>, k: int)
    requires
        0 <= k,
        consistent(a, b, c),
        agree_before(a, b, c, k),
        compare_from(a, b, k) <= 0,
        compare_from(b, c, k) <= 0,
    ensures
        compare_from(a, c, k) <= 0,
        compare_from(a, b, k) < 0 || compare_from(b, c, k) < 0 ==> compare_from(a, c, k) < 0,
    decreases a.len() - k,
{
    if k < a.len() && k < b.len() && k < c.len() {
        lemma_token_antisymmetric(a[k], b[k]);
        lemma_token_antisymmetric(b[k], c[k]);
        lemma_token_transitive(a[k], b[k], c[k]);
        if agree(a[k], b[k]) && agree(b[k], c[k]) {
            lemma_compare_from_transitive(a, b, c, k + 1);
        }
    }
}

/// Transitivity: if `a` is not after `b` and `b` is not after `c`, then `a`
/// is not after `c`, and `a` is before `c` if one of the two steps is strict.
///
/// This holds of three sequences that are `consistent`. It does not hold of
/// all: a text agrees with each of its prefixes, so that `ac`, `a`, `ab`
/// agree in turn while `ac` is after `ab`.
pub proof fn lemma_compare_transitive(a: Seq<Token>, b: Seq<Token>, c: Seq<Token>)
    requires
        consistent(a, b, c),
        compare_tokens(a, b) <= 0,
        compare_tokens(b, c) <= 0,
    ensures
        compare_tokens(a, c) <= 0,
        compare_tokens(a, b) < 0 || compare_tokens(b, c) < 0 ==> compare_tokens(a, c) < 0,
{
    lemma_compare_from_transitive(a, b, c, 0);
}

/// Compares two byte strings over the length of the shorter one.
fn cmp_prefix(x: &[u8], y: &[u8]) -> (r: Ordering)
    ensures
        match r {
            Ordering::Less => compare_text(x@, y@) == -1,
            Ordering::Equal => compare_text(x@, y@) == 0,
            Ordering::Greater => compare_text(x@, y@) == 1,
        },
{
    let size = if x.len() < y.len() {
        x.len()
    } else {
        y.len()
    };
    let mut n: usize = 0;
    let ghost mut k: int = 0;
    while n < size
        invariant
            k == n,
            n <= size,
            size <= x@.len(),
            size <= y@.len(),
            size == x@.len() || size == y@.len(),
            compare_text(x@, y@) == compare_text_from(x@, y@, k),
        decreases size - n,
    {
        if x[n] < y[n] {
            return Ordering::Less;
        }
        if x[n] > y[n] {
            return Ordering::Greater;
        }
        n += 1;
        proof {
            k = k + 1;
        }
    }
    Ordering::Equal
}

/// Compares two components.
fn cmp_component(a: &Component, b: &Component) -> (r: Ordering)
    ensures
        match r {
            Ordering::Less => compare_token(a@, b@) == -1,
            Ordering::Equal => compare_token(a@, b@) == 0,
            Ordering::Greater => compare_token(a@, b@) == 1,
        },
{
    match (a, b) {
        (Component::Number(m), Component::Number(n)) => {
            if *m < *n {
                Ordering::Less
            } else if *m > *n {
                Ordering::Greater
            } else {
                Ordering::Equal
            }
        },
        (Component::Text(x), Component::Text(y)) => cmp_prefix(x, y),
        (Component::Number(_), Component::Text(_)) => Ordering::Greater,
        (Component::Text(_), Component::Number(_)) => Ordering::Less,
    }
}

/// Compares two tokenized version strings, in ascending order.
///
/// The result is `Less`, `Equal` or `Greater` as `compare_tokens` of the two
/// token sequences is `-1`, `0` or `1`. The tags play no part.
pub fn cmp_fwd(a: &VersionNumber, b: &VersionNumber) -> (r: Ordering)
    ensures
        match r {
            Ordering::Less => compare_tokens(a@, b@) == -1,
            Ordering::Equal => compare_tokens(a@, b@) == 0,
            Ordering::Greater => compare_tokens(a@, b@) == 1,
        },
{
    let max_n = if a.comps.len() < b.comps.len() {
        a.comps.len()
    } else {
        b.comps.len()
    };
    let mut n: usize = 0;
    let ghost mut k: int = 0;
    while n < max_n
        invariant
            k == n,
            n <= max_n,
            max_n <= a.comps.len(),
            max_n <= b.comps.len(),
            max_n == a.comps.len() || max_n == b.comps.len(),
            compare_tokens(a@, b@) == compare_from(a@, b@, k),
        decreases max_n - n,
    {
        match cmp_component(&a.comps[n], &b.comps[n]) {
            Ordering::Equal => {},
            r => {
                return r;
            },
        }
        n += 1;
        proof {
            k = k + 1;
        }
    }
    if a.comps.len() < b.comps.len() {
        match &b.comps[max_n] {
            Component::Number(_) => Ordering::Less,
            _ => Ordering::Greater,
        }
    } else if a.comps.len() > b.comps.len() {
        match &a.comps[max_n] {
            Component::Number(_) => Ordering::Greater,
            _ => Ordering::Less,
        }
    } else {
        Ordering::Equal
    }
}

/// Compares two tokenized version strings, in descending order: the result
/// of `cmp_fwd`, turned round.
pub fn cmp_bwd(a: &VersionNumber, b: &VersionNumber) -> (r: Ordering)
    ensures
        match r {
            Ordering::Less => compare_tokens(a@, b@) == 1,
            Ordering::Equal => compare_tokens(a@, b@) == 0,
            Ordering::Greater => compare_tokens(a@, b@) == -1,
        },
{
    match cmp_fwd(a, b) {
        Ordering::Less => Ordering::Greater,
        Ordering::Equal => Ordering::Equal,
        Ordering::Greater => Ordering::Less,
    }
}

} // verus!
