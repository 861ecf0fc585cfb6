//! Splitting a version string into components.
//!
//! The string is read as bytes, from left to right. A maximal run of ASCII
//! digits gives a number, a run of ASCII letters (with at most one `-` in
//! front) gives a text, every other byte is passed over. Reading stops when
//! `MAX_COMPONENTS` components have been found.

use crate::component::{tokens_of, well_formed, Component, Token, VersionNumber, MAX_COMPONENTS};
use vstd::arithmetic::div_mod::{lemma_add_mod_noop, lemma_mul_mod_noop_left, lemma_small_mod};
use vstd::prelude::*;
use vstd::string::StringSliceAdditionalSpecFns;

verus! {

/// The byte `0`.
pub const DIGIT_0: u8 = 0x30;

/// The byte `9`.
pub const DIGIT_9: u8 = 0x39;

/// The byte `A`.
pub const UPPER_A: u8 = 0x41;

/// The byte `Z`.
pub const UPPER_Z: u8 = 0x5a;

/// The byte `a`.
pub const LOWER_A: u8 = 0x61;

/// The byte `z`.
pub const LOWER_Z: u8 = 0x7a;

/// The byte `-`.
pub const DASH: u8 = 0x2d;

/// One more than the largest value of the 32-bit accumulator.
pub open spec fn modulus() -> nat {
    0x1_0000_0000
}

/// `b` is one of `0` to `9`.
pub open spec fn is_digit(b: u8) -> bool {
    DIGIT_0 <= b <= DIGIT_9
}

/// `b` is one of `A` to `Z` or `a` to `z`.
pub open spec fn is_alpha(b: u8) -> bool {
    (UPPER_A <= b <= UPPER_Z) || (LOWER_A <= b <= LOWER_Z)
}

/// `b` is the byte `-`.
pub open spec fn is_dash(b: u8) -> bool {
    b == DASH
}

/// The index just past the digits that stand at `from` and after it.
pub open spec fn digits_end(s: Seq<u8>, from: int) -> int
    decreases s.len() - from,
{
    if 0 <= from < s.len() && is_digit(s[from]) {
        digits_end(s, from + 1)
    } else {
        from
    }
}

/// The index just past the letters that stand at `from` and after it.
pub open spec fn letters_end(s: Seq<u8>, from: int) -> int
    decreases s.len() - from,
{
    if 0 <= from < s.len() && is_alpha(s[from]) {
        letters_end(s, from + 1)
    } else {
        from
    }
}

/// The index just past the text run that starts at `from`: one `-`, if the
/// run starts with it, and the letters that follow.
pub open spec fn text_end(s: Seq<u8>, from: int) -> int {
    if 0 <= from < s.len() && is_dash(s[from]) {
        letters_end(s, from + 1)
    } else {
        letters_end(s, from)
    }
}

/// The number that a sequence of digits writes in base ten.
pub open spec fn decimal_value(digits: Seq<u8>) -> nat
    decreases digits.len(),
{
    if digits.len() == 0 {
        0
    } else {
        decimal_value(digits.drop_last()) * 10 + (digits.last() - DIGIT_0) as nat
    }
}

/// What the 32-bit accumulator holds after the digits have been read.
pub open spec fn wrapped_value(digits: Seq<u8>) -> nat {
    decimal_value(digits) % modulus()
}

/// While the digits were read, one of them made the accumulator smaller.
pub open spec fn wrap_detected(digits: Seq<u8>) -> bool
    decreases digits.len(),
{
    digits.len() > 0 && (wrap_detected(digits.drop_last()) || wrapped_value(digits)
        < wrapped_value(digits.drop_last()))
}

/// The token of a digit run: its value in the accumulator, or the digits
/// themselves where the accumulator was seen to wrap.
pub open spec fn digit_token(digits: Seq<u8>) -> Token {
    if wrap_detected(digits) {
        Token::Text(digits)
    } else {
        Token::Number(wrapped_value(digits))
    }
}

/// The tokens found in `s` from index `pos` on, `room` of them at most.
pub open spec fn tokens_from(s: Seq<u8>, pos: int, room: nat) -> Seq<Token>
    decreases s.len() - pos,
{
    if pos < 0 || pos >= s.len() || room == 0 {
        Seq::empty()
    } else if is_digit(s[pos]) {
        proof {
            lemma_digits_end_bounds(s, pos);
        }
        let end = digits_end(s, pos);
        seq![digit_token(s.subrange(pos, end))] + tokens_from(s, end, (room - 1) as nat)
    } else if is_dash(s[pos]) || is_alpha(s[pos]) {
        proof {
            lemma_text_end_bounds(s, pos);
        }
        let end = text_end(s, pos);
        seq![Token::Text(s.subrange(pos, end))] + tokens_from(s, end, (room - 1) as nat)
    } else {
        tokens_from(s, pos + 1, room)
    }
}

/// The tokens of a version string, given as bytes.
pub open spec fn tokenize(s: Seq<u8>) -> Seq<Token> {
    tokens_from(s, 0, MAX_COMPONENTS as nat)
}

/// A run of digits ends at or after its start and within the string.
pub proof fn lemma_digits_end_bounds(s: Seq<u8>, from: int)
    requires
        0 <= from <= s.len(),
    ensures
        from <= digits_end(s, from) <= s.len(),
        from < s.len() && is_digit(s[from]) ==> from < digits_end(s, from),
    decreases s.len() - from,
{
    if from < s.len() && is_digit(s[from]) {
        lemma_digits_end_bounds(s, from + 1);
    }
}

/// A run of letters ends at or after its start and within the string.
pub proof fn lemma_letters_end_bounds(s: Seq<u8>, from: int)
    requires
        0 <= from <= s.len(),
    ensures
        from <= letters_end(s, from) <= s.len(),
        from < s.len() && is_alpha(s[from]) ==> from < letters_end(s, from),
    decreases s.len() - from,
{
    if from < s.len() && is_alpha(s[from]) {
        lemma_letters_end_bounds(s, from + 1);
    }
}

/// A text run that starts with `-` or a letter is not empty and ends within
/// the string.
pub proof fn lemma_text_end_bounds(s: Seq<u8>, from: int)
    requires
        0 <= from < s.len(),
        is_dash(s[from]) || is_alpha(s[from]),
    ensures
        from < text_end(s, from) <= s.len(),
{
    if is_dash(s[from]) {
        lemma_letters_end_bounds(s, from + 1);
    } else {
        lemma_letters_end_bounds(s, from);
    }
}

/// One step of the accumulator: multiplying by ten and adding a digit, both
/// wrapping, keeps it equal to the decimal value modulo 2^32.
proof fn lemma_accumulate(value: nat, digit: nat, acc: u32, next: u32)
    requires
        digit <= 9,
        acc == value % modulus(),
        next == vstd::wrapping::u32_specs::wrapping_add(
            vstd::wrapping::u32_specs::wrapping_mul(acc, 10),
            digit as u32,
        ),
    ensures
        next == (value * 10 + digit) % modulus(),
{
    let m = modulus() as int;
    let scaled = vstd::wrapping::u32_specs::wrapping_mul(acc, 10);
    lemma_mul_mod_noop_left(value as int, 10, m);
    assert(next == (scaled + digit) % m) by {
        if scaled + digit > u32::MAX {
            assert((scaled + digit) % m == scaled + digit - m) by {
                vstd::arithmetic::div_mod::lemma_fundamental_div_mod_converse(
                    scaled + digit,
                    m,
                    1,
                    scaled + digit - m,
                );
            }
        } else {
            lemma_small_mod((scaled + digit) as nat, m as nat);
        }
    }
    lemma_small_mod(digit, m as nat);
    lemma_add_mod_noop(value as int * 10, digit as int, m);
}

/// A digit run whose value fits in 32 bits is kept as a number, with that
/// value.
pub proof fn lemma_digit_run_within_range(digits: Seq<u8>)
    requires
        forall|k: int| 0 <= k < digits.len() ==> is_digit(#[trigger] digits[k]),
        decimal_value(digits) <= u32::MAX,
    ensures
        digit_token(digits) == Token::Number(decimal_value(digits)),
    decreases digits.len(),
{
    lemma_small_mod(decimal_value(digits), modulus());
    if digits.len() > 0 {
        let shorter = digits.drop_last();
        lemma_digit_run_within_range(shorter);
        lemma_small_mod(decimal_value(shorter), modulus());
    }
}

/// Whether `b` is an ASCII digit.
pub fn byte_is_digit(b: u8) -> (r: bool)
    ensures
        r == is_digit(b),
{
    b >= DIGIT_0 && b <= DIGIT_9
}

/// Whether `b` is an ASCII letter.
pub fn byte_is_alpha(b: u8) -> (r: bool)
    ensures
        r == is_alpha(b),
{
    (b >= UPPER_A && b <= UPPER_Z) || (b >= LOWER_A && b <= LOWER_Z)
}

/// Reads the digit run of `v` that starts at `start`. Returns its component
/// and the index just past it.
fn read_digits<'a>(v: &'a [u8], start: usize) -> (r: (Component<'a>, usize))
    requires
        start < v@.len(),
        is_digit(v@[start as int]),
    ensures
        r.1 == digits_end(v@, start as int),
        start < r.1 <= v@.len(),
        r.0@ == digit_token(v@.subrange(start as int, r.1 as int)),
{
    let len = v.len();
    let mut offset = start;
    let mut number: u32 = 0;
    let mut overflown = false;
    while offset < len && byte_is_digit(v[offset])
        invariant
            len == v@.len(),
            start <= offset <= len,
            digits_end(v@, start as int) == digits_end(v@, offset as int),
            number == wrapped_value(v@.subrange(start as int, offset as int)),
            overflown == wrap_detected(v@.subrange(start as int, offset as int)),
        decreases len - offset,
    {
        let old_number = number;
        let digit = v[offset] - DIGIT_0;
        number = number.wrapping_mul(10).wrapping_add(digit as u32);
        proof {
            let before = v@.subrange(start as int, offset as int);
            let after = v@.subrange(start as int, offset + 1);
            assert(after.drop_last() =~= before);
            lemma_accumulate(decimal_value(before), digit as nat, old_number, number);
        }
        if number < old_number {
            overflown = true;
        }
        offset += 1;
    }
    let component = if overflown {
        Component::Text(vstd::slice::slice_subrange(v, start, offset))
    } else {
        Component::Number(number)
    };
    (component, offset)
}

/// Reads the text run of `v` that starts at `start`. Returns its component
/// and the index just past it.
fn read_text<'a>(v: &'a [u8], start: usize) -> (r: (Component<'a>, usize))
    requires
        start < v@.len(),
        is_dash(v@[start as int]) || is_alpha(v@[start as int]),
    ensures
        r.1 == text_end(v@, start as int),
        start < r.1 <= v@.len(),
        r.0@ == Token::Text(v@.subrange(start as int, r.1 as int)),
{
    let len = v.len();
    let mut offset = start;
    if v[offset] == DASH {
        offset += 1;
    }
    proof {
        lemma_text_end_bounds(v@, start as int);
    }
    while offset < len && byte_is_alpha(v[offset])
        invariant
            len == v@.len(),
            start <= offset <= len,
            text_end(v@, start as int) == letters_end(v@, offset as int),
        decreases len - offset,
    {
        offset += 1;
    }
    (Component::Text(vstd::slice::slice_subrange(v, start, offset)), offset)
}

/// Tokenizes `v` and tags the result with `i`, the place of `v` in its batch.
///
/// Every string is accepted. The result holds the tokens of the bytes of `v`,
/// and is well formed.
pub fn parse<'a>(v: &'a str, i: usize) -> (r: VersionNumber<'a>)
    ensures
        r.i == i,
        r@ == tokenize(v.spec_bytes()),
        r.wf(),
{
    let v = v.as_bytes();
    let mut comps: Vec<Component<'a>> = Vec::new();
    let mut offset: usize = 0;
    let len = v.len();
    while offset < len && comps.len() < MAX_COMPONENTS
        invariant
            len == v@.len(),
            offset <= len,
            comps.len() <= MAX_COMPONENTS,
            well_formed(tokens_of(comps@)),
            tokenize(v@) == tokens_of(comps@) + tokens_from(
                v@,
                offset as int,
                (MAX_COMPONENTS - comps.len()) as nat,
            ),
        decreases len - offset,
    {
        let ghost found = tokens_of(comps@);
        if byte_is_digit(v[offset]) {
            let (component, end) = read_digits(v, offset);
            comps.push(component);
            offset = end;
            assert(tokens_of(comps@) =~= found.push(component@));
        } else if v[offset] == DASH || byte_is_alpha(v[offset]) {
            let (component, end) = read_text(v, offset);
            comps.push(component);
            offset = end;
            assert(tokens_of(comps@) =~= found.push(component@));
        } else {
            offset += 1;
        }
    }
    VersionNumber { i: i, comps: comps }
}

} // verus!
