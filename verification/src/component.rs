//! The components of a version string and their mathematical model.

use vstd::prelude::*;

verus! {

/// The largest number of components kept for one string.
pub const MAX_COMPONENTS: usize = 64;

/// What a component stands for in contracts: the bytes of a text run, or the
/// value of a digit run.
pub enum Token {
    /// The bytes of a text run.
    Text(Seq<u8>),
    /// The value of a digit run.
    Number(nat),
}

/// One run recognised in a version string.
#[derive(Clone, Copy, Debug, PartialEq, Eq)]
pub enum Component<'a> {
    /// A run of letters, possibly led by one `-`, or a digit run too long to
    /// be kept as a number. Borrowed from the input.
    Text(&'a [u8]),
    /// The value of a digit run.
    Number(u32),
}

impl<'a> View for Component<'a> {
    type V = Token;

    open spec fn view(&self) -> Token {
        match *self {
            Component::Text(bytes) => Token::Text(bytes@),
            Component::Number(value) => Token::Number(value as nat),
        }
    }
}

/// The model of a vector of components: the token of each, in order.
pub open spec fn tokens_of(comps: Seq<Component<'_>>) -> Seq<Token> {
    Seq::new(comps.len(), |k: int| comps[k]@)
}

/// A tokenized version string, tagged with the place it had in its batch.
#[derive(Debug)]
pub struct VersionNumber<'a> {
    /// The position of the string in the batch it came from.
    pub i: usize,
    /// The components, in the order in which they occur in the string.
    pub comps: Vec<Component<'a>>,
}

impl<'a> View for VersionNumber<'a> {
    type V = Seq<Token>;

    open spec fn view(&self) -> Seq<Token> {
        tokens_of(self.comps@)
    }
}

/// A token sequence that a version string can have: no more than
/// `MAX_COMPONENTS` tokens, no empty text, every number within 32 bits.
pub open spec fn well_formed(tokens: Seq<Token>) -> bool {
    &&& tokens.len() <= MAX_COMPONENTS
    &&& forall|k: int|
        0 <= k < tokens.len() ==> match #[trigger] tokens[k] {
            Token::Text(bytes) => bytes.len() > 0,
            Token::Number(value) => value <= u32::MAX,
        }
}

impl<'a> VersionNumber<'a> {
    /// The invariant of a tokenized string.
    pub open spec fn wf(&self) -> bool {
        well_formed(self@)
    }
}

} // verus!
