use vstd::prelude::*;

verus! {

/// What can go wrong while reading tokens.
#[derive(Debug, Clone, Copy, PartialEq, Eq)]
pub enum ErrorKind {
    /// A token was asked for where no input is left.
    UnexpectedEOF,
    /// The character starts no token.
    UnknownCharacter(char),
    /// A read failed at this byte offset of the source, for the reason given.
    MessageWithLocation(usize, &'static str),
    /// A scan that must consume at least one character consumed none.
    NothingMatched,
    /// Numeric text that does not denote a representable number.
    InvalidNumber,
}

} // verus!
