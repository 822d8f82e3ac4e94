//! Error kinds of the codec and the two error records that carry them.

use vstd::prelude::*;

verus! {

/// Everything that can go wrong while decoding or encoding.
#[derive(Clone, Copy, PartialEq, Eq, Debug, Structural)]
pub enum ErrorKind {
    /// The input is longer than the configured `max_bytes`.
    InputTooLarge,
    /// A byte that no rule of the grammar allows at its position, a
    /// misspelt `true`, `false` or `null` included.
    UnexpectedCharacter,
    /// The input ends where a value has to start.
    UnexpectedEndOfInput,
    /// A number literal with a missing digit.
    InvalidNumber,
    /// An integer part with more digits than `integer_digit_limit`.
    NumberDigitLimitExceeded,
    /// A string without its closing quote.
    UnterminatedString,
    /// A byte below `0x20` inside a string.
    UnescapedControlCharacter,
    /// A backslash followed by a byte that starts no escape.
    InvalidEscapeSequence,
    /// A `\u` escape that is cut short or holds a byte that is no hex digit.
    InvalidUnicodeEscape,
    /// A `\u` escape of half a surrogate pair.
    LoneSurrogate,
    /// Bytes that are no UTF-8.
    InvalidUtf8,
    /// A key that occurs twice in one object while duplicates are rejected.
    DuplicateObjectKey,
    /// Containers nested deeper than the limit.
    NestingDepthExceeded,
    /// Bytes other than whitespace after the root value.
    TrailingCharacters,
    /// A float that is infinite or no number.
    NonFiniteFloat,
    /// A mapping key that is no atom, string or integer.
    InvalidMapKeyType,
    /// A key that would occur twice in one output object under strict keys.
    DuplicateOutputKey,
    /// The output writer could not take the bytes.
    IoOrAllocation,
    /// A value the encoder has no JSON form for.
    UnsupportedTerm,
}

/// A decoding failure: what went wrong and at which byte of the input.
#[derive(Clone, Copy, PartialEq, Eq, Debug, Structural)]
pub struct DecodeError {
    pub kind: ErrorKind,
    pub offset: usize,
}

/// An encoding failure.
#[derive(Clone, Copy, PartialEq, Eq, Debug, Structural)]
pub struct EncodeError {
    pub kind: ErrorKind,
}

impl DecodeError {
    pub fn new(kind: ErrorKind, offset: usize) -> (e: DecodeError)
        ensures
            e.kind == kind,
            e.offset == offset,
    {
        DecodeError { kind, offset }
    }
}

impl EncodeError {
    pub fn new(kind: ErrorKind) -> (e: EncodeError)
        ensures
            e.kind == kind,
    {
        EncodeError { kind }
    }
}

} // verus!
