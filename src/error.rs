use vstd::prelude::*;

verus! {

/// The lexical errors that end a scan.
#[derive(Clone, Copy, Debug, PartialEq, Eq, Structural)]
pub enum Error {
    /// A quote was opened and the input ended before its closing quote.
    UnterminatedQuote,
    /// An atom holds a byte outside printable ASCII (validating scans only).
    InvalidSymbolChar,
    /// The bytes of a token are not valid UTF-8.
    InvalidUtf8,
}

/// Position value that records `UnterminatedQuote`.
pub const UNTERMINATED_QUOTE_MARK: usize = usize::MAX;

/// Position value that records `InvalidSymbolChar`.
pub const INVALID_SYMBOL_CHAR_MARK: usize = usize::MAX - 1;

/// Position value that records `InvalidUtf8`.
pub const INVALID_UTF8_MARK: usize = usize::MAX - 2;

/// The position value that records error `e`.
pub open spec fn mark_of(e: Error) -> usize {
    match e {
        Error::UnterminatedQuote => UNTERMINATED_QUOTE_MARK,
        Error::InvalidSymbolChar => INVALID_SYMBOL_CHAR_MARK,
        Error::InvalidUtf8 => INVALID_UTF8_MARK,
    }
}

/// The error that position value `n` records, if any.
pub open spec fn error_of(n: usize) -> Option<Error> {
    if n == UNTERMINATED_QUOTE_MARK {
        Some(Error::UnterminatedQuote)
    } else if n == INVALID_SYMBOL_CHAR_MARK {
        Some(Error::InvalidSymbolChar)
    } else if n == INVALID_UTF8_MARK {
        Some(Error::InvalidUtf8)
    } else {
        None
    }
}

/// Whether position value `n` records an error rather than a place in the input.
pub open spec fn is_mark(n: usize) -> bool {
    error_of(n) is Some
}

impl Error {
    /// Encodes the error as a position value that no input position can take.
    pub fn into_num(self) -> (r: usize)
        ensures
            r == mark_of(self),
            r > isize::MAX,
    {
        match self {
            Error::UnterminatedQuote => UNTERMINATED_QUOTE_MARK,
            Error::InvalidSymbolChar => INVALID_SYMBOL_CHAR_MARK,
            Error::InvalidUtf8 => INVALID_UTF8_MARK,
        }
    }

    /// Decodes a position value: the error it records, or `None` for any
    /// other value.
    pub fn from_num(n: usize) -> (r: Option<Error>)
        ensures
            r == error_of(n),
    {
        if n == UNTERMINATED_QUOTE_MARK {
            Some(Error::UnterminatedQuote)
        } else if n == INVALID_SYMBOL_CHAR_MARK {
            Some(Error::InvalidSymbolChar)
        } else if n == INVALID_UTF8_MARK {
            Some(Error::InvalidUtf8)
        } else {
            None
        }
    }
}

/// Decoding the position value of an error gives back that error, and no
/// position inside an input (at most `isize::MAX`) decodes to an error.
pub proof fn lemma_marks_decode(e: Error, n: usize)
    ensures
        error_of(mark_of(e)) == Some(e),
        n <= isize::MAX ==> error_of(n) is None,
{
}

} // verus!
