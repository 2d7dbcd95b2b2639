use vstd::prelude::*;

verus! {

/// Why the digits after the turn letter are not a distance.
#[derive(Clone, Copy, Debug, PartialEq, Eq, Structural)]
pub enum DistanceFault {
    /// Nothing follows the turn letter.
    Empty,
    /// A character that is not a decimal digit (a lone sign counts as one).
    InvalidDigit,
    /// The number does not fit in a `u32`.
    TooLarge,
}

/// The two ways a token can be malformed.
#[derive(Clone, Copy, Debug, PartialEq, Eq, Structural)]
pub enum ParseErrorKind {
    /// The token does not start with `L` or `R`.
    InvalidTurnToken,
    /// What follows the turn letter is not a non-negative decimal integer.
    InvalidDistance(DistanceFault),
}

/// The error of a failed parse: the first malformed token decides it.
#[derive(Clone, Copy, Debug, PartialEq, Eq, Structural)]
pub struct ParseError {
    pub kind: ParseErrorKind,
}

/// The diagnostic text of each kind of error.
pub open spec fn message_of(kind: ParseErrorKind) -> Seq<char> {
    match kind {
        ParseErrorKind::InvalidTurnToken => "there was a problem: must be L or R"@,
        ParseErrorKind::InvalidDistance(DistanceFault::Empty) =>
            "there was a problem: cannot parse integer from empty string"@,
        ParseErrorKind::InvalidDistance(DistanceFault::InvalidDigit) =>
            "there was a problem: invalid digit found in string"@,
        ParseErrorKind::InvalidDistance(DistanceFault::TooLarge) =>
            "there was a problem: number too large to fit in target type"@,
    }
}

impl ParseError {
    /// An error of the given kind.
    pub fn from(kind: ParseErrorKind) -> (r: ParseError)
        ensures
            r.kind == kind,
    {
        ParseError { kind }
    }

    /// A human-readable diagnostic.
    pub fn message(&self) -> (r: String)
        ensures
            r@ == message_of(self.kind),
    {
        match self.kind {
            ParseErrorKind::InvalidTurnToken => String::from_str("there was a problem: must be L or R"),
            ParseErrorKind::InvalidDistance(DistanceFault::Empty) => String::from_str(
                "there was a problem: cannot parse integer from empty string",
            ),
            ParseErrorKind::InvalidDistance(DistanceFault::InvalidDigit) => String::from_str(
                "there was a problem: invalid digit found in string",
            ),
            ParseErrorKind::InvalidDistance(DistanceFault::TooLarge) => String::from_str(
                "there was a problem: number too large to fit in target type",
            ),
        }
    }
}

} // verus!
