//! The failures of the core.
use vstd::prelude::*;

verus! {

/// Why a stream was refused or a run stopped.
#[derive(Clone, Copy, Debug, PartialEq, Eq, Structural)]
pub enum Error {
    /// The loop markers of the stream do not pair up.
    UnbalancedBrackets,
    /// The cursor was asked to leave the legal range of the tape.
    OutOfBounds,
    /// A symbol outside the alphabet was reached.
    InvalidCharacter(char),
    /// The pointer offset exceeds the tape capacity.
    OffsetTooLarge,
}

impl Error {
    /// The message that reports this failure.
    pub open spec fn text(self) -> Seq<char> {
        match self {
            Error::UnbalancedBrackets => "Unbalanced Brackets"@,
            Error::OutOfBounds => "Memory index out of bound"@,
            Error::InvalidCharacter(c) => "Invalid character "@.push(c),
            Error::OffsetTooLarge => "pointer offset cannot be greater than memory size"@,
        }
    }

    /// Renders the message that reports this failure.
    pub fn message(&self) -> (s: String)
        ensures
            s@ == self.text(),
    {
        match self {
            Error::UnbalancedBrackets => String::from_str("Unbalanced Brackets"),
            Error::OutOfBounds => String::from_str("Memory index out of bound"),
            Error::InvalidCharacter(c) => {
                let mut s = String::from_str("Invalid character ");
                s.push(*c);
                s
            },
            Error::OffsetTooLarge => String::from_str(
                "pointer offset cannot be greater than memory size",
            ),
        }
    }
}

} // verus!
