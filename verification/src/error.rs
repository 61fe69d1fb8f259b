//! Why a ballot paper yields no vote.
use vstd::prelude::*;

verus! {

/// The reason why a paper is informal. The batch goes on without the paper.
#[derive(PartialEq, Eq, Hash, Debug, Clone, Copy, Structural)]
pub enum InvalidBallotErr {
    /// A box holds something that is neither blank, `*`, `/` nor a number.
    InvalidCharacter,
    /// Fewer boxes count above the line than a minimum asks; holds the count.
    InvalidMinAbove(usize),
    /// More boxes count above the line than a maximum allows; holds the count.
    InvalidMaxAbove(usize),
    /// Fewer boxes count below the line than a minimum asks; holds the count.
    InvalidMinBelow(usize),
    /// More boxes count below the line than a maximum allows; holds the count.
    InvalidMaxBelow(usize),
    /// Both halves of the paper are formal where only one may be.
    InvalidStrict,
    /// No preference is left once repeated and skipped numbers are cut off.
    EmptyBallot,
}

/// What reading a paper can fail with.
#[derive(Debug, Clone, PartialEq, Eq)]
pub enum BallotParseErr {
    /// The paper is informal: skip it and go on with the batch.
    InvalidBallot(InvalidBallotErr),
    /// The record could not be had at all; holds the source's message. This is
    /// no statement about the voter, and the batch cannot go on.
    InputError(String),
}

impl BallotParseErr {
    /// The reason for an informal paper, if that is what this error is.
    pub open spec fn reason(self) -> Option<InvalidBallotErr> {
        match self {
            BallotParseErr::InvalidBallot(e) => Some(e),
            BallotParseErr::InputError(_) => None,
        }
    }

    /// Whether the batch can go on after this error.
    pub fn is_recoverable(&self) -> (b: bool)
        ensures
            b == self.reason().is_some(),
    {
        match self {
            BallotParseErr::InvalidBallot(_) => true,
            BallotParseErr::InputError(_) => false,
        }
    }
}

} // verus!
