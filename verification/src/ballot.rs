//! The counted form of a ballot paper.
use crate::candidate::CandidateId;
use vstd::prelude::*;

verus! {

/// A formal vote: the candidates in the voter's order of preference, taken
/// from one half of the paper only.
#[derive(Debug, Clone, PartialEq, Eq)]
pub struct Ballot {
    pub prefs: Vec<CandidateId>,
}

impl View for Ballot {
    type V = Seq<CandidateId>;

    open spec fn view(&self) -> Seq<CandidateId> {
        self.prefs@
    }
}

impl Ballot {
    /// The ballot of a single voter with the given preference order.
    pub fn single(prefs: Vec<CandidateId>) -> (ballot: Ballot)
        ensures
            ballot@ == prefs@,
    {
        Ballot { prefs }
    }
}

} // verus!
