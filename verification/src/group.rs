//! Groups of candidates printed above the line.
use crate::candidate::CandidateId;
use vstd::prelude::*;

verus! {

/// A group on the ballot paper, with its ticket: the group's candidates in the
/// order that a vote for the group gives them.
#[derive(Debug, Clone)]
pub struct Group {
    pub candidate_ids: Vec<CandidateId>,
}

impl Group {
    /// A group with the given ticket.
    pub fn new(candidate_ids: Vec<CandidateId>) -> (group: Group)
        ensures
            group.candidate_ids@ == candidate_ids@,
    {
        Group { candidate_ids }
    }

    /// The group's ticket.
    pub open spec fn ticket(&self) -> Seq<CandidateId> {
        self.candidate_ids@
    }
}

/// The tickets of a list of groups, in the order of their boxes.
pub open spec fn tickets_of_groups(groups: Seq<Group>) -> Seq<Seq<CandidateId>> {
    groups.map_values(|g: Group| g.ticket())
}

} // verus!
