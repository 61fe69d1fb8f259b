//! Candidates, as the ballot reader sees them.
use vstd::prelude::*;

verus! {

/// Identifier of a candidate, as the candidate registry assigns it.
pub type CandidateId = u32;

} // verus!
