//! Reading one Senate ballot paper.
//!
//! A ballot paper arrives as a comma-separated record with one field per printed
//! box: first the group boxes above the line, then the candidate boxes below it.
//! The library turns such a record into the ordered list of candidates that the
//! vote counts for, or into the reason why the paper is informal.
//!
//! The functions are verified against contracts over mathematical models:
//! byte sequences for the record, `Map<u32, _>` for a map from preference
//! numbers to what was marked, `Seq<CandidateId>` for a preference order.
//! Two contracts are taken on trust, each of a wrapper of one line: that of
//! the random draw in [`experiment`], made by the `rand` crate, and that of
//! `BTreeMap::split_off` in [`normalize`].
//!
//! # The way of a record
//!
//! - [`token`] parts the record into fields and reads what each box holds.
//! - [`pref_map`] maps the preference numbers of one half of the paper to
//!   what their boxes stand for, and notes the least number given twice.
//! - [`normalize`] cuts the map off at the first number that is skipped or
//!   given twice.
//! - [`constraints`] holds what is left against the rules of the
//!   jurisdiction.
//! - [`flatten`] puts the candidates in order; [`experiment`] and [`watched`]
//!   say whether and for which groups an experiment changes the order above
//!   the line, and [`ordering`] says what an order of a map is.
//! - [`parse`] does all of this for both halves and chooses between them.
pub mod ballot;
pub mod candidate;
pub mod constraints;
pub mod error;
pub mod experiment;
pub mod flatten;
pub mod group;
pub mod normalize;
pub mod ordering;
pub mod parse;
pub mod pref_map;
pub mod token;
pub mod watched;

pub use ballot::Ballot;
pub use candidate::CandidateId;
pub use constraints::{ChoiceConstraint, Constraints, CountConstraint};
pub use error::{BallotParseErr, InvalidBallotErr};
pub use flatten::{flatten_group_pref_map, flatten_pref_map, flatten_with};
pub use group::Group;
pub use normalize::remove_repeats_and_gaps;
pub use parse::{fits_paper, parse_ballot_str, parse_ballot_with, IOBallot};
pub use pref_map::{GroupPrefMap, PrefMap};
pub use watched::WatchedSets;
