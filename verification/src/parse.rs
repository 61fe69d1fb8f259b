//! Reading a ballot paper: both halves, and the choice between them.
//!
//! The first boxes of a record, as many as there are groups, stand above the
//! line; the boxes after them stand below it, one per candidate. Each half is
//! read on its own: mapped, cut off where it stops counting, held against the
//! constraints and put in order. Then one half is chosen:
//!
//! | above  | below  | the paper counts as                                   |
//! |--------|--------|--------------------------------------------------------|
//! | formal | not    | the vote above the line                                |
//! | not    | formal | the vote below the line                                |
//! | formal | formal | the preferred half; informal under [`ChoiceConstraint::Strict`] |
//! | not    | not    | informal, for the reason found above the line          |
use crate::ballot::Ballot;
use crate::candidate::CandidateId;
use crate::constraints::{
    first_above_violation, first_below_violation, ChoiceConstraint, Constraints, CountConstraint,
};
use crate::error::{BallotParseErr, InvalidBallotErr};
use crate::experiment::{displacement_of, needs_draw, DRAW_SCALE};
use crate::flatten::{flat_order, flatten_group_pref_map, flatten_pref_map, flatten_with};
use crate::group::{tickets_of_groups, Group};
use crate::normalize::{
    has_prefs, kept_prefs, lemma_kept_prefs_map_values, remove_repeats_and_gaps,
};
use crate::ordering::{ascending, values_of};
use crate::pref_map::{
    create_group_pref_map, create_pref_map, has_invalid, marked, marks_of, repeat_cutoff,
    ticket_view, tickets, GroupPrefMap, PrefMap,
};
use crate::token::{field_views, fields_of, split_fields, Mark};
use crate::watched::{labor_ids, liberal_ids, WatchedSets};
use vstd::prelude::*;
use vstd::slice::slice_subrange;
use vstd::string::StringSliceAdditionalSpecFns;

verus! {

/// What a source of ballots yields for each record: the ballot, or one of two
/// kinds of error.
///
/// 1. The paper is informal, which is recoverable: skip the ballot.
/// 2. The record could not be had, which is not: stop the count.
pub type IOBallot = Result<Ballot, BallotParseErr>;

/// What reading a half of the paper, or the whole of it, comes to: an order
/// of candidates, or the reason why there is none.
pub type Vote = Result<Seq<CandidateId>, InvalidBallotErr>;

/// The fields of the boxes above the line, where there are `groups` groups.
pub open spec fn boxes_above(fields: Seq<Seq<u8>>, groups: nat) -> Seq<Seq<u8>> {
    if groups <= fields.len() {
        fields.take(groups as int)
    } else {
        fields
    }
}

/// The fields of the boxes below the line, where there are `groups` groups.
pub open spec fn boxes_below(fields: Seq<Seq<u8>>, groups: nat) -> Seq<Seq<u8>> {
    if groups <= fields.len() {
        fields.skip(groups as int)
    } else {
        Seq::empty()
    }
}

/// What counts of a half of the paper whose boxes stand for `entities`: the
/// map of its marks, cut off at the first skipped or repeated number.
pub open spec fn counted<T>(marks: Seq<Mark>, entities: Seq<T>) -> Result<
    Map<u32, T>,
    InvalidBallotErr,
> {
    if has_invalid(marks) {
        Err(InvalidBallotErr::InvalidCharacter)
    } else {
        let kept = kept_prefs(marked(marks, entities), repeat_cutoff(marks));
        if has_prefs(kept) {
            Ok(kept)
        } else {
            Err(InvalidBallotErr::EmptyBallot)
        }
    }
}

/// The groups that count above the line, where the vote there is formal: it
/// holds nothing that is no preference, something of it counts, and what
/// counts meets the constraints on that half.
pub open spec fn formal_above(
    fields: Seq<Seq<u8>>,
    group_tickets: Seq<Seq<CandidateId>>,
    counts: Seq<CountConstraint>,
) -> Result<Map<u32, Seq<CandidateId>>, InvalidBallotErr> {
    match counted(marks_of(fields), group_tickets) {
        Err(e) => Err(e),
        Ok(kept) => match first_above_violation(counts, kept.len() as usize) {
            Some(e) => Err(e),
            None => Ok(kept),
        },
    }
}

/// The candidates that count below the line, where the vote there is formal.
pub open spec fn formal_below(
    fields: Seq<Seq<u8>>,
    candidates: Seq<CandidateId>,
    counts: Seq<CountConstraint>,
) -> Result<Map<u32, CandidateId>, InvalidBallotErr> {
    match counted(marks_of(fields), candidates) {
        Err(e) => Err(e),
        Ok(kept) => match first_below_violation(counts, kept.len() as usize) {
            Some(e) => Err(e),
            None => Ok(kept),
        },
    }
}

/// The vote above the line.
pub open spec fn vote_above(
    fields: Seq<Seq<u8>>,
    group_tickets: Seq<Seq<CandidateId>>,
    counts: Seq<CountConstraint>,
    set_a: Seq<CandidateId>,
    set_b: Seq<CandidateId>,
    displacement: Option<u32>,
) -> Vote {
    match formal_above(fields, group_tickets, counts) {
        Err(e) => Err(e),
        Ok(kept) => Ok(flat_order(kept, set_a, set_b, displacement)),
    }
}

/// The vote below the line.
pub open spec fn vote_below(
    fields: Seq<Seq<u8>>,
    candidates: Seq<CandidateId>,
    counts: Seq<CountConstraint>,
) -> Vote {
    match formal_below(fields, candidates, counts) {
        Err(e) => Err(e),
        Ok(kept) => Ok(values_of(ascending(kept))),
    }
}

/// The half of the paper that counts.
pub open spec fn chosen_vote(choice: ChoiceConstraint, above: Vote, below: Vote) -> Vote {
    match (above, below) {
        (Ok(prefs), Err(_)) => Ok(prefs),
        (Err(_), Ok(prefs)) => Ok(prefs),
        (Ok(above_prefs), Ok(below_prefs)) => match choice {
            ChoiceConstraint::PreferAbove => Ok(above_prefs),
            ChoiceConstraint::PreferBelow => Ok(below_prefs),
            ChoiceConstraint::Strict => Err(InvalidBallotErr::InvalidStrict),
        },
        (Err(e), Err(_)) => Err(e),
    }
}

/// What a record counts as.
pub open spec fn ballot_of(
    record: Seq<u8>,
    group_tickets: Seq<Seq<CandidateId>>,
    candidates: Seq<CandidateId>,
    choice: ChoiceConstraint,
    counts: Seq<CountConstraint>,
    set_a: Seq<CandidateId>,
    set_b: Seq<CandidateId>,
    displacement: Option<u32>,
) -> Vote {
    let fields = fields_of(record);
    let groups = group_tickets.len();
    chosen_vote(
        choice,
        vote_above(boxes_above(fields, groups), group_tickets, counts, set_a, set_b, displacement),
        vote_below(boxes_below(fields, groups), candidates, counts),
    )
}

/// Whether the result of reading says what `vote` says.
pub open spec fn is_outcome(result: IOBallot, vote: Vote) -> bool {
    match result {
        Ok(ballot) => vote == Ok::<Seq<CandidateId>, InvalidBallotErr>(ballot@),
        Err(e) => e matches BallotParseErr::InvalidBallot(reason) && vote == Err::<
            Seq<CandidateId>,
            InvalidBallotErr,
        >(reason),
    }
}

/// The half of the paper that counts, where each half was read to an order of
/// candidates or to an error.
pub fn choose_half(
    choice: ChoiceConstraint,
    above_the_line: Result<Vec<CandidateId>, BallotParseErr>,
    below_the_line: Result<Vec<CandidateId>, BallotParseErr>,
) -> (result: IOBallot)
    ensures
        match (above_the_line, below_the_line) {
            (Ok(prefs), Err(_)) => result matches Ok(ballot) && ballot@ == prefs@,
            (Err(_), Ok(prefs)) => result matches Ok(ballot) && ballot@ == prefs@,
            (Ok(above), Ok(below)) => match choice {
                ChoiceConstraint::PreferAbove => result matches Ok(ballot) && ballot@ == above@,
                ChoiceConstraint::PreferBelow => result matches Ok(ballot) && ballot@ == below@,
                ChoiceConstraint::Strict => result matches Err(e) && e
                    == BallotParseErr::InvalidBallot(InvalidBallotErr::InvalidStrict),
            },
            (Err(e1), Err(_)) => result matches Err(e) && e == e1,
        },
{
    match (choice, above_the_line, below_the_line) {
        (_, Ok(prefs), Err(_)) => Ok(Ballot::single(prefs)),
        (_, Err(_), Ok(prefs)) => Ok(Ballot::single(prefs)),
        (ChoiceConstraint::PreferAbove, Ok(prefs), Ok(_)) => Ok(Ballot::single(prefs)),
        (ChoiceConstraint::PreferBelow, Ok(_), Ok(prefs)) => Ok(Ballot::single(prefs)),
        (ChoiceConstraint::Strict, Ok(_), Ok(_)) => Err(
            BallotParseErr::InvalidBallot(InvalidBallotErr::InvalidStrict),
        ),
        (_, Err(e1), Err(_)) => Err(e1),
    }
}

/// Reads the boxes above the line into the map of the groups that count, or
/// into the reason why the vote above the line is informal.
pub fn read_above<'g>(prefs: &[&[u8]], groups: &'g [Group], constraints: &Constraints) -> (res:
    Result<GroupPrefMap<'g>, BallotParseErr>)
    requires
        prefs@.len() <= groups@.len(),
    ensures
        match res {
            Ok(map) => formal_above(
                field_views(prefs@),
                tickets_of_groups(groups@),
                constraints.counts@,
            ) == Ok::<Map<u32, Seq<CandidateId>>, InvalidBallotErr>(tickets(map@)),
            Err(e) => e matches BallotParseErr::InvalidBallot(reason) && formal_above(
                field_views(prefs@),
                tickets_of_groups(groups@),
                constraints.counts@,
            ) == Err::<Map<u32, Seq<CandidateId>>, InvalidBallotErr>(reason),
        },
{
    let (map, cutoff) = match create_group_pref_map(prefs, groups) {
        Ok(built) => built,
        Err(e) => {
            return Err(e);
        },
    };
    proof {
        lemma_kept_prefs_map_values(map@, cutoff, ticket_view());
    }
    let kept = match remove_repeats_and_gaps((map, cutoff)) {
        Ok(kept) => kept,
        Err(e) => {
            return Err(e);
        },
    };
    proof {
        assert(tickets(kept@).dom() =~= kept@.dom());
    }
    constraints.check_above(kept)
}

/// Reads the boxes below the line into the map of the candidates that count,
/// or into the reason why the vote below the line is informal.
pub fn read_below(prefs: &[&[u8]], candidates: &[CandidateId], constraints: &Constraints) -> (res:
    Result<PrefMap, BallotParseErr>)
    requires
        prefs@.len() <= candidates@.len(),
    ensures
        match res {
            Ok(map) => formal_below(field_views(prefs@), candidates@, constraints.counts@) == Ok::<
                Map<u32, CandidateId>,
                InvalidBallotErr,
            >(map@),
            Err(e) => e matches BallotParseErr::InvalidBallot(reason) && formal_below(
                field_views(prefs@),
                candidates@,
                constraints.counts@,
            ) == Err::<Map<u32, CandidateId>, InvalidBallotErr>(reason),
        },
{
    let (map, cutoff) = match create_pref_map(prefs, candidates) {
        Ok(built) => built,
        Err(e) => {
            return Err(e);
        },
    };
    let kept = match remove_repeats_and_gaps((map, cutoff)) {
        Ok(kept) => kept,
        Err(e) => {
            return Err(e);
        },
    };
    constraints.check_below(kept)
}

/// Parts a record into its fields and says how many of them stand above the
/// line.
fn split_record<'a>(record: &'a [u8], groups: usize) -> (parted: (Vec<&'a [u8]>, usize))
    ensures
        field_views(parted.0@) == fields_of(record@),
        parted.1 <= parted.0@.len(),
        parted.1 <= groups,
        field_views(parted.0@.take(parted.1 as int)) == boxes_above(
            fields_of(record@),
            groups as nat,
        ),
        field_views(parted.0@.skip(parted.1 as int)) == boxes_below(
            fields_of(record@),
            groups as nat,
        ),
{
    let fields = split_fields(record);
    let above = if groups <= fields.len() {
        groups
    } else {
        fields.len()
    };
    proof {
        let all = fields_of(record@);
        assert(field_views(fields@.take(above as int)) =~= boxes_above(all, groups as nat));
        assert(field_views(fields@.skip(above as int)) =~= boxes_below(all, groups as nat));
    }
    (fields, above)
}

/// Whether the record holds no more boxes than a paper with so many groups
/// and candidates has: only such a record can be read.
pub fn fits_paper(pref_string: &str, groups: usize, candidates: usize) -> (fits: bool)
    ensures
        fits == (fields_of(pref_string.spec_bytes()).len() <= groups + candidates),
{
    let fields = split_fields(pref_string.as_bytes());
    if fields.len() <= groups {
        true
    } else {
        fields.len() - groups <= candidates
    }
}

/// Reads a ballot paper with a given displacement of the watched groups.
///
/// `pref_string` holds one field per box, parted by commas: first the boxes
/// above the line, as many as there are groups, then those below it, one per
/// candidate. A record may stop early, and the boxes that it leaves out are
/// blank; it may not hold more boxes than the paper has.
pub fn parse_ballot_with(
    pref_string: &str,
    groups: &[Group],
    candidates: &[CandidateId],
    constraints: &Constraints,
    watched: &WatchedSets,
    displacement: Option<u32>,
) -> (result: IOBallot)
    requires
        fields_of(pref_string.spec_bytes()).len() <= groups@.len() + candidates@.len(),
    ensures
        is_outcome(
            result,
            ballot_of(
                pref_string.spec_bytes(),
                tickets_of_groups(groups@),
                candidates@,
                constraints.choice,
                constraints.counts@,
                watched.set_a@,
                watched.set_b@,
                displacement,
            ),
        ),
{
    let (fields, above) = split_record(pref_string.as_bytes(), groups.len());
    let above_prefs = slice_subrange(fields.as_slice(), 0, above);
    let below_prefs = slice_subrange(fields.as_slice(), above, fields.len());
    proof {
        assert(above_prefs@ =~= fields@.take(above as int));
        assert(below_prefs@ =~= fields@.skip(above as int));
        assert(tickets_of_groups(groups@).len() == groups@.len());
    }
    let above_the_line = match read_above(above_prefs, groups, constraints) {
        Ok(map) => Ok(flatten_with(&map, watched, displacement)),
        Err(e) => Err(e),
    };
    let below_the_line = match read_below(below_prefs, candidates, constraints) {
        Ok(map) => Ok(flatten_pref_map(map)),
        Err(e) => Err(e),
    };
    choose_half(constraints.choice, above_the_line, below_the_line)
}

/// Reads a ballot paper under the experiment with the given number, which
/// follows the two major parties.
///
/// `pref_string` holds one field per box, parted by commas: first the boxes
/// above the line, as many as there are groups, then those below it, one per
/// candidate. A record may stop early, and the boxes that it leaves out are
/// blank; it may not hold more boxes than the paper has.
///
/// An experiment that depends on a draw takes it from the thread's random
/// generator, so the result is what the paper counts as for one of the
/// possible draws.
pub fn parse_ballot_str(
    pref_string: &str,
    groups: &[Group],
    candidates: &[CandidateId],
    constraints: &Constraints,
    experiment_num: usize,
) -> (result: IOBallot)
    requires
        fields_of(pref_string.spec_bytes()).len() <= groups@.len() + candidates@.len(),
    ensures
        exists|draw: u32|
            draw < DRAW_SCALE && is_outcome(
                result,
                ballot_of(
                    pref_string.spec_bytes(),
                    tickets_of_groups(groups@),
                    candidates@,
                    constraints.choice,
                    constraints.counts@,
                    labor_ids(),
                    liberal_ids(),
                    #[trigger] displacement_of(experiment_num, draw),
                ),
            ),
        !needs_draw(experiment_num) ==> is_outcome(
            result,
            ballot_of(
                pref_string.spec_bytes(),
                tickets_of_groups(groups@),
                candidates@,
                constraints.choice,
                constraints.counts@,
                labor_ids(),
                liberal_ids(),
                displacement_of(experiment_num, 0),
            ),
        ),
{
    let (fields, above) = split_record(pref_string.as_bytes(), groups.len());
    let above_prefs = slice_subrange(fields.as_slice(), 0, above);
    let below_prefs = slice_subrange(fields.as_slice(), above, fields.len());
    proof {
        assert(above_prefs@ =~= fields@.take(above as int));
        assert(below_prefs@ =~= fields@.skip(above as int));
        assert(tickets_of_groups(groups@).len() == groups@.len());
    }
    let ghost mut draw: u32 = 0;
    let above_the_line = match read_above(above_prefs, groups, constraints) {
        Ok(map) => {
            let flat = flatten_group_pref_map(map, experiment_num);
            proof {
                draw = choose|d: u32|
                    d < DRAW_SCALE && flat@ == flat_order(
                        tickets(map@),
                        labor_ids(),
                        liberal_ids(),
                        #[trigger] displacement_of(experiment_num, d),
                    );
            }
            Ok(flat)
        },
        Err(e) => Err(e),
    };
    let below_the_line = match read_below(below_prefs, candidates, constraints) {
        Ok(map) => Ok(flatten_pref_map(map)),
        Err(e) => Err(e),
    };
    let result = choose_half(constraints.choice, above_the_line, below_the_line);
    proof {
        assert(draw < DRAW_SCALE);
        assert(is_outcome(
            result,
            ballot_of(
                pref_string.spec_bytes(),
                tickets_of_groups(groups@),
                candidates@,
                constraints.choice,
                constraints.counts@,
                labor_ids(),
                liberal_ids(),
                displacement_of(experiment_num, draw),
            ),
        ));
    }
    result
}

} // verus!
