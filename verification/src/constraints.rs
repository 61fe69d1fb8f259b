//! The rules that say how many boxes a formal vote needs, and which half of
//! the paper counts where both are formal.
use crate::error::{BallotParseErr, InvalidBallotErr};
use crate::pref_map::{GroupPrefMap, PrefMap};
use std::cmp::Ordering;
use vstd::prelude::*;

verus! {

/// Which half of the paper counts when both are formal.
#[derive(Clone, Copy, PartialEq, Eq, Debug, Structural)]
pub enum ChoiceConstraint {
    /// Neither: a paper with two formal halves is informal.
    Strict,
    /// The vote above the line.
    PreferAbove,
    /// The vote below the line.
    PreferBelow,
}

/// A bound on the number of preferences that count in one half of the paper.
#[derive(Clone, Copy, PartialEq, Eq, Debug, Structural)]
pub enum CountConstraint {
    MinAbove(usize),
    MaxAbove(usize),
    MinBelow(usize),
    MaxBelow(usize),
}

/// The rules of a jurisdiction.
#[derive(Clone, Debug)]
pub struct Constraints {
    pub choice: ChoiceConstraint,
    pub counts: Vec<CountConstraint>,
}

/// What a vote of `len` preferences above the line fails a constraint with,
/// if it fails it. Constraints on the other half do not apply.
pub open spec fn above_violation(constraint: CountConstraint, len: usize) -> Option<
    InvalidBallotErr,
> {
    match constraint {
        CountConstraint::MinAbove(min) => if len < min {
            Some(InvalidBallotErr::InvalidMinAbove(len))
        } else {
            None
        },
        CountConstraint::MaxAbove(max) => if len > max {
            Some(InvalidBallotErr::InvalidMaxAbove(len))
        } else {
            None
        },
        _ => None,
    }
}

/// What a vote of `len` preferences below the line fails a constraint with,
/// if it fails it. Constraints on the other half do not apply.
pub open spec fn below_violation(constraint: CountConstraint, len: usize) -> Option<
    InvalidBallotErr,
> {
    match constraint {
        CountConstraint::MinBelow(min) => if len < min {
            Some(InvalidBallotErr::InvalidMinBelow(len))
        } else {
            None
        },
        CountConstraint::MaxBelow(max) => if len > max {
            Some(InvalidBallotErr::InvalidMaxBelow(len))
        } else {
            None
        },
        _ => None,
    }
}

/// The failure of the first constraint in the list that a vote of `len`
/// preferences above the line fails.
pub open spec fn first_above_violation(counts: Seq<CountConstraint>, len: usize) -> Option<
    InvalidBallotErr,
>
    decreases counts.len(),
{
    if counts.len() == 0 {
        None
    } else {
        match above_violation(counts[0], len) {
            Some(e) => Some(e),
            None => first_above_violation(counts.drop_first(), len),
        }
    }
}

/// The failure of the first constraint in the list that a vote of `len`
/// preferences below the line fails.
pub open spec fn first_below_violation(counts: Seq<CountConstraint>, len: usize) -> Option<
    InvalidBallotErr,
>
    decreases counts.len(),
{
    if counts.len() == 0 {
        None
    } else {
        match below_violation(counts[0], len) {
            Some(e) => Some(e),
            None => first_below_violation(counts.drop_first(), len),
        }
    }
}

/// How `a` stands to `b`.
pub open spec fn order_of(a: usize, b: usize) -> Ordering {
    if a < b {
        Ordering::Less
    } else if a == b {
        Ordering::Equal
    } else {
        Ordering::Greater
    }
}

impl Constraints {
    /// The rules of the Senate: one box above the line or six below it make a
    /// formal vote, and the vote below the line counts where both are formal.
    // Preferring below the line votes is codified in Section 269(2) of the Electoral Act.
    pub fn official() -> (rules: Constraints)
        ensures
            rules.choice == ChoiceConstraint::PreferBelow,
            rules.counts@ == seq![CountConstraint::MinAbove(1), CountConstraint::MinBelow(6)],
    {
        let counts = vec![CountConstraint::MinAbove(1), CountConstraint::MinBelow(6)];
        assert(counts@ =~= seq![CountConstraint::MinAbove(1), CountConstraint::MinBelow(6)]);
        Constraints { choice: ChoiceConstraint::PreferBelow, counts }
    }

    /// Fails with what `err` makes of the length where the length stands to
    /// `val` as `invalid` says.
    fn check_cmp<F: Fn(usize) -> InvalidBallotErr>(
        invalid: Ordering,
        vote_length: usize,
        val: usize,
        err: F,
    ) -> (res: Result<(), BallotParseErr>)
        requires
            call_requires(err, (vote_length,)),
        ensures
            match res {
                Ok(_) => order_of(vote_length, val) != invalid,
                Err(e) => {
                    &&& order_of(vote_length, val) == invalid
                    &&& e matches BallotParseErr::InvalidBallot(reason)
                    &&& call_ensures(err, (vote_length,), reason)
                },
            },
    {
        let found = if vote_length < val {
            Ordering::Less
        } else if vote_length == val {
            Ordering::Equal
        } else {
            Ordering::Greater
        };
        let is_invalid = match (found, invalid) {
            (Ordering::Less, Ordering::Less) => true,
            (Ordering::Equal, Ordering::Equal) => true,
            (Ordering::Greater, Ordering::Greater) => true,
            _ => false,
        };
        if is_invalid {
            Err(BallotParseErr::InvalidBallot(err(vote_length)))
        } else {
            Ok(())
        }
    }

    fn check_min<F: Fn(usize) -> InvalidBallotErr>(vote_length: usize, min: usize, err: F) -> (res:
        Result<(), BallotParseErr>)
        requires
            call_requires(err, (vote_length,)),
        ensures
            match res {
                Ok(_) => vote_length >= min,
                Err(e) => {
                    &&& vote_length < min
                    &&& e matches BallotParseErr::InvalidBallot(reason)
                    &&& call_ensures(err, (vote_length,), reason)
                },
            },
    {
        // good if: vote_length >= min, bad if: vote_length < min
        Constraints::check_cmp(Ordering::Less, vote_length, min, err)
    }

    fn check_max<F: Fn(usize) -> InvalidBallotErr>(vote_length: usize, max: usize, err: F) -> (res:
        Result<(), BallotParseErr>)
        requires
            call_requires(err, (vote_length,)),
        ensures
            match res {
                Ok(_) => vote_length <= max,
                Err(e) => {
                    &&& vote_length > max
                    &&& e matches BallotParseErr::InvalidBallot(reason)
                    &&& call_ensures(err, (vote_length,), reason)
                },
            },
    {
        // good if: vote_length <= max, i.e. bad if vote_length > max
        Constraints::check_cmp(Ordering::Greater, vote_length, max, err)
    }

    /// Validate an above the line vote: it is handed back where it meets every
    /// constraint on that half, and else the first constraint that it fails
    /// says why it is informal.
    pub fn check_above<'a>(&self, vote: GroupPrefMap<'a>) -> (res: Result<
        GroupPrefMap<'a>,
        BallotParseErr,
    >)
        ensures
            match res {
                Ok(kept) => kept == vote && first_above_violation(
                    self.counts@,
                    vote@.len() as usize,
                ) is None,
                Err(e) => e matches BallotParseErr::InvalidBallot(reason) && Some(reason)
                    == first_above_violation(self.counts@, vote@.len() as usize),
            },
    {
        let vote_length = vote.len();
        let mut i: usize = 0;
        proof {
            assert(self.counts@.skip(0) =~= self.counts@);
        }
        while i < self.counts.len()
            invariant
                i <= self.counts@.len(),
                vote_length == vote@.len(),
                first_above_violation(self.counts@, vote_length) == first_above_violation(
                    self.counts@.skip(i as int),
                    vote_length,
                ),
            decreases self.counts@.len() - i,
        {
            let count_constraint = self.counts[i];
            proof {
                let rest = self.counts@.skip(i as int);
                assert(rest[0] == count_constraint);
                assert(rest.drop_first() =~= self.counts@.skip(i + 1));
            }
            let too_few = |n: usize| -> (e: InvalidBallotErr)
                ensures
                    e == InvalidBallotErr::InvalidMinAbove(n),
                { InvalidBallotErr::InvalidMinAbove(n) };
            let too_many = |n: usize| -> (e: InvalidBallotErr)
                ensures
                    e == InvalidBallotErr::InvalidMaxAbove(n),
                { InvalidBallotErr::InvalidMaxAbove(n) };
            let checked = match count_constraint {
                CountConstraint::MinAbove(min) => {
                    Constraints::check_min(vote_length, min, too_few)
                },
                CountConstraint::MaxAbove(max) => {
                    Constraints::check_max(vote_length, max, too_many)
                },
                _ => Ok(()),
            };
            match checked {
                Ok(_) => {},
                Err(e) => {
                    return Err(e);
                },
            }
            i += 1;
        }
        proof {
            assert(self.counts@.skip(i as int).len() == 0);
        }
        Ok(vote)
    }

    /// Validate a below the line vote: it is handed back where it meets every
    /// constraint on that half, and else the first constraint that it fails
    /// says why it is informal.
    pub fn check_below(&self, vote: PrefMap) -> (res: Result<PrefMap, BallotParseErr>)
        ensures
            match res {
                Ok(kept) => kept == vote && first_below_violation(
                    self.counts@,
                    vote@.len() as usize,
                ) is None,
                Err(e) => e matches BallotParseErr::InvalidBallot(reason) && Some(reason)
                    == first_below_violation(self.counts@, vote@.len() as usize),
            },
    {
        let vote_length = vote.len();
        let mut i: usize = 0;
        proof {
            assert(self.counts@.skip(0) =~= self.counts@);
        }
        while i < self.counts.len()
            invariant
                i <= self.counts@.len(),
                vote_length == vote@.len(),
                first_below_violation(self.counts@, vote_length) == first_below_violation(
                    self.counts@.skip(i as int),
                    vote_length,
                ),
            decreases self.counts@.len() - i,
        {
            let count_constraint = self.counts[i];
            proof {
                let rest = self.counts@.skip(i as int);
                assert(rest[0] == count_constraint);
                assert(rest.drop_first() =~= self.counts@.skip(i + 1));
            }
            let too_few = |n: usize| -> (e: InvalidBallotErr)
                ensures
                    e == InvalidBallotErr::InvalidMinBelow(n),
                { InvalidBallotErr::InvalidMinBelow(n) };
            let too_many = |n: usize| -> (e: InvalidBallotErr)
                ensures
                    e == InvalidBallotErr::InvalidMaxBelow(n),
                { InvalidBallotErr::InvalidMaxBelow(n) };
            let checked = match count_constraint {
                CountConstraint::MinBelow(min) => {
                    Constraints::check_min(vote_length, min, too_few)
                },
                CountConstraint::MaxBelow(max) => {
                    Constraints::check_max(vote_length, max, too_many)
                },
                _ => Ok(()),
            };
            match checked {
                Ok(_) => {},
                Err(e) => {
                    return Err(e);
                },
            }
            i += 1;
        }
        proof {
            assert(self.counts@.skip(i as int).len() == 0);
        }
        Ok(vote)
    }
}

} // verus!
