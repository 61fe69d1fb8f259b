//! Building the map from preference numbers to what the voter marked.
//!
//! The boxes of one half of the paper are read in printed order. Each number
//! that a box carries is mapped to what the box stands for: a candidate below
//! the line, the ticket of a group above it. Where several boxes carry one
//! number the last of them stays in the map, and the least such number is
//! handed out beside the map: from that number on the vote does not count.
use crate::candidate::CandidateId;
use crate::error::{BallotParseErr, InvalidBallotErr};
use crate::group::{tickets_of_groups, Group};
use crate::token::{field_views, mark_of, read_mark, Mark};
use std::collections::BTreeMap;
use vstd::prelude::*;

verus! {

/// Mapping from preferences to candidate IDs (below the line voting).
pub type PrefMap = BTreeMap<u32, CandidateId>;

/// Mapping from preferences to groups of candidates (above the line voting).
pub type GroupPrefMap<'a> = BTreeMap<u32, &'a [CandidateId]>;

/// A map of preferences, and the least preference number that was given more
/// than once, if any was.
pub type BallotRes<T> = (BTreeMap<u32, T>, Option<u32>);

/// The view of a borrowed ticket.
pub open spec fn ticket_view<'a>() -> spec_fn(&'a [CandidateId]) -> Seq<CandidateId> {
    |g: &[CandidateId]| g@
}

/// The map from preference numbers to tickets that a group map stands for.
pub open spec fn tickets<'a>(m: Map<u32, &'a [CandidateId]>) -> Map<u32, Seq<CandidateId>> {
    m.map_values(ticket_view())
}

/// What the boxes with the given fields hold.
pub open spec fn marks_of(fields: Seq<Seq<u8>>) -> Seq<Mark> {
    fields.map_values(|f: Seq<u8>| mark_of(f))
}

/// Whether some box holds what is no preference.
pub open spec fn has_invalid(marks: Seq<Mark>) -> bool {
    exists|i: int| 0 <= i < marks.len() && #[trigger] marks[i] == Mark::Invalid
}

/// Whether some box carries the number `p`.
pub open spec fn is_marked(marks: Seq<Mark>, p: u32) -> bool {
    exists|i: int| 0 <= i < marks.len() && #[trigger] marks[i] == Mark::Pref(p)
}

/// Whether box `i` is the last that carries the number `p`.
pub open spec fn is_last_box(marks: Seq<Mark>, p: u32, i: int) -> bool {
    &&& 0 <= i < marks.len()
    &&& marks[i] == Mark::Pref(p)
    &&& forall|j: int| i < j < marks.len() ==> #[trigger] marks[j] != Mark::Pref(p)
}

/// The last box that carries the number `p`, where one does.
pub open spec fn last_box(marks: Seq<Mark>, p: u32) -> int {
    choose|i: int| is_last_box(marks, p, i)
}

/// Whether more than one box carries the number `p`.
pub open spec fn is_repeated(marks: Seq<Mark>, p: u32) -> bool {
    exists|i: int, j: int|
        0 <= i < j < marks.len() && #[trigger] marks[i] == Mark::Pref(p) && #[trigger] marks[j]
            == Mark::Pref(p)
}

/// Whether `cutoff` is the least number that more than one box carries, or
/// `None` where no number is repeated.
pub open spec fn is_repeat_cutoff(marks: Seq<Mark>, cutoff: Option<u32>) -> bool {
    match cutoff {
        Some(c) => is_repeated(marks, c) && forall|p: u32| is_repeated(marks, p) ==> c <= p,
        None => forall|p: u32| !is_repeated(marks, p),
    }
}

/// The least number that more than one box carries, if there is one.
pub open spec fn repeat_cutoff(marks: Seq<Mark>) -> Option<u32> {
    choose|cutoff: Option<u32>| is_repeat_cutoff(marks, cutoff)
}

/// The map of a half of the paper whose boxes stand for `entities`: each
/// number that a box carries, with what the last such box stands for.
pub open spec fn marked<T>(marks: Seq<Mark>, entities: Seq<T>) -> Map<u32, T> {
    Map::new(|p: u32| is_marked(marks, p), |p: u32| entities[last_box(marks, p)])
}

/// What one more box changes.
pub proof fn lemma_marks_push(seen: Seq<Mark>, mark: Mark)
    ensures
        forall|p: u32|
            #[trigger] is_marked(seen.push(mark), p) <==> (is_marked(seen, p) || mark == Mark::Pref(
                p,
            )),
        forall|p: u32, i: int|
            #[trigger] is_last_box(seen.push(mark), p, i) <==> (if mark == Mark::Pref(p) {
                i == seen.len()
            } else {
                is_last_box(seen, p, i)
            }),
        forall|p: u32|
            #[trigger] is_repeated(seen.push(mark), p) <==> (is_repeated(seen, p) || (mark
                == Mark::Pref(p) && is_marked(seen, p))),
        has_invalid(seen.push(mark)) <==> (has_invalid(seen) || mark == Mark::Invalid),
{
    let more = seen.push(mark);
    let n = seen.len() as int;
    assert forall|p: u32| #[trigger]
        is_marked(more, p) <==> (is_marked(seen, p) || mark == Mark::Pref(p)) by {
        if is_marked(seen, p) {
            let i = choose|i: int| 0 <= i < seen.len() && #[trigger] seen[i] == Mark::Pref(p);
            assert(more[i] == Mark::Pref(p));
        }
        if mark == Mark::Pref(p) {
            assert(more[n] == Mark::Pref(p));
        }
        if is_marked(more, p) {
            let i = choose|i: int| 0 <= i < more.len() && #[trigger] more[i] == Mark::Pref(p);
            if i < n {
                assert(seen[i] == Mark::Pref(p));
            }
        }
    }
    assert forall|p: u32, i: int| #[trigger]
        is_last_box(more, p, i) <==> (if mark == Mark::Pref(p) {
            i == seen.len()
        } else {
            is_last_box(seen, p, i)
        }) by {
        if mark == Mark::Pref(p) {
            if is_last_box(more, p, i) && i < n {
                assert(more[n] != Mark::Pref(p));
            }
        } else {
            if is_last_box(more, p, i) {
                assert(i < n);
                assert forall|j: int| i < j < seen.len() implies #[trigger] seen[j] != Mark::Pref(
                    p,
                ) by {
                    assert(more[j] != Mark::Pref(p));
                }
            }
            if is_last_box(seen, p, i) {
                assert forall|j: int| i < j < more.len() implies #[trigger] more[j] != Mark::Pref(
                    p,
                ) by {
                    if j < n {
                        assert(seen[j] != Mark::Pref(p));
                    }
                }
            }
        }
    }
    assert forall|p: u32| #[trigger]
        is_repeated(more, p) <==> (is_repeated(seen, p) || (mark == Mark::Pref(p) && is_marked(
            seen,
            p,
        ))) by {
        if is_repeated(seen, p) {
            let (i, j) = choose|i: int, j: int|
                0 <= i < j < seen.len() && #[trigger] seen[i] == Mark::Pref(p) && #[trigger] seen[j]
                    == Mark::Pref(p);
            assert(more[i] == Mark::Pref(p) && more[j] == Mark::Pref(p));
        }
        if mark == Mark::Pref(p) && is_marked(seen, p) {
            let i = choose|i: int| 0 <= i < seen.len() && #[trigger] seen[i] == Mark::Pref(p);
            assert(more[i] == Mark::Pref(p) && more[n] == Mark::Pref(p));
        }
        if is_repeated(more, p) {
            let (i, j) = choose|i: int, j: int|
                0 <= i < j < more.len() && #[trigger] more[i] == Mark::Pref(p) && #[trigger] more[j]
                    == Mark::Pref(p);
            assert(seen[i] == Mark::Pref(p));
            if j < n {
                assert(seen[j] == Mark::Pref(p));
            }
        }
    }
    if has_invalid(seen) {
        let i = choose|i: int| 0 <= i < seen.len() && #[trigger] seen[i] == Mark::Invalid;
        assert(more[i] == Mark::Invalid);
    }
    if mark == Mark::Invalid {
        assert(more[n] == Mark::Invalid);
    }
    if has_invalid(more) {
        let i = choose|i: int| 0 <= i < more.len() && #[trigger] more[i] == Mark::Invalid;
        if i < n {
            assert(seen[i] == Mark::Invalid);
        }
    }
}

/// A number that some box carries has a last box that carries it.
pub proof fn lemma_last_box_exists(marks: Seq<Mark>, p: u32)
    requires
        is_marked(marks, p),
    ensures
        is_last_box(marks, p, last_box(marks, p)),
    decreases marks.len(),
{
    let i = choose|i: int| 0 <= i < marks.len() && #[trigger] marks[i] == Mark::Pref(p);
    let n = marks.len() - 1;
    let seen = marks.drop_last();
    assert(marks =~= seen.push(marks[n]));
    lemma_marks_push(seen, marks[n]);
    if marks[n] == Mark::Pref(p) {
        assert(is_last_box(marks, p, n));
    } else {
        assert(is_marked(seen, p));
        lemma_last_box_exists(seen, p);
        assert(is_last_box(marks, p, last_box(seen, p)));
    }
}

/// There is one answer to which number, if any, is the least repeated one.
pub proof fn lemma_repeat_cutoff_is(marks: Seq<Mark>, cutoff: Option<u32>)
    requires
        is_repeat_cutoff(marks, cutoff),
    ensures
        repeat_cutoff(marks) == cutoff,
{
    let chosen = repeat_cutoff(marks);
    assert(is_repeat_cutoff(marks, chosen));
    match (chosen, cutoff) {
        (Some(a), Some(b)) => {
            assert(a <= b && b <= a);
        },
        (Some(a), None) => {
            assert(!is_repeated(marks, a));
        },
        (None, Some(b)) => {
            assert(!is_repeated(marks, b));
        },
        (None, None) => {},
    }
}

/// Every run of boxes has a least repeated number, or none that is repeated.
pub proof fn lemma_repeat_cutoff_exists(marks: Seq<Mark>)
    ensures
        is_repeat_cutoff(marks, repeat_cutoff(marks)),
    decreases marks.len(),
{
    if marks.len() == 0 {
        assert(is_repeat_cutoff(marks, None));
    } else {
        let seen = marks.drop_last();
        let mark = marks.last();
        assert(marks =~= seen.push(mark));
        lemma_repeat_cutoff_exists(seen);
        lemma_marks_push(seen, mark);
        let before = repeat_cutoff(seen);
        let after = match mark {
            Mark::Pref(p) => if is_marked(seen, p) {
                match before {
                    Some(c) => if c <= p {
                        Some(c)
                    } else {
                        Some(p)
                    },
                    None => Some(p),
                }
            } else {
                before
            },
            _ => before,
        };
        assert(is_repeat_cutoff(marks, after));
    }
}

/// Reads the boxes with the given fields, in printed order, into a map from
/// the numbers that they carry to what `func` gives for the box's position;
/// a later box with a number replaces an earlier one. Beside the map stands the
/// least number that more than one box carries. A box that holds something
/// else than a preference makes the whole half informal.
pub fn create_map<T, F: Fn(usize) -> T>(prefs: &[&[u8]], func: F) -> (res: Result<
    BallotRes<T>,
    BallotParseErr,
>)
    requires
        forall|i: usize| i < prefs@.len() ==> call_requires(func, (i,)),
    ensures
        match res {
            Ok((map, cutoff)) => {
                &&& !has_invalid(marks_of(field_views(prefs@)))
                &&& forall|p: u32|
                    map@.contains_key(p) <==> is_marked(marks_of(field_views(prefs@)), p)
                &&& forall|p: u32, i: int| #[trigger]
                    is_last_box(marks_of(field_views(prefs@)), p, i) ==> call_ensures(
                        func,
                        (i as usize,),
                        map@[p],
                    )
                &&& is_repeat_cutoff(marks_of(field_views(prefs@)), cutoff)
            },
            Err(e) => {
                &&& has_invalid(marks_of(field_views(prefs@)))
                &&& e == BallotParseErr::InvalidBallot(InvalidBallotErr::InvalidCharacter)
            },
        },
{
    let ghost marks = marks_of(field_views(prefs@));
    let mut map: BTreeMap<u32, T> = BTreeMap::new();
    let mut pref_cutoff: Option<u32> = None;
    let mut index: usize = 0;
    while index < prefs.len()
        invariant
            index <= prefs@.len(),
            marks == marks_of(field_views(prefs@)),
            forall|i: usize| i < prefs@.len() ==> call_requires(func, (i,)),
            !has_invalid(marks.take(index as int)),
            forall|p: u32| map@.contains_key(p) <==> is_marked(marks.take(index as int), p),
            forall|p: u32, i: int| #[trigger]
                is_last_box(marks.take(index as int), p, i) ==> call_ensures(
                    func,
                    (i as usize,),
                    map@[p],
                ),
            is_repeat_cutoff(marks.take(index as int), pref_cutoff),
        decreases prefs@.len() - index,
    {
        let mark = read_mark(prefs[index]);
        let ghost seen = marks.take(index as int);
        proof {
            assert(marks[index as int] == mark);
            assert(marks.take(index + 1) =~= seen.push(mark));
            lemma_marks_push(seen, mark);
        }
        match mark {
            Mark::Blank => {},
            Mark::Invalid => {
                proof {
                    assert(marks[index as int] == Mark::Invalid);
                }
                return Err(BallotParseErr::InvalidBallot(InvalidBallotErr::InvalidCharacter));
            },
            Mark::Pref(pref) => {
                let value = func(index);
                let prev_value = map.insert(pref, value);
                // If a preference is repeated, we ignore that preference and any
                // higher numbered preferences.
                if prev_value.is_some() {
                    pref_cutoff = Some(
                        match pref_cutoff {
                            Some(cutoff) => if cutoff <= pref {
                                cutoff
                            } else {
                                pref
                            },
                            None => pref,
                        },
                    );
                }
            },
        }
        index += 1;
    }
    proof {
        assert(marks.take(index as int) =~= marks);
    }
    Ok((map, pref_cutoff))
}

/// The map of the boxes below the line, which stand for the candidates in
/// printed order.
pub fn create_pref_map(prefs: &[&[u8]], candidates: &[CandidateId]) -> (res: Result<
    BallotRes<CandidateId>,
    BallotParseErr,
>)
    requires
        prefs@.len() <= candidates@.len(),
    ensures
        match res {
            Ok((map, cutoff)) => {
                &&& !has_invalid(marks_of(field_views(prefs@)))
                &&& map@ == marked(marks_of(field_views(prefs@)), candidates@)
                &&& cutoff == repeat_cutoff(marks_of(field_views(prefs@)))
            },
            Err(e) => {
                &&& has_invalid(marks_of(field_views(prefs@)))
                &&& e == BallotParseErr::InvalidBallot(InvalidBallotErr::InvalidCharacter)
            },
        },
{
    let candidate_at = |idx: usize| -> (id: CandidateId)
        requires
            idx < candidates@.len(),
        ensures
            id == candidates@[idx as int],
        { candidates[idx] };
    let boxes = prefs.len();
    let res = create_map(prefs, candidate_at);
    proof {
        let marks = marks_of(field_views(prefs@));
        assert(marks.len() == boxes);
        if res is Ok {
            let map = res->Ok_0.0;
            let cutoff = res->Ok_0.1;
            lemma_repeat_cutoff_is(marks, cutoff);
            assert forall|p: u32| map@.contains_key(p) implies map@[p] == marked(
                marks,
                candidates@,
            )[p] by {
                lemma_last_box_exists(marks, p);
                let i = last_box(marks, p);
                assert(is_last_box(marks, p, i));
                assert(call_ensures(candidate_at, (i as usize,), map@[p]));
            }
            assert(map@ =~= marked(marks, candidates@));
        }
    }
    res
}

/// The map of the boxes above the line, which stand for the tickets of the
/// groups in printed order.
pub fn create_group_pref_map<'g>(prefs: &[&[u8]], groups: &'g [Group]) -> (res: Result<
    BallotRes<&'g [CandidateId]>,
    BallotParseErr,
>)
    requires
        prefs@.len() <= groups@.len(),
    ensures
        match res {
            Ok((map, cutoff)) => {
                &&& !has_invalid(marks_of(field_views(prefs@)))
                &&& tickets(map@) == marked(
                    marks_of(field_views(prefs@)),
                    tickets_of_groups(groups@),
                )
                &&& cutoff == repeat_cutoff(marks_of(field_views(prefs@)))
            },
            Err(e) => {
                &&& has_invalid(marks_of(field_views(prefs@)))
                &&& e == BallotParseErr::InvalidBallot(InvalidBallotErr::InvalidCharacter)
            },
        },
{
    let group_candidates = |idx: usize| -> (ticket: &'g [CandidateId])
        requires
            idx < groups@.len(),
        ensures
            ticket@ == groups@[idx as int].ticket(),
        { groups[idx].candidate_ids.as_slice() };
    let boxes = prefs.len();
    let res = create_map(prefs, group_candidates);
    proof {
        let marks = marks_of(field_views(prefs@));
        assert(marks.len() == boxes);
        if res is Ok {
            let map = res->Ok_0.0;
            let cutoff = res->Ok_0.1;
            lemma_repeat_cutoff_is(marks, cutoff);
            let expected = marked(marks, tickets_of_groups(groups@));
            assert forall|p: u32| tickets(map@).contains_key(p) implies tickets(map@)[p]
                == expected[p] by {
                assert(map@.contains_key(p));
                lemma_last_box_exists(marks, p);
                let i = last_box(marks, p);
                assert(is_last_box(marks, p, i));
                assert(call_ensures(group_candidates, (i as usize,), map@[p]));
            }
            assert(tickets(map@) =~= expected);
        }
    }
    res
}

} // verus!
