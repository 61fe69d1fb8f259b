use ballot_parse::experiment::displacement;
use ballot_parse::{
    fits_paper, parse_ballot_str, parse_ballot_with, Ballot, BallotParseErr, ChoiceConstraint,
    Constraints, CountConstraint, Group, InvalidBallotErr, WatchedSets,
};

const A: u32 = 11;
const B: u32 = 12;
const C: u32 = 13;
const D: u32 = 14;

fn groups_of(tickets: &[&[u32]]) -> Vec<Group> {
    tickets.iter().map(|t| Group::new(t.to_vec())).collect()
}

fn two_groups() -> Vec<Group> {
    groups_of(&[&[A, B], &[C]])
}

fn six_candidates() -> Vec<u32> {
    vec![21, 22, 23, 24, 25, 26]
}

fn rules(choice: ChoiceConstraint) -> Constraints {
    Constraints {
        choice,
        counts: vec![CountConstraint::MinAbove(1), CountConstraint::MinBelow(6)],
    }
}

fn informal(reason: InvalidBallotErr) -> Result<Ballot, BallotParseErr> {
    Err(BallotParseErr::InvalidBallot(reason))
}

fn formal(prefs: &[u32]) -> Result<Ballot, BallotParseErr> {
    Ok(Ballot::single(prefs.to_vec()))
}

#[test]
fn marked_groups_are_flattened_in_order() {
    // Three boxes above the line, of which the first and the third are
    // marked, and three blank boxes below it.
    let groups = groups_of(&[&[A, B], &[D], &[C]]);
    let candidates = vec![21, 22, 23];
    let ballot = parse_ballot_str("1,,2,,,", &groups, &candidates, &Constraints::official(), 0);
    assert_eq!(ballot, formal(&[A, B, C]));
}

#[test]
fn token_after_the_group_boxes_stands_below_the_line() {
    // With two boxes above the line the 2 is the first box below it, where
    // it is a vote without a first preference.
    let candidates = vec![21, 22, 23, 24];
    let ballot = parse_ballot_str(
        "1,,2,,,",
        &two_groups(),
        &candidates,
        &Constraints::official(),
        0,
    );
    assert_eq!(ballot, formal(&[A, B]));
}

#[test]
fn both_formal_prefers_below() {
    // One mark above the line and six below it.
    let ballot = parse_ballot_str(
        "1,,1,2,3,4,5,6",
        &two_groups(),
        &six_candidates(),
        &Constraints::official(),
        0,
    );
    assert_eq!(ballot, formal(&[21, 22, 23, 24, 25, 26]));
}

#[test]
fn both_formal_prefers_below_in_preference_order() {
    let ballot = parse_ballot_str(
        ",1,6,5,4,3,2,1",
        &two_groups(),
        &six_candidates(),
        &Constraints::official(),
        0,
    );
    assert_eq!(ballot, formal(&[26, 25, 24, 23, 22, 21]));
}

#[test]
fn both_formal_is_informal_under_strict() {
    let ballot = parse_ballot_str(
        "1,,1,2,3,4,5,6",
        &two_groups(),
        &six_candidates(),
        &rules(ChoiceConstraint::Strict),
        0,
    );
    assert_eq!(ballot, informal(InvalidBallotErr::InvalidStrict));
}

#[test]
fn both_formal_prefers_above() {
    let ballot = parse_ballot_str(
        "2,1,1,2,3,4,5,6",
        &two_groups(),
        &six_candidates(),
        &rules(ChoiceConstraint::PreferAbove),
        0,
    );
    assert_eq!(ballot, formal(&[C, A, B]));
}

#[test]
fn only_above_formal_counts_above_whatever_the_choice() {
    for choice in [
        ChoiceConstraint::Strict,
        ChoiceConstraint::PreferAbove,
        ChoiceConstraint::PreferBelow,
    ] {
        let ballot = parse_ballot_str(
            "1,2,1,2,3,4,5,",
            &two_groups(),
            &six_candidates(),
            &rules(choice),
            0,
        );
        assert_eq!(ballot, formal(&[A, B, C]));
    }
}

#[test]
fn only_below_formal_counts_below_whatever_the_choice() {
    for choice in [
        ChoiceConstraint::Strict,
        ChoiceConstraint::PreferAbove,
        ChoiceConstraint::PreferBelow,
    ] {
        let ballot = parse_ballot_str(
            ",,1,2,3,4,5,6",
            &two_groups(),
            &six_candidates(),
            &rules(choice),
            0,
        );
        assert_eq!(ballot, formal(&[21, 22, 23, 24, 25, 26]));
    }
}

#[test]
fn neither_formal_gives_the_reason_above() {
    // Above the line nothing is marked; below it there are five marks only.
    let ballot = parse_ballot_str(
        ",,1,2,3,4,5,",
        &two_groups(),
        &six_candidates(),
        &Constraints::official(),
        0,
    );
    assert_eq!(ballot, informal(InvalidBallotErr::EmptyBallot));
    // Above the line a box holds a letter.
    let ballot = parse_ballot_str(
        "x,,1,2,3,4,5,",
        &two_groups(),
        &six_candidates(),
        &Constraints::official(),
        0,
    );
    assert_eq!(ballot, informal(InvalidBallotErr::InvalidCharacter));
}

#[test]
fn invalid_character_below_leaves_the_vote_above() {
    let ballot = parse_ballot_str(
        "1,,1,2,3,4,5,six",
        &two_groups(),
        &six_candidates(),
        &Constraints::official(),
        0,
    );
    assert_eq!(ballot, formal(&[A, B]));
}

#[test]
fn invalid_character_above_leaves_the_boxes_below_in_place() {
    // The boxes below the line begin after the two group boxes, also where
    // the first of these holds a letter.
    let ballot = parse_ballot_str(
        "x,1,1,2,3,4,5,6",
        &two_groups(),
        &six_candidates(),
        &Constraints::official(),
        0,
    );
    assert_eq!(ballot, formal(&[21, 22, 23, 24, 25, 26]));
}

#[test]
fn min_above_gives_its_count() {
    let strict = Constraints {
        choice: ChoiceConstraint::Strict,
        counts: vec![CountConstraint::MinAbove(2), CountConstraint::MinBelow(6)],
    };
    let ballot = parse_ballot_str("1,,,,,,,", &two_groups(), &six_candidates(), &strict, 0);
    assert_eq!(ballot, informal(InvalidBallotErr::InvalidMinAbove(1)));
}

#[test]
fn max_above_gives_its_count() {
    let strict = Constraints {
        choice: ChoiceConstraint::Strict,
        counts: vec![CountConstraint::MaxAbove(1)],
    };
    let ballot = parse_ballot_str("1,2", &two_groups(), &six_candidates(), &strict, 0);
    assert_eq!(ballot, informal(InvalidBallotErr::InvalidMaxAbove(2)));
}

#[test]
fn min_below_is_the_reason_where_it_is_the_only_one() {
    // Without boxes above the line the reason above is that of an empty
    // vote; the reason below shows with a rule for the half above that
    // nothing can fail and a vote above that is formal.
    let no_groups: Vec<Group> = Vec::new();
    let below_only = Constraints {
        choice: ChoiceConstraint::PreferBelow,
        counts: vec![CountConstraint::MinBelow(6), CountConstraint::MaxBelow(3)],
    };
    let ballot = parse_ballot_str("1,2,3", &no_groups, &six_candidates(), &below_only, 0);
    assert_eq!(ballot, informal(InvalidBallotErr::EmptyBallot));
    let ballot = parse_ballot_str(
        "1,2,1,2,3,4",
        &two_groups(),
        &six_candidates(),
        &below_only,
        0,
    );
    assert_eq!(ballot, formal(&[A, B, C]));
}

#[test]
fn max_below_cuts_below_and_leaves_above() {
    let rules = Constraints {
        choice: ChoiceConstraint::PreferBelow,
        counts: vec![CountConstraint::MaxBelow(3)],
    };
    let ballot = parse_ballot_str("2,1,1,2,3,4", &two_groups(), &six_candidates(), &rules, 0);
    assert_eq!(ballot, formal(&[C, A, B]));
    let ballot = parse_ballot_str("2,1,1,2,3", &two_groups(), &six_candidates(), &rules, 0);
    assert_eq!(ballot, formal(&[21, 22, 23]));
}

#[test]
fn repeated_number_cuts_the_vote_below() {
    // 4 is given twice: the vote below the line counts up to 3, which is
    // fewer than six boxes, so the vote above counts.
    let ballot = parse_ballot_str(
        "1,,1,2,3,4,4,5",
        &two_groups(),
        &six_candidates(),
        &Constraints::official(),
        0,
    );
    assert_eq!(ballot, formal(&[A, B]));
    let ballot = parse_ballot_str(
        ",,1,2,3,4,4,5",
        &two_groups(),
        &six_candidates(),
        &Constraints::official(),
        0,
    );
    assert_eq!(ballot, informal(InvalidBallotErr::EmptyBallot));
}

#[test]
fn skipped_number_cuts_the_vote_below() {
    let lenient = Constraints {
        choice: ChoiceConstraint::PreferBelow,
        counts: vec![CountConstraint::MinBelow(2)],
    };
    let ballot = parse_ballot_str(
        ",,3,1,2,5,6,7",
        &two_groups(),
        &six_candidates(),
        &lenient,
        0,
    );
    assert_eq!(ballot, formal(&[22, 23, 21]));
}

#[test]
fn tick_and_cross_are_first_preferences() {
    let ballot = parse_ballot_str(
        "*,",
        &two_groups(),
        &six_candidates(),
        &Constraints::official(),
        0,
    );
    assert_eq!(ballot, formal(&[A, B]));
    let ballot = parse_ballot_str(
        ",/",
        &two_groups(),
        &six_candidates(),
        &Constraints::official(),
        0,
    );
    assert_eq!(ballot, formal(&[C]));
}

#[test]
fn short_record_leaves_the_other_boxes_blank() {
    let ballot = parse_ballot_str(
        "1",
        &two_groups(),
        &six_candidates(),
        &Constraints::official(),
        0,
    );
    assert_eq!(ballot, formal(&[A, B]));
    let ballot = parse_ballot_str(
        "",
        &two_groups(),
        &six_candidates(),
        &Constraints::official(),
        0,
    );
    assert_eq!(ballot, informal(InvalidBallotErr::EmptyBallot));
}

#[test]
fn experiment_displaces_the_vote_above() {
    let groups = groups_of(&[&[1004, 1005], &[A], &[B], &[998, 999]]);
    let candidates: Vec<u32> = Vec::new();
    let rules = Constraints::official();
    let ballot = parse_ballot_str("1,2,3,4", &groups, &candidates, &rules, 0);
    assert_eq!(ballot, formal(&[1004, 1005, A, B, 998, 999]));
    let ballot = parse_ballot_str("1,2,3,4", &groups, &candidates, &rules, 2);
    assert_eq!(ballot, formal(&[A, 1004, 1005, B, 998, 999]));
    // The voter's order is the last group, then B, then A, then the first
    // group: the last group passes B, and the first is last already.
    let ballot = parse_ballot_str("4,3,2,1", &groups, &candidates, &rules, 2);
    assert_eq!(ballot, formal(&[B, 998, 999, A, 1004, 1005]));
}

#[test]
fn experiment_does_not_touch_the_vote_below() {
    let groups = groups_of(&[&[1004, 1005], &[998, 999]]);
    let candidates = vec![1004, 1005, 998, 999, 7, 8];
    let ballot = parse_ballot_str(
        "1,2,1,2,3,4,5,6",
        &groups,
        &candidates,
        &Constraints::official(),
        6,
    );
    assert_eq!(ballot, formal(&[1004, 1005, 998, 999, 7, 8]));
}

#[test]
fn given_draw_decides_a_probabilistic_experiment() {
    let groups = groups_of(&[&[1004, 1005], &[A], &[B], &[998, 999]]);
    let candidates: Vec<u32> = Vec::new();
    let rules = Constraints::official();
    let watched = WatchedSets::major_parties();
    let below_threshold = displacement(7, 899_999);
    let ballot = parse_ballot_with(
        "1,2,3,4",
        &groups,
        &candidates,
        &rules,
        &watched,
        below_threshold,
    );
    assert_eq!(ballot, formal(&[1004, 1005, A, B, 998, 999]));
    let at_threshold = displacement(7, 900_000);
    let ballot = parse_ballot_with("1,2,3,4", &groups, &candidates, &rules, &watched, at_threshold);
    assert_eq!(ballot, formal(&[A, 1004, 1005, B, 998, 999]));
}

#[test]
fn given_draws_displace_at_the_rate_of_the_experiment() {
    let groups = groups_of(&[&[1004, 1005], &[A]]);
    let candidates: Vec<u32> = Vec::new();
    let rules = Constraints::official();
    let watched = WatchedSets::major_parties();
    // A fixed run of draws in place of the random generator: every 997th
    // draw of the scale, which spreads them evenly.
    let mut displaced = 0;
    let mut trials = 0;
    let mut draw = 0;
    while draw < 1_000_000 {
        let ballot = parse_ballot_with(
            "1,2",
            &groups,
            &candidates,
            &rules,
            &watched,
            displacement(12, draw),
        );
        if ballot == formal(&[A, 1004, 1005]) {
            displaced += 1;
        } else {
            assert_eq!(ballot, formal(&[1004, 1005, A]));
        }
        trials += 1;
        draw += 997;
    }
    let rate = displaced as f64 / trials as f64;
    assert!((rate - 0.75).abs() < 0.001, "rate {}", rate);
}

#[test]
fn parse_with_random_draw_gives_one_of_two_orders() {
    let groups = groups_of(&[&[1004, 1005], &[A]]);
    let candidates: Vec<u32> = Vec::new();
    let rules = Constraints::official();
    let mut displaced = 0;
    let trials = 20_000;
    for _ in 0..trials {
        let ballot = parse_ballot_str("1,2", &groups, &candidates, &rules, 10);
        if ballot == formal(&[A, 1004, 1005]) {
            displaced += 1;
        } else {
            assert_eq!(ballot, formal(&[1004, 1005, A]));
        }
    }
    let rate = displaced as f64 / trials as f64;
    assert!((rate - 0.5).abs() < 0.03, "rate {}", rate);
}

#[test]
fn paper_marked_zero_counts_as_marked() {
    // 0 is a number, and it stands below every cut-off but one at 0.
    let ballot = parse_ballot_str(
        "0,",
        &two_groups(),
        &six_candidates(),
        &Constraints::official(),
        0,
    );
    assert_eq!(ballot, formal(&[A, B]));
    let ballot = parse_ballot_str(
        "0,0",
        &two_groups(),
        &six_candidates(),
        &Constraints::official(),
        0,
    );
    assert_eq!(ballot, informal(InvalidBallotErr::EmptyBallot));
}

#[test]
fn ballot_wraps_one_sequence() {
    let ballot = Ballot::single(vec![3, 1, 2]);
    assert_eq!(ballot.prefs, vec![3, 1, 2]);
}

#[test]
fn fits_paper_counts_the_boxes() {
    assert!(fits_paper("1,,2,,,", 2, 4));
    assert!(fits_paper("1,,2,,,", 6, 0));
    assert!(fits_paper("1,,2,,,", 0, 6));
    assert!(!fits_paper("1,,2,,,", 2, 3));
    assert!(!fits_paper("1,,2,,,", 0, 0));
    assert!(fits_paper("", 1, 0));
    assert!(!fits_paper("", 0, 0));
    assert!(fits_paper("7", usize::MAX, usize::MAX));
}

/// One half of the paper read the long way, with the means of the standard
/// library: the map of the marks, then the cut at the lesser of the least
/// repeated number and the first key that is not where the run 1, 2, 3, …
/// has it.
fn half_the_long_way(
    tokens: &[&str],
    entities: &[Vec<u32>],
) -> Result<std::collections::BTreeMap<u32, Vec<u32>>, InvalidBallotErr> {
    let mut map = std::collections::BTreeMap::new();
    let mut repeat: Option<u32> = None;
    for (index, token) in tokens.iter().enumerate() {
        let pref = match *token {
            "" => continue,
            "*" | "/" => 1,
            _ => match token.parse::<u32>() {
                Ok(pref) => pref,
                Err(_) => return Err(InvalidBallotErr::InvalidCharacter),
            },
        };
        if map.insert(pref, entities[index].clone()).is_some() {
            repeat = Some(match repeat {
                Some(least) => least.min(pref),
                None => pref,
            });
        }
    }
    let missing = map
        .keys()
        .zip(1..)
        .find(|&(&pref, ordinal)| pref != ordinal)
        .map(|(_, ordinal)| ordinal);
    let cut = match (repeat, missing) {
        (Some(a), Some(b)) => Some(a.min(b)),
        (Some(a), None) => Some(a),
        (None, b) => b,
    };
    if let Some(cut) = cut {
        map.split_off(&cut);
    }
    if map.is_empty() {
        Err(InvalidBallotErr::EmptyBallot)
    } else {
        Ok(map)
    }
}

fn held_to(
    counts: &[CountConstraint],
    above: bool,
    len: usize,
) -> Result<(), InvalidBallotErr> {
    for count in counts {
        match (*count, above) {
            (CountConstraint::MinAbove(min), true) if len < min => {
                return Err(InvalidBallotErr::InvalidMinAbove(len))
            }
            (CountConstraint::MaxAbove(max), true) if len > max => {
                return Err(InvalidBallotErr::InvalidMaxAbove(len))
            }
            (CountConstraint::MinBelow(min), false) if len < min => {
                return Err(InvalidBallotErr::InvalidMinBelow(len))
            }
            (CountConstraint::MaxBelow(max), false) if len > max => {
                return Err(InvalidBallotErr::InvalidMaxBelow(len))
            }
            _ => {}
        }
    }
    Ok(())
}

fn paper_the_long_way(
    record: &str,
    groups: &[Group],
    candidates: &[u32],
    rules: &Constraints,
) -> Result<Ballot, BallotParseErr> {
    let tokens: Vec<&str> = record.split(',').collect();
    let above_boxes = groups.len().min(tokens.len());
    let tickets: Vec<Vec<u32>> = groups.iter().map(|g| g.candidate_ids.clone()).collect();
    let singles: Vec<Vec<u32>> = candidates.iter().map(|c| vec![*c]).collect();
    let above = half_the_long_way(&tokens[..above_boxes], &tickets)
        .and_then(|map| held_to(&rules.counts, true, map.len()).map(|_| map))
        .map(|map| map.into_values().flatten().collect::<Vec<u32>>());
    let below = half_the_long_way(&tokens[above_boxes..], &singles)
        .and_then(|map| held_to(&rules.counts, false, map.len()).map(|_| map))
        .map(|map| map.into_values().flatten().collect::<Vec<u32>>());
    match (rules.choice, above, below) {
        (_, Ok(prefs), Err(_)) | (_, Err(_), Ok(prefs)) => Ok(Ballot::single(prefs)),
        (ChoiceConstraint::PreferAbove, Ok(prefs), Ok(_)) => Ok(Ballot::single(prefs)),
        (ChoiceConstraint::PreferBelow, Ok(_), Ok(prefs)) => Ok(Ballot::single(prefs)),
        (ChoiceConstraint::Strict, Ok(_), Ok(_)) => informal(InvalidBallotErr::InvalidStrict),
        (_, Err(reason), Err(_)) => informal(reason),
    }
}

/// A run of numbers that looks random and is the same on every run.
fn next_number(state: &mut u64) -> u64 {
    *state = state
        .wrapping_mul(6364136223846793005)
        .wrapping_add(1442695040888963407);
    *state >> 33
}

#[test]
fn reading_agrees_with_the_long_way() {
    let pool = [
        "", "", "", "1", "2", "3", "4", "5", "6", "7", "1", "2", "3", "*", "/", "0", "+2", "007",
        "10", "x", "4294967295", "4294967296", " 1", "1.5", "-1",
    ];
    let choices = [
        ChoiceConstraint::Strict,
        ChoiceConstraint::PreferAbove,
        ChoiceConstraint::PreferBelow,
    ];
    let mut state: u64 = 1918;
    let mut formal_papers = 0;
    let mut informal_papers = 0;
    for _ in 0..20_000 {
        let group_count = (next_number(&mut state) % 4) as usize;
        let candidate_count = (next_number(&mut state) % 8) as usize;
        let groups: Vec<Group> = (0..group_count)
            .map(|g| Group::new(vec![100 + 2 * g as u32, 101 + 2 * g as u32]))
            .collect();
        let candidates: Vec<u32> = (0..candidate_count).map(|c| 200 + c as u32).collect();
        let boxes = group_count + candidate_count;
        if boxes == 0 {
            continue;
        }
        let fields = 1 + (next_number(&mut state) as usize) % boxes;
        // Most boxes are blank or hold a small number, so that papers of
        // every kind come up.
        let record: Vec<&str> = (0..fields)
            .map(|_| {
                let wide = next_number(&mut state) % 10 == 0;
                let span = if wide { pool.len() } else { 13 };
                pool[(next_number(&mut state) as usize) % span]
            })
            .collect();
        let record = record.join(",");
        let rules = Constraints {
            choice: choices[(next_number(&mut state) % 3) as usize],
            counts: vec![
                CountConstraint::MinAbove((next_number(&mut state) % 3) as usize),
                CountConstraint::MaxAbove(1 + (next_number(&mut state) % 4) as usize),
                CountConstraint::MinBelow((next_number(&mut state) % 4) as usize),
                CountConstraint::MaxBelow(2 + (next_number(&mut state) % 6) as usize),
            ],
        };
        assert!(fits_paper(&record, groups.len(), candidates.len()));
        let expected = paper_the_long_way(&record, &groups, &candidates, &rules);
        let ballot = parse_ballot_str(&record, &groups, &candidates, &rules, 0);
        assert_eq!(ballot, expected, "record {:?}", record);
        if ballot.is_ok() {
            formal_papers += 1;
        } else {
            informal_papers += 1;
        }
    }
    assert!(formal_papers > 1_000 && informal_papers > 1_000);
}
