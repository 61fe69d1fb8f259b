use ballot_parse::pref_map::{GroupPrefMap, PrefMap};
use ballot_parse::{flatten_group_pref_map, flatten_pref_map, flatten_with, WatchedSets};

const LIB: [u32; 2] = [1004, 1005];
const LAB: [u32; 2] = [998, 999];
const G2: [u32; 2] = [1010, 1011];
const G3: [u32; 2] = [994, 995];
const G4: [u32; 2] = [1006, 1007];
const G5: [u32; 2] = [1002, 1003];

fn paper<'a>(groups: &[(u32, &'a [u32])]) -> GroupPrefMap<'a> {
    groups.iter().cloned().collect()
}

fn six_groups() -> GroupPrefMap<'static> {
    paper(&[(1, &LIB), (2, &G2), (3, &G3), (4, &G4), (5, &G5), (6, &LAB)])
}

fn concat(tickets: &[&[u32]]) -> Vec<u32> {
    tickets.iter().flat_map(|t| t.iter().cloned()).collect()
}

fn sorted(mut ids: Vec<u32>) -> Vec<u32> {
    ids.sort();
    ids
}

#[test]
fn flatten_pref_map_is_in_preference_order() {
    let votes: PrefMap = [(3, 30), (1, 10), (2, 20)].into_iter().collect();
    assert_eq!(flatten_pref_map(votes), vec![10, 20, 30]);
}

#[test]
fn flatten_pref_map_of_empty_map() {
    assert_eq!(flatten_pref_map(PrefMap::new()), Vec::<u32>::new());
}

#[test]
fn flatten_pref_map_does_not_need_a_run() {
    let votes: PrefMap = [(7, 70), (0, 5), (4294967295, 90)]
        .into_iter()
        .collect();
    assert_eq!(flatten_pref_map(votes), vec![5, 70, 90]);
}

#[test]
fn flatten_groups_without_experiment() {
    let a_b = [11, 12];
    let c = [13];
    let votes = paper(&[(1, &a_b), (2, &c)]);
    assert_eq!(flatten_group_pref_map(votes.clone(), 0), vec![11, 12, 13]);
    assert_eq!(flatten_group_pref_map(votes, 1), vec![11, 12, 13]);
}

#[test]
fn flatten_groups_baseline_keeps_the_voters_order() {
    for experiment_num in [0, 1, 14, 99] {
        assert_eq!(
            flatten_group_pref_map(six_groups(), experiment_num),
            concat(&[&LIB, &G2, &G3, &G4, &G5, &LAB])
        );
    }
}

#[test]
fn displacement_by_one_place() {
    assert_eq!(
        flatten_group_pref_map(six_groups(), 2),
        concat(&[&G2, &LIB, &G3, &G4, &G5, &LAB])
    );
}

#[test]
fn displacement_by_two_places() {
    assert_eq!(
        flatten_group_pref_map(six_groups(), 3),
        concat(&[&G2, &G3, &LIB, &G4, &G5, &LAB])
    );
}

#[test]
fn displacement_by_three_and_four_places() {
    assert_eq!(
        flatten_group_pref_map(six_groups(), 4),
        concat(&[&G2, &G3, &G4, &LIB, &G5, &LAB])
    );
    assert_eq!(
        flatten_group_pref_map(six_groups(), 5),
        concat(&[&G2, &G3, &G4, &G5, &LIB, &LAB])
    );
}

#[test]
fn displacement_past_the_end_appends() {
    assert_eq!(
        flatten_group_pref_map(six_groups(), 6),
        concat(&[&G2, &G3, &G4, &G5, &LIB, &LAB])
    );
    // Both watched groups pass the end: they keep their order.
    let votes = paper(&[(1, &LAB), (2, &G2), (3, &LIB), (4, &G4)]);
    assert_eq!(
        flatten_group_pref_map(votes, 6),
        concat(&[&G2, &G4, &LAB, &LIB])
    );
}

#[test]
fn watched_group_moves_between_the_others() {
    let votes = paper(&[(1, &G2), (2, &LAB), (3, &G3), (4, &G4), (5, &G5)]);
    assert_eq!(
        flatten_group_pref_map(votes.clone(), 2),
        concat(&[&G2, &G3, &LAB, &G4, &G5])
    );
    assert_eq!(
        flatten_group_pref_map(votes, 3),
        concat(&[&G2, &G3, &G4, &LAB, &G5])
    );
}

#[test]
fn adjacent_watched_groups_move_together() {
    let votes = paper(&[(1, &LIB), (2, &LAB), (3, &G3), (4, &G4)]);
    assert_eq!(
        flatten_group_pref_map(votes, 2),
        concat(&[&G3, &LIB, &LAB, &G4])
    );
    let votes = paper(&[(1, &LAB), (2, &LIB), (3, &G3), (4, &G4)]);
    assert_eq!(
        flatten_group_pref_map(votes, 2),
        concat(&[&G3, &LAB, &LIB, &G4])
    );
    let votes = paper(&[(1, &G2), (2, &LAB), (3, &LIB), (4, &G4), (5, &G5)]);
    assert_eq!(
        flatten_group_pref_map(votes, 3),
        concat(&[&G2, &G4, &G5, &LAB, &LIB])
    );
}

#[test]
fn watched_groups_one_apart_can_change_places() {
    // The earlier group lands behind the later one's old place, the later one
    // behind the group after it.
    let votes = paper(&[(1, &LIB), (2, &G2), (3, &LAB), (4, &G4), (5, &G5)]);
    assert_eq!(
        flatten_group_pref_map(votes.clone(), 2),
        concat(&[&G2, &LIB, &G4, &LAB, &G5])
    );
    assert_eq!(
        flatten_group_pref_map(votes, 3),
        concat(&[&G2, &LIB, &G4, &G5, &LAB])
    );
}

#[test]
fn paper_without_watched_group_is_not_displaced() {
    let votes = paper(&[(1, &G2), (2, &G3), (3, &G4)]);
    for experiment_num in 0..14 {
        assert_eq!(
            flatten_group_pref_map(votes.clone(), experiment_num),
            concat(&[&G2, &G3, &G4])
        );
    }
}

#[test]
fn last_group_of_a_set_is_the_watched_one() {
    let lab_a = [1058];
    let lab_b = [1059];
    let votes = paper(&[(1, &lab_a), (2, &G2), (3, &lab_b), (4, &G4)]);
    assert_eq!(
        flatten_group_pref_map(votes, 2),
        vec![1058, 1010, 1011, 1006, 1007, 1059]
    );
}

#[test]
fn group_is_tagged_by_any_of_its_candidates() {
    let mixed = [7, 8, 1610];
    let votes = paper(&[(1, &mixed), (2, &G2), (3, &G3)]);
    assert_eq!(
        flatten_group_pref_map(votes, 2),
        vec![1010, 1011, 7, 8, 1610, 994, 995]
    );
}

#[test]
fn single_watched_group_alone_stays() {
    let votes = paper(&[(1, &LAB)]);
    for experiment_num in 0..14 {
        assert_eq!(flatten_group_pref_map(votes.clone(), experiment_num), LAB.to_vec());
    }
}

#[test]
fn group_marked_zero_is_not_lost() {
    let votes = paper(&[(0, &LAB)]);
    assert_eq!(flatten_group_pref_map(votes, 2), LAB.to_vec());
    let votes = paper(&[(0, &G2), (1, &G3)]);
    assert_eq!(flatten_group_pref_map(votes, 6), concat(&[&G2, &G3]));
}

#[test]
fn reordering_never_drops_or_repeats_candidates() {
    let papers = vec![
        six_groups(),
        paper(&[(1, &LIB), (2, &LAB), (3, &G3), (4, &G4)]),
        paper(&[(1, &LAB), (2, &LIB)]),
        paper(&[(1, &G2), (2, &LAB), (3, &LIB), (4, &G4), (5, &G5)]),
        paper(&[(0, &LAB), (5, &G2), (4294967295, &LIB)]),
        paper(&[(1, &G2), (2, &G2), (3, &LAB), (4, &LAB)]),
        paper(&[]),
    ];
    for votes in papers {
        let baseline = flatten_group_pref_map(votes.clone(), 0);
        for experiment_num in 0..16 {
            let flat = flatten_group_pref_map(votes.clone(), experiment_num);
            assert_eq!(sorted(flat), sorted(baseline.clone()));
        }
    }
}

#[test]
fn probabilistic_experiments_give_baseline_or_displaced_order() {
    let baseline = concat(&[&LIB, &G2, &G3, &G4, &G5, &LAB]);
    let displaced = concat(&[&G2, &LIB, &G3, &G4, &G5, &LAB]);
    for experiment_num in 7..14 {
        let mut seen_baseline = false;
        let mut seen_displaced = false;
        for _ in 0..2_000 {
            let flat = flatten_group_pref_map(six_groups(), experiment_num);
            if flat == baseline {
                seen_baseline = true;
            } else {
                assert_eq!(flat, displaced);
                seen_displaced = true;
            }
        }
        assert!(seen_baseline && seen_displaced);
    }
}

#[test]
fn flatten_with_follows_the_given_sets() {
    let watched = WatchedSets::new(vec![1010], vec![1003, 1002]);
    assert_eq!(
        flatten_with(&six_groups(), &watched, Some(1)),
        concat(&[&LIB, &G3, &G2, &G4, &LAB, &G5])
    );
    assert_eq!(
        flatten_with(&six_groups(), &watched, None),
        concat(&[&LIB, &G2, &G3, &G4, &G5, &LAB])
    );
}

#[test]
fn flatten_with_empty_sets_displaces_nothing() {
    let watched = WatchedSets::new(vec![], vec![]);
    assert_eq!(
        flatten_with(&six_groups(), &watched, Some(3)),
        concat(&[&LIB, &G2, &G3, &G4, &G5, &LAB])
    );
}

#[test]
fn flatten_with_one_group_in_both_sets() {
    let watched = WatchedSets::new(vec![1010], vec![1011]);
    assert_eq!(
        flatten_with(&six_groups(), &watched, Some(2)),
        concat(&[&LIB, &G3, &G4, &G2, &G5, &LAB])
    );
}

#[test]
fn flatten_with_displacement_of_no_place() {
    let watched = WatchedSets::major_parties();
    assert_eq!(
        flatten_with(&six_groups(), &watched, Some(0)),
        concat(&[&LIB, &G2, &G3, &G4, &G5, &LAB])
    );
}

#[test]
fn flatten_with_huge_displacement_and_keys() {
    let watched = WatchedSets::major_parties();
    let votes = paper(&[(4294967294, &LAB), (4294967295, &G2), (7, &LIB)]);
    assert_eq!(
        flatten_with(&votes, &watched, Some(4294967295)),
        concat(&[&G2, &LIB, &LAB])
    );
}

#[test]
fn major_parties_hold_the_registered_candidates() {
    let watched = WatchedSets::major_parties();
    assert_eq!(watched.set_a.len(), 49);
    assert_eq!(watched.set_b.len(), 42);
    assert!(watched.set_a.contains(&998) && watched.set_a.contains(&1558));
    assert!(watched.set_b.contains(&1004) && watched.set_b.contains(&1610));
    for id in watched.set_a.iter() {
        assert!(!watched.set_b.contains(id));
    }
}

/// The displacement computed the long way: every group gets ten times its
/// number as key, the watched groups are taken out and put back at their
/// number plus the amount, half a place further, and the groups are walked by
/// key. The amount of the earlier of two neighbouring watched groups is
/// raised by nine tenths first.
fn order_by_fractional_keys(votes: &GroupPrefMap, watched: &WatchedSets, amount: u32) -> Vec<u32> {
    let mut found_a: u32 = 0;
    let mut found_b: u32 = 0;
    for (number, ticket) in votes {
        for id in ticket.iter() {
            if watched.set_a.contains(id) {
                found_a = *number;
                break;
            } else if watched.set_b.contains(id) {
                found_b = *number;
                break;
            }
        }
    }
    let mut keyed = std::collections::BTreeMap::new();
    for (number, ticket) in votes {
        if *number == found_a || *number == found_b {
            continue;
        }
        keyed.insert(*number * 10, *ticket);
    }
    let mut amount_a = amount as f32;
    let mut amount_b = amount as f32;
    if found_a > 0 && found_b > 0 {
        if found_a as i64 - found_b as i64 == 1 {
            amount_b += 0.9;
        }
        if found_b as i64 - found_a as i64 == 1 {
            amount_a += 0.9;
        }
    }
    if found_a > 0 {
        let key = found_a * 10 + (amount_a * 10.0) as u32 + 5;
        keyed.insert(key, votes[&found_a]);
    }
    if found_b > 0 {
        let key = found_b * 10 + (amount_b * 10.0) as u32 + 5;
        keyed.insert(key, votes[&found_b]);
    }
    keyed.values().flat_map(|t| t.iter().cloned()).collect()
}

/// A run of numbers that looks random and is the same on every run.
fn next_number(state: &mut u64) -> u64 {
    *state = state
        .wrapping_mul(6364136223846793005)
        .wrapping_add(1442695040888963407);
    *state >> 33
}

#[test]
fn displacement_agrees_with_fractional_keys() {
    let tickets: Vec<Vec<u32>> = vec![
        vec![998, 999],
        vec![1058, 1059, 1060],
        vec![1004, 1005],
        vec![1604],
        vec![2001, 2002],
        vec![2003],
        vec![2004, 2005, 2006],
        vec![2007],
        vec![2008, 2009],
        vec![],
    ];
    let watched = WatchedSets::major_parties();
    let mut state: u64 = 2016;
    for _ in 0..3_000 {
        let groups = 1 + next_number(&mut state) % 9;
        let mut votes = GroupPrefMap::new();
        for number in 1..=groups {
            let pick = (next_number(&mut state) % tickets.len() as u64) as usize;
            votes.insert(number as u32, tickets[pick].as_slice());
        }
        for (experiment_num, amount) in [(2, 1), (3, 2), (4, 3), (5, 4), (6, 500)] {
            let expected = order_by_fractional_keys(&votes, &watched, amount);
            assert_eq!(
                flatten_group_pref_map(votes.clone(), experiment_num),
                expected,
                "paper {:?}, experiment {}",
                votes,
                experiment_num
            );
            assert_eq!(flatten_with(&votes, &watched, Some(amount)), expected);
        }
    }
}
