use ballot_parse::pref_map::{create_group_pref_map, create_map, create_pref_map};
use ballot_parse::normalize::remove_repeats_and_gaps;
use ballot_parse::{BallotParseErr, Group, InvalidBallotErr};
use std::collections::BTreeMap;

fn boxes(record: &str) -> Vec<&[u8]> {
    record.split(',').map(|f| f.as_bytes()).collect()
}

#[test]
fn create_map_maps_numbers_to_box_positions() {
    let prefs = boxes("2,,1,*");
    let (map, cutoff) = create_map(&prefs, |idx| idx).unwrap();
    let expected: BTreeMap<u32, usize> = [(1, 3), (2, 0)].into_iter().collect();
    assert_eq!(map, expected);
    assert_eq!(cutoff, Some(1));
}

#[test]
fn create_map_skips_blank_boxes() {
    let prefs = boxes(",,,");
    let (map, cutoff) = create_map(&prefs, |idx| idx).unwrap();
    assert!(map.is_empty());
    assert_eq!(cutoff, None);
}

#[test]
fn create_map_later_box_replaces_earlier() {
    let prefs = boxes("1,1,3");
    let (map, cutoff) = create_map(&prefs, |idx| idx).unwrap();
    let expected: BTreeMap<u32, usize> = [(1, 1), (3, 2)].into_iter().collect();
    assert_eq!(map, expected);
    assert_eq!(cutoff, Some(1));
}

#[test]
fn create_map_cutoff_is_least_repeated_number() {
    let prefs = boxes("5,2,5,1,2,3");
    let (_, cutoff) = create_map(&prefs, |idx| idx).unwrap();
    assert_eq!(cutoff, Some(2));
    let prefs = boxes("2,5,2,5");
    let (_, cutoff) = create_map(&prefs, |idx| idx).unwrap();
    assert_eq!(cutoff, Some(2));
    let prefs = boxes("3,3,3");
    let (map, cutoff) = create_map(&prefs, |idx| idx).unwrap();
    assert_eq!(cutoff, Some(3));
    assert_eq!(map.get(&3), Some(&2));
}

#[test]
fn create_map_without_repeat_has_no_cutoff() {
    let prefs = boxes("3,1,2");
    let (map, cutoff) = create_map(&prefs, |idx| idx * 10).unwrap();
    let expected: BTreeMap<u32, usize> = [(1, 10), (2, 20), (3, 0)].into_iter().collect();
    assert_eq!(map, expected);
    assert_eq!(cutoff, None);
}

#[test]
fn create_map_tick_and_cross_count_as_one() {
    let prefs = boxes("*,2");
    let (map, cutoff) = create_map(&prefs, |idx| idx).unwrap();
    let expected: BTreeMap<u32, usize> = [(1, 0), (2, 1)].into_iter().collect();
    assert_eq!(map, expected);
    assert_eq!(cutoff, None);
    let prefs = boxes("/,1");
    let (_, cutoff) = create_map(&prefs, |idx| idx).unwrap();
    assert_eq!(cutoff, Some(1));
}

#[test]
fn create_map_invalid_character() {
    let prefs = boxes("1,x,2");
    let res = create_map(&prefs, |idx| idx);
    assert_eq!(
        res,
        Err(BallotParseErr::InvalidBallot(InvalidBallotErr::InvalidCharacter))
    );
}

#[test]
fn create_map_asks_only_for_marked_boxes() {
    let prefs = boxes(",1,");
    let (map, _) = create_map(&prefs, |idx| {
        assert_eq!(idx, 1);
        'x'
    })
    .unwrap();
    assert_eq!(map.get(&1), Some(&'x'));
}

#[test]
fn create_pref_map_maps_to_candidates() {
    let prefs = boxes("2,,1");
    let (map, cutoff) = create_pref_map(&prefs, &[70, 80, 90]).unwrap();
    let expected: BTreeMap<u32, u32> = [(1, 90), (2, 70)].into_iter().collect();
    assert_eq!(map, expected);
    assert_eq!(cutoff, None);
}

#[test]
fn create_group_pref_map_maps_to_tickets() {
    let groups = vec![Group::new(vec![1, 2]), Group::new(vec![3]), Group::new(vec![])];
    let prefs = boxes("2,1,3");
    let (map, cutoff) = create_group_pref_map(&prefs, &groups).unwrap();
    assert_eq!(map.len(), 3);
    assert_eq!(map[&1], &[3][..]);
    assert_eq!(map[&2], &[1, 2][..]);
    assert_eq!(map[&3], &[][..]);
    assert_eq!(cutoff, None);
}

#[test]
fn duplicate_first_preferences_leave_an_empty_ballot() {
    // Two boxes are both marked 1: the cut-off is 1, and nothing is below it.
    let prefs = boxes("1,1,3");
    let res = create_pref_map(&prefs, &[10, 20, 30]).unwrap();
    assert_eq!(res.1, Some(1));
    assert_eq!(
        remove_repeats_and_gaps(res),
        Err(BallotParseErr::InvalidBallot(InvalidBallotErr::EmptyBallot))
    );
}

#[test]
fn gap_leaves_the_first_entity_only() {
    // No box is marked 2: the cut-off is 2.
    let prefs = boxes("1,3");
    let res = create_pref_map(&prefs, &[10, 20]).unwrap();
    assert_eq!(res.1, None);
    let kept = remove_repeats_and_gaps(res).unwrap();
    let expected: BTreeMap<u32, u32> = [(1, 10)].into_iter().collect();
    assert_eq!(kept, expected);
}
