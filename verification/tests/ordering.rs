use ballot_parse::ordering::entries_in_order;
use ballot_parse::watched::{set_holds, ticket_is_tagged};
use std::collections::BTreeMap;

#[test]
fn entries_come_by_ascending_key() {
    let marked: BTreeMap<u32, char> = [(9, 'i'), (2, 'b'), (4294967295, 'z'), (0, 'o'), (5, 'e')]
        .into_iter()
        .collect();
    let entries = entries_in_order(&marked);
    assert_eq!(
        entries,
        vec![(0, &'o'), (2, &'b'), (5, &'e'), (9, &'i'), (4294967295, &'z')]
    );
}

#[test]
fn entries_of_empty_map() {
    let marked: BTreeMap<u32, char> = BTreeMap::new();
    assert!(entries_in_order(&marked).is_empty());
}

#[test]
fn set_holds_its_candidates_only() {
    let set = [7, 3, 9];
    assert!(set_holds(&set, 7));
    assert!(set_holds(&set, 3));
    assert!(set_holds(&set, 9));
    assert!(!set_holds(&set, 8));
    assert!(!set_holds(&[], 8));
}

#[test]
fn ticket_is_tagged_by_any_candidate() {
    let set = [7, 3, 9];
    assert!(ticket_is_tagged(&[1, 2, 9], &set));
    assert!(ticket_is_tagged(&[3], &set));
    assert!(!ticket_is_tagged(&[1, 2, 4], &set));
    assert!(!ticket_is_tagged(&[], &set));
    assert!(!ticket_is_tagged(&[1, 2, 9], &[]));
}
