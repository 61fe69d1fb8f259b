//! The two sets of candidates whose groups the experiments follow.
use crate::candidate::CandidateId;
use vstd::prelude::*;

verus! {

/// Two sets of candidate identifiers, each standing for one political
/// grouping. A group on the paper belongs to a grouping when its ticket holds
/// a candidate of that set.
#[derive(Debug, Clone)]
pub struct WatchedSets {
    pub set_a: Vec<CandidateId>,
    pub set_b: Vec<CandidateId>,
}

/// Whether a ticket holds a candidate of the set.
pub open spec fn is_tagged(ticket: Seq<CandidateId>, set: Seq<CandidateId>) -> bool {
    exists|i: int| 0 <= i < ticket.len() && set.contains(#[trigger] ticket[i])
}

/// The candidates of the Labor tickets.
pub open spec fn labor_ids() -> Seq<CandidateId> {
    seq![
        1058, 1059, 1060, 1061, 1062, 1063, 1064, 1065, 1066, 1067, 1068, 1069, 1177, 1178, 1192,
        1193, 1194, 1195, 1196, 1197, 1310, 1311, 1312, 1313, 1314, 1315, 1374, 1375, 1376, 1377,
        1378, 1379, 1436, 1437, 1438, 1439, 1440, 1441, 1442, 1443, 1552, 1553, 1554, 1555, 1556,
        1557, 1558, 998, 999,
    ]
}

/// The candidates of the Liberal tickets.
pub open spec fn liberal_ids() -> Seq<CandidateId> {
    seq![
        1004, 1005, 1028, 1029, 1031, 1033, 1034, 1036, 1037, 1039, 1202, 1203, 1204, 1205, 1206,
        1207, 1208, 1209, 1330, 1331, 1332, 1333, 1334, 1335, 1387, 1388, 1389, 1390, 1391, 1392,
        1501, 1503, 1504, 1505, 1506, 1604, 1605, 1606, 1607, 1608, 1609, 1610,
    ]
}

/// Whether no candidate belongs to both sets.
pub open spec fn are_disjoint(set_a: Seq<CandidateId>, set_b: Seq<CandidateId>) -> bool {
    forall|i: int, j: int|
        0 <= i < set_a.len() && 0 <= j < set_b.len() ==> #[trigger] set_a[i] != #[trigger] set_b[j]
}

/// No candidate stands for both major parties.
pub proof fn lemma_major_parties_disjoint()
    ensures
        are_disjoint(labor_ids(), liberal_ids()),
{
    let a = labor_ids();
    let b = liberal_ids();
    assert forall|i: int, j: int| 0 <= i < a.len() && 0 <= j < b.len() implies #[trigger] a[i]
        != #[trigger] b[j] by {}
}

impl WatchedSets {
    /// The sets made of the two given lists.
    pub fn new(set_a: Vec<CandidateId>, set_b: Vec<CandidateId>) -> (sets: WatchedSets)
        ensures
            sets.set_a@ == set_a@,
            sets.set_b@ == set_b@,
    {
        WatchedSets { set_a, set_b }
    }

    /// The two major parties of the election that the experiments were made
    /// for: Labor as the first set, the Liberals as the second. No candidate
    /// belongs to both.
    pub fn major_parties() -> (sets: WatchedSets)
        ensures
            sets.set_a@ == labor_ids(),
            sets.set_b@ == liberal_ids(),
            are_disjoint(sets.set_a@, sets.set_b@),
    {
        let set_a: Vec<CandidateId> = vec![
            1058, 1059, 1060, 1061, 1062, 1063, 1064, 1065, 1066, 1067, 1068, 1069, 1177, 1178,
            1192, 1193, 1194, 1195, 1196, 1197, 1310, 1311, 1312, 1313, 1314, 1315, 1374, 1375,
            1376, 1377, 1378, 1379, 1436, 1437, 1438, 1439, 1440, 1441, 1442, 1443, 1552, 1553,
            1554, 1555, 1556, 1557, 1558, 998, 999,
        ];
        let set_b: Vec<CandidateId> = vec![
            1004, 1005, 1028, 1029, 1031, 1033, 1034, 1036, 1037, 1039, 1202, 1203, 1204, 1205,
            1206, 1207, 1208, 1209, 1330, 1331, 1332, 1333, 1334, 1335, 1387, 1388, 1389, 1390,
            1391, 1392, 1501, 1503, 1504, 1505, 1506, 1604, 1605, 1606, 1607, 1608, 1609, 1610,
        ];
        assert(set_a@ =~= labor_ids());
        assert(set_b@ =~= liberal_ids());
        proof {
            lemma_major_parties_disjoint();
        }
        WatchedSets { set_a, set_b }
    }
}

/// Whether the set holds the candidate.
pub fn set_holds(set: &[CandidateId], id: CandidateId) -> (found: bool)
    ensures
        found == set@.contains(id),
{
    let mut i: usize = 0;
    while i < set.len()
        invariant
            i <= set@.len(),
            forall|j: int| 0 <= j < i ==> set@[j] != id,
        decreases set@.len() - i,
    {
        if set[i] == id {
            return true;
        }
        i += 1;
    }
    false
}

/// Whether the ticket holds a candidate of the set.
pub fn ticket_is_tagged(ticket: &[CandidateId], set: &[CandidateId]) -> (tagged: bool)
    ensures
        tagged == is_tagged(ticket@, set@),
{
    let mut i: usize = 0;
    while i < ticket.len()
        invariant
            i <= ticket@.len(),
            forall|j: int| 0 <= j < i ==> !set@.contains(#[trigger] ticket@[j]),
        decreases ticket@.len() - i,
    {
        if set_holds(set, ticket[i]) {
            return true;
        }
        i += 1;
    }
    false
}

} // verus!
