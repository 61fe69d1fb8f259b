//! From a map of preferences to an order of candidates.
//!
//! Below the line the voter numbers candidates, and the order is that of the
//! numbers. Above the line the voter numbers groups, and each group stands for
//! its ticket: the order is that of the numbers, ticket by ticket, unless an
//! experiment displaces the two watched groups.
//!
//! # The displacement
//!
//! Each set of [`WatchedSets`] has at most one watched group on a paper: of
//! the groups whose ticket holds a candidate of the set, the one with the
//! greatest preference number. A displacement by `amount` places gives every
//! group a rank, in tenths of a place, and the groups are taken by ascending
//! rank:
//!
//! - a group that is not watched has ten times its preference number;
//! - a watched group with preference number `k` has `10 * (k + amount) + 5`: it
//!   comes right after the unwatched group numbered `k + amount`, or after all
//!   of them if there is none so late;
//! - where the preference numbers of the two watched groups differ by one, the
//!   earlier of the two has 9 more. It then passes as many unwatched groups as
//!   the later one does, and still comes before it.
//!
//! No two groups of a paper have the same rank, so the order is determined, and
//! it holds every group once.
use crate::candidate::CandidateId;
use crate::experiment::{displacement, displacement_of, draw_for, needs_draw, DRAW_SCALE};
use crate::ordering::{
    ascending, collect_entries, entries_in_order, key_rank, lemma_flat_map_permutation,
    lemma_listing_exists, lemma_listing_is, lemma_listing_map_values, lemma_listings_same_entries,
    listing_by_rank, lists_by_rank, owned_entries, values_of,
};
use crate::pref_map::{ticket_view, tickets, GroupPrefMap, PrefMap};
use crate::watched::{is_tagged, labor_ids, liberal_ids, ticket_is_tagged, WatchedSets};
use std::collections::BTreeMap;
use vstd::multiset::Multiset;
use vstd::prelude::*;

verus! {

/// The ticket of an entry.
pub open spec fn entry_ticket() -> spec_fn((u32, Seq<CandidateId>)) -> Seq<CandidateId> {
    |e: (u32, Seq<CandidateId>)| e.1
}

/// The candidates of the listed groups, ticket after ticket.
pub open spec fn concat_tickets(order: Seq<(u32, Seq<CandidateId>)>) -> Seq<CandidateId> {
    order.flat_map(entry_ticket())
}

/// The order that the voter gave: the tickets by ascending preference number.
pub open spec fn baseline_flat(m: Map<u32, Seq<CandidateId>>) -> Seq<CandidateId> {
    concat_tickets(ascending(m))
}

/// The candidates that the marked groups stand for, each as often as the
/// tickets hold it.
pub open spec fn all_candidates(m: Map<u32, Seq<CandidateId>>) -> Multiset<CandidateId> {
    baseline_flat(m).to_multiset()
}

/// Whether `k` numbers the watched group of `set`: a group with a candidate of
/// the set, and no such group has a greater number.
pub open spec fn is_watched_key(
    m: Map<u32, Seq<CandidateId>>,
    set: Seq<CandidateId>,
    k: u32,
) -> bool {
    &&& m.contains_key(k)
    &&& is_tagged(m[k], set)
    &&& forall|j: u32| #[trigger] m.contains_key(j) && is_tagged(m[j], set) ==> j <= k
}

/// The preference number of the watched group of `set`, if the paper has one.
pub open spec fn watched_key(m: Map<u32, Seq<CandidateId>>, set: Seq<CandidateId>) -> Option<u32> {
    if exists|k: u32| is_watched_key(m, set, k) {
        Some(choose|k: u32| is_watched_key(m, set, k))
    } else {
        None
    }
}

/// The group that meets [`is_watched_key`] is the watched group.
pub proof fn lemma_watched_key_is(m: Map<u32, Seq<CandidateId>>, set: Seq<CandidateId>, k: u32)
    requires
        is_watched_key(m, set, k),
    ensures
        watched_key(m, set) == Some(k),
{
    let c = choose|c: u32| is_watched_key(m, set, c);
    assert(m.contains_key(c) && m.contains_key(k));
}

/// A paper without a group of the set has no watched group of the set.
pub proof fn lemma_no_watched_key(m: Map<u32, Seq<CandidateId>>, set: Seq<CandidateId>)
    requires
        forall|k: u32| m.contains_key(k) ==> !is_tagged(#[trigger] m[k], set),
    ensures
        watched_key(m, set) is None,
{
}

/// Whether `k` numbers one of the watched groups `a` and `b`.
pub open spec fn is_watched(k: u32, a: Option<u32>, b: Option<u32>) -> bool {
    a == Some(k) || b == Some(k)
}

/// Whether `k` numbers the earlier of two watched groups whose numbers differ
/// by one.
pub open spec fn leads_adjacent_pair(k: u32, a: Option<u32>, b: Option<u32>) -> bool {
    &&& a matches Some(x)
    &&& b matches Some(y)
    &&& (x == k && y == k + 1) || (y == k && x == k + 1)
}

/// The rank of the group numbered `k`, in tenths of a place, when the watched
/// groups `a` and `b` are displaced by `amount` places.
pub open spec fn displaced_rank(k: u32, a: Option<u32>, b: Option<u32>, amount: u32) -> int {
    if is_watched(k, a, b) {
        10 * (k + amount) + 5 + if leads_adjacent_pair(k, a, b) {
            9int
        } else {
            0int
        }
    } else {
        10 * k
    }
}

/// The ranking of the keys under a displacement.
pub open spec fn rank_after(a: Option<u32>, b: Option<u32>, amount: u32) -> spec_fn(u32) -> int {
    |k: u32| displaced_rank(k, a, b, amount)
}

/// The groups in the order that a displacement by `amount` places gives them.
pub open spec fn displaced_order(
    m: Map<u32, Seq<CandidateId>>,
    set_a: Seq<CandidateId>,
    set_b: Seq<CandidateId>,
    amount: u32,
) -> Seq<(u32, Seq<CandidateId>)> {
    listing_by_rank(m, rank_after(watched_key(m, set_a), watched_key(m, set_b), amount))
}

/// The order of candidates of an above-the-line vote: the voter's own where
/// nothing is displaced, else the displaced one.
pub open spec fn flat_order(
    m: Map<u32, Seq<CandidateId>>,
    set_a: Seq<CandidateId>,
    set_b: Seq<CandidateId>,
    displacement: Option<u32>,
) -> Seq<CandidateId> {
    match displacement {
        None => baseline_flat(m),
        Some(amount) => concat_tickets(displaced_order(m, set_a, set_b, amount)),
    }
}

/// Ranks under a displacement tell the groups apart.
pub proof fn lemma_rank_injective(k1: u32, k2: u32, a: Option<u32>, b: Option<u32>, amount: u32)
    requires
        displaced_rank(k1, a, b, amount) == displaced_rank(k2, a, b, amount),
    ensures
        k1 == k2,
{
    let r1 = displaced_rank(k1, a, b, amount);
    let r2 = displaced_rank(k2, a, b, amount);
    assert(r1 % 10 == 0 || r1 % 10 == 5 || r1 % 10 == 4);
    assert(r2 % 10 == r1 % 10);
}

/// The groups that are not watched keep the order that the voter gave them.
pub proof fn lemma_unwatched_keep_order(
    k1: u32,
    k2: u32,
    a: Option<u32>,
    b: Option<u32>,
    amount: u32,
)
    requires
        !is_watched(k1, a, b),
        !is_watched(k2, a, b),
    ensures
        displaced_rank(k1, a, b, amount) < displaced_rank(k2, a, b, amount) <==> k1 < k2,
{
}

/// The two watched groups keep the order that the voter gave them, also where
/// both come after all the others.
pub proof fn lemma_watched_keep_order(
    k1: u32,
    k2: u32,
    a: Option<u32>,
    b: Option<u32>,
    amount: u32,
)
    requires
        is_watched(k1, a, b),
        is_watched(k2, a, b),
    ensures
        displaced_rank(k1, a, b, amount) < displaced_rank(k2, a, b, amount) <==> k1 < k2,
{
}

/// A watched group numbered `k` comes after the unwatched groups numbered up
/// to `k + amount`, and before the later ones. Where it is the earlier of two
/// watched groups whose numbers differ by one, the other takes up the number
/// `k + 1`, and it comes after the unwatched groups up to `k + amount + 1`.
pub proof fn lemma_watched_passes(k: u32, j: u32, a: Option<u32>, b: Option<u32>, amount: u32)
    requires
        is_watched(k, a, b),
        !is_watched(j, a, b),
    ensures
        displaced_rank(j, a, b, amount) < displaced_rank(k, a, b, amount) <==> j <= k + amount
            + if leads_adjacent_pair(k, a, b) {
            1int
        } else {
            0int
        },
{
}

/// Whatever is displaced, the order holds the candidates of the marked groups,
/// each as often as the tickets do: groups change places, and none is lost or
/// repeated.
pub proof fn lemma_flat_order_permutes(
    m: Map<u32, Seq<CandidateId>>,
    set_a: Seq<CandidateId>,
    set_b: Seq<CandidateId>,
    displacement: Option<u32>,
)
    requires
        m.dom().finite(),
    ensures
        flat_order(m, set_a, set_b, displacement).to_multiset() == all_candidates(m),
{
    if let Some(amount) = displacement {
        let a = watched_key(m, set_a);
        let b = watched_key(m, set_b);
        let rank = rank_after(a, b, amount);
        assert forall|x: u32, y: u32|
            #![trigger rank(x), rank(y)]
            m.contains_key(x) && m.contains_key(y) && rank(x) == rank(y) implies x == y by {
            lemma_rank_injective(x, y, a, b, amount);
        }
        lemma_listing_exists(m, rank);
        lemma_listing_exists(m, key_rank());
        lemma_listings_same_entries(
            listing_by_rank(m, rank),
            ascending(m),
            m,
            rank,
            key_rank(),
        );
        lemma_flat_map_permutation(listing_by_rank(m, rank), ascending(m), entry_ticket());
    }
}

/// The entries of a group map that a walk collected, with the tickets viewed.
spec fn ticket_entries<'a>(entries: Seq<(u32, &&'a [CandidateId])>) -> Seq<
    (u32, Seq<CandidateId>),
> {
    entries.map_values(|e: (u32, &&[CandidateId])| (e.0, (*e.1)@))
}

/// The number of the last listed group whose ticket holds a candidate of the
/// set.
spec fn last_tagged(order: Seq<(u32, Seq<CandidateId>)>, set: Seq<CandidateId>) -> Option<
    u32,
>
    decreases order.len(),
{
    if order.len() == 0 {
        None
    } else if is_tagged(order.last().1, set) {
        Some(order.last().0)
    } else {
        last_tagged(order.drop_last(), set)
    }
}

/// Whether place `j` of the listing holds the last group with a candidate of
/// the set.
spec fn is_last_tagged_at(
    order: Seq<(u32, Seq<CandidateId>)>,
    set: Seq<CandidateId>,
    j: int,
) -> bool {
    &&& 0 <= j < order.len()
    &&& is_tagged(order[j].1, set)
    &&& forall|i: int| j < i < order.len() ==> !is_tagged((#[trigger] order[i]).1, set)
}

/// The place of the last listed group with a candidate of the set, or -1.
spec fn last_tagged_at(order: Seq<(u32, Seq<CandidateId>)>, set: Seq<CandidateId>) -> int
    decreases order.len(),
{
    if order.len() == 0 {
        -1
    } else if is_tagged(order.last().1, set) {
        order.len() - 1
    } else {
        last_tagged_at(order.drop_last(), set)
    }
}

proof fn lemma_last_tagged(order: Seq<(u32, Seq<CandidateId>)>, set: Seq<CandidateId>)
    ensures
        match last_tagged(order, set) {
            Some(k) => is_last_tagged_at(order, set, last_tagged_at(order, set))
                && order[last_tagged_at(order, set)].0 == k,
            None => forall|i: int|
                0 <= i < order.len() ==> !is_tagged((#[trigger] order[i]).1, set),
        },
    decreases order.len(),
{
    if order.len() > 0 && !is_tagged(order.last().1, set) {
        let rest = order.drop_last();
        lemma_last_tagged(rest, set);
        assert forall|i: int| 0 <= i < rest.len() implies rest[i] == order[i] by {}
    }
}

/// In the ascending listing of a paper, the last group with a candidate of the
/// set is the watched group of the set.
proof fn lemma_last_tagged_is_watched(
    order: Seq<(u32, Seq<CandidateId>)>,
    m: Map<u32, Seq<CandidateId>>,
    set: Seq<CandidateId>,
)
    requires
        lists_by_rank(order, m, key_rank()),
    ensures
        last_tagged(order, set) == watched_key(m, set),
{
    lemma_last_tagged(order, set);
    match last_tagged(order, set) {
        Some(k) => {
            let j = last_tagged_at(order, set);
            assert(m.contains_key(order[j].0));
            assert forall|q: u32| #[trigger] m.contains_key(q) && is_tagged(m[q], set) implies q
                <= k by {
                let i = choose|i: int| 0 <= i < order.len() && (#[trigger] order[i]).0 == q;
                assert(m[order[i].0] == order[i].1);
                if j < i {
                    assert(!is_tagged(order[i].1, set));
                } else if i < j {
                    assert(key_rank()(order[i].0) < key_rank()(order[j].0));
                }
            }
            assert(is_watched_key(m, set, k));
            let c = choose|c: u32| is_watched_key(m, set, c);
            assert(m.contains_key(c) && m.contains_key(k));
        },
        None => {
            assert forall|q: u32| !is_watched_key(m, set, q) by {
                if m.contains_key(q) {
                    let i = choose|i: int| 0 <= i < order.len() && (#[trigger] order[i]).0 == q;
                    assert(m[order[i].0] == order[i].1);
                    assert(!is_tagged(order[i].1, set));
                }
            }
        },
    }
}

/// The ascending listing of a paper is its listing under every ranking that
/// grows with the preference numbers.
proof fn lemma_monotone_rank_keeps_order(m: Map<u32, Seq<CandidateId>>, rank: spec_fn(u32) -> int)
    requires
        m.dom().finite(),
        forall|x: u32, y: u32| x < y ==> #[trigger] rank(x) < #[trigger] rank(y),
    ensures
        listing_by_rank(m, rank) == ascending(m),
{
    lemma_listing_exists(m, key_rank());
    let order = ascending(m);
    assert forall|i: int, j: int|
        #![trigger order[i], order[j]]
        0 <= i < j < order.len() implies rank(order[i].0) < rank(order[j].0) by {
        assert(key_rank()(order[i].0) < key_rank()(order[j].0));
    }
    lemma_listing_is(order, m, rank);
}

/// On a paper without a watched group a displacement changes nothing.
pub proof fn lemma_nothing_to_displace(
    m: Map<u32, Seq<CandidateId>>,
    set_a: Seq<CandidateId>,
    set_b: Seq<CandidateId>,
    amount: u32,
)
    requires
        m.dom().finite(),
        watched_key(m, set_a) is None,
        watched_key(m, set_b) is None,
    ensures
        flat_order(m, set_a, set_b, Some(amount)) == baseline_flat(m),
{
    let rank = rank_after(None, None, amount);
    assert forall|x: u32, y: u32| x < y implies #[trigger] rank(x) < #[trigger] rank(y) by {}
    lemma_monotone_rank_keeps_order(m, rank);
}

/// A displacement by no place changes nothing.
pub proof fn lemma_displacement_by_zero(
    m: Map<u32, Seq<CandidateId>>,
    set_a: Seq<CandidateId>,
    set_b: Seq<CandidateId>,
)
    requires
        m.dom().finite(),
    ensures
        flat_order(m, set_a, set_b, Some(0)) == baseline_flat(m),
{
    let rank = rank_after(watched_key(m, set_a), watched_key(m, set_b), 0);
    assert forall|x: u32, y: u32| x < y implies #[trigger] rank(x) < #[trigger] rank(y) by {}
    lemma_monotone_rank_keeps_order(m, rank);
}

/// A paper has a watched group of a set exactly where one of its groups has a
/// candidate of the set.
pub proof fn lemma_watched_key_exists(m: Map<u32, Seq<CandidateId>>, set: Seq<CandidateId>)
    requires
        m.dom().finite(),
    ensures
        watched_key(m, set) is Some <==> exists|k: u32|
            m.contains_key(k) && is_tagged(#[trigger] m[k], set),
{
    lemma_listing_exists(m, key_rank());
    let order = ascending(m);
    lemma_last_tagged_is_watched(order, m, set);
    lemma_last_tagged(order, set);
    if exists|k: u32| m.contains_key(k) && is_tagged(#[trigger] m[k], set) {
        let k = choose|k: u32| m.contains_key(k) && is_tagged(#[trigger] m[k], set);
        let i = choose|i: int| 0 <= i < order.len() && (#[trigger] order[i]).0 == k;
        assert(m[order[i].0] == order[i].1);
    }
    if watched_key(m, set) is Some {
        let k = watched_key(m, set)->0;
        assert(is_watched_key(m, set, k));
        assert(m.contains_key(k) && is_tagged(m[k], set));
    }
}

/// The number of the watched group of the set among the collected entries.
fn find_watched<'a>(entries: &Vec<(u32, &&'a [CandidateId])>, set: &[CandidateId]) -> (found:
    Option<u32>)
    ensures
        found == last_tagged(ticket_entries(entries@), set@),
{
    let ghost order = ticket_entries(entries@);
    let mut found: Option<u32> = None;
    let mut i: usize = 0;
    while i < entries.len()
        invariant
            i <= entries@.len(),
            order == ticket_entries(entries@),
            found == last_tagged(order.take(i as int), set@),
        decreases entries@.len() - i,
    {
        let (k, ticket) = entries[i];
        proof {
            let next = order.take(i + 1);
            assert(next.drop_last() =~= order.take(i as int));
            assert(next.last() == order[i as int]);
        }
        if ticket_is_tagged(*ticket, set) {
            found = Some(k);
        }
        i += 1;
    }
    proof {
        assert(order.take(i as int) =~= order);
    }
    found
}

/// The rank of the group numbered `k` under a displacement.
fn rank_of(k: u32, a: Option<u32>, b: Option<u32>, amount: u32) -> (rank: u64)
    ensures
        rank == displaced_rank(k, a, b, amount),
{
    let is_a = match a {
        Some(x) => x == k,
        None => false,
    };
    let is_b = match b {
        Some(y) => y == k,
        None => false,
    };
    if is_a || is_b {
        let next: u64 = k as u64 + 1;
        let leads = match (a, b) {
            (Some(x), Some(y)) => (x == k && y as u64 == next) || (y == k && x as u64 == next),
            _ => false,
        };
        let past: u64 = 10 * (k as u64 + amount as u64) + 5;
        if leads {
            past + 9
        } else {
            past
        }
    } else {
        10 * (k as u64)
    }
}

/// The rank of a rank: itself.
spec fn own_rank() -> spec_fn(u64) -> int {
    |r: u64| r as int
}

/// Appends the tickets of the collected entries, in their order.
fn concat_entries<'a, K: Copy>(entries: &Vec<(K, &&'a [CandidateId])>) -> (flat: Vec<CandidateId>)
    ensures
        flat@ == entries@.map_values(|e: (K, &&[CandidateId])| (*e.1)@).flatten(),
{
    let ghost parts = entries@.map_values(|e: (K, &&[CandidateId])| (*e.1)@);
    let mut flat: Vec<CandidateId> = Vec::new();
    let mut i: usize = 0;
    while i < entries.len()
        invariant
            i <= entries@.len(),
            parts == entries@.map_values(|e: (K, &&[CandidateId])| (*e.1)@),
            flat@ == parts.take(i as int).flatten(),
        decreases entries@.len() - i,
    {
        let (_, ticket) = entries[i];
        let ghost before = flat@;
        flat.extend_from_slice(*ticket);
        proof {
            assert(flat@ =~= before + (*ticket)@);
            assert(parts.take(i + 1) =~= parts.take(i as int).push(parts[i as int]));
            parts.take(i as int).lemma_flatten_push(parts[i as int]);
        }
        i += 1;
    }
    proof {
        assert(parts.take(i as int) =~= parts);
    }
    flat
}

/// The candidates of a below-the-line vote, by ascending preference number.
pub fn flatten_pref_map(pref_map: PrefMap) -> (flat: Vec<CandidateId>)
    ensures
        flat@ == values_of(ascending(pref_map@)),
{
    let entries = entries_in_order(&pref_map);
    let ghost order = owned_entries(entries@);
    let mut flat: Vec<CandidateId> = Vec::new();
    let mut i: usize = 0;
    while i < entries.len()
        invariant
            i <= entries@.len(),
            order == owned_entries(entries@),
            flat@ == values_of(order).take(i as int),
        decreases entries@.len() - i,
    {
        let (_, id) = entries[i];
        flat.push(*id);
        proof {
            assert(flat@ =~= values_of(order).take(i + 1));
        }
        i += 1;
    }
    proof {
        assert(values_of(order).take(i as int) =~= values_of(order));
    }
    flat
}

/// The collected entries of a group map list its tickets by ascending number.
proof fn lemma_ticket_entries<'a>(
    entries: Seq<(u32, &&'a [CandidateId])>,
    m: Map<u32, &'a [CandidateId]>,
)
    requires
        lists_by_rank(owned_entries(entries), m, key_rank()),
    ensures
        lists_by_rank(ticket_entries(entries), tickets(m), key_rank()),
        ticket_entries(entries) == ascending(tickets(m)),
        concat_tickets(ticket_entries(entries)) == entries.map_values(
            |e: (u32, &&[CandidateId])| (*e.1)@,
        ).flatten(),
{
    let owned = owned_entries(entries);
    lemma_listing_map_values(owned, m, key_rank(), ticket_view());
    let viewed = owned.map_values(|e: (u32, &[CandidateId])| (e.0, ticket_view()(e.1)));
    assert(viewed =~= ticket_entries(entries));
    lemma_listing_is(ticket_entries(entries), tickets(m), key_rank());
    assert(ticket_entries(entries).map_values(entry_ticket()) =~= entries.map_values(
        |e: (u32, &&[CandidateId])| (*e.1)@,
    ));
}

/// The candidates of an above-the-line vote in the voter's own order.
fn flatten_baseline(group_pref_map: &GroupPrefMap) -> (flat: Vec<CandidateId>)
    ensures
        flat@ == baseline_flat(tickets(group_pref_map@)),
{
    let entries = entries_in_order(group_pref_map);
    proof {
        lemma_ticket_entries(entries@, group_pref_map@);
    }
    concat_entries(&entries)
}

/// The key of `m` that has the given rank.
spec fn key_at_rank(
    m: Map<u32, Seq<CandidateId>>,
    rank: spec_fn(u32) -> int,
    r: int,
) -> u32 {
    choose|k: u32| m.contains_key(k) && rank(k) == r
}

/// The candidates of an above-the-line vote with the watched groups displaced
/// by `amount` places.
fn flatten_displaced(group_pref_map: &GroupPrefMap, watched: &WatchedSets, amount: u32) -> (flat:
    Vec<CandidateId>)
    ensures
        flat@ == concat_tickets(
            displaced_order(tickets(group_pref_map@), watched.set_a@, watched.set_b@, amount),
        ),
        flat@.to_multiset() == all_candidates(tickets(group_pref_map@)),
{
    let entries = entries_in_order(group_pref_map);
    let ghost m = tickets(group_pref_map@);
    let ghost listing = ticket_entries(entries@);
    proof {
        lemma_ticket_entries(entries@, group_pref_map@);
    }
    // Find the preference numbers of the two watched groups.
    let found_a = find_watched(&entries, watched.set_a.as_slice());
    let found_b = find_watched(&entries, watched.set_b.as_slice());
    let ghost rank = rank_after(found_a, found_b, amount);
    proof {
        lemma_last_tagged_is_watched(listing, m, watched.set_a@);
        lemma_last_tagged_is_watched(listing, m, watched.set_b@);
    }
    // Key every group by its rank: the watched groups slot in between the
    // others, ten ranks apart.
    let mut ranked: BTreeMap<u64, &[CandidateId]> = BTreeMap::new();
    let mut i: usize = 0;
    while i < entries.len()
        invariant
            i <= entries@.len(),
            listing == ticket_entries(entries@),
            rank == rank_after(found_a, found_b, amount),
            forall|j: int|
                0 <= j < i ==> ranked@.contains_key(rank((#[trigger] listing[j]).0) as u64)
                    && ranked@[rank(listing[j].0) as u64]@ == listing[j].1,
            forall|r: u64| #[trigger]
                ranked@.contains_key(r) ==> exists|j: int|
                    0 <= j < i && rank((#[trigger] listing[j]).0) == r,
            forall|x: int, y: int|
                #![trigger listing[x], listing[y]]
                0 <= x < y < listing.len() ==> listing[x].0 < listing[y].0,
        decreases entries@.len() - i,
    {
        let (k, ticket) = entries[i];
        let r = rank_of(k, found_a, found_b, amount);
        let ghost before = ranked@;
        proof {
            assert(listing[i as int].0 == k);
            assert(!before.contains_key(r)) by {
                if before.contains_key(r) {
                    let j = choose|j: int| 0 <= j < i && rank((#[trigger] listing[j]).0) == r;
                    lemma_rank_injective(listing[j].0, k, found_a, found_b, amount);
                    assert(listing[j].0 < listing[i as int].0);
                }
            }
        }
        ranked.insert(r, *ticket);
        proof {
            assert forall|j: int| 0 <= j < i + 1 implies ranked@.contains_key(
                rank((#[trigger] listing[j]).0) as u64,
            ) && ranked@[rank(listing[j].0) as u64]@ == listing[j].1 by {
                if j < i {
                    assert(before.contains_key(rank(listing[j].0) as u64));
                }
            }
            assert forall|q: u64| #[trigger] ranked@.contains_key(q) implies exists|j: int|
                0 <= j < i + 1 && rank((#[trigger] listing[j]).0) == q by {
                if q == r {
                    assert(rank(listing[i as int].0) == q);
                } else {
                    assert(before.contains_key(q));
                    let j = choose|j: int| 0 <= j < i && rank((#[trigger] listing[j]).0) == q;
                    assert(rank(listing[j].0) == q);
                }
            }
        }
        i += 1;
    }
    // Walk the groups by rank.
    let order = collect_entries(&ranked, Ghost(own_rank()));
    let flat = concat_entries(&order);
    proof {
        let by_rank = owned_entries(order@);
        let displaced = Seq::new(
            order@.len(),
            |x: int| (key_at_rank(m, rank, order@[x].0 as int), (*order@[x].1)@),
        );
        assert forall|x: int| 0 <= x < displaced.len() implies m.contains_key(
            (#[trigger] displaced[x]).0,
        ) && rank(displaced[x].0) == order@[x].0 && m[displaced[x].0] == displaced[x].1 by {
            let r = by_rank[x].0;
            assert(ranked@.contains_key(r) && ranked@[r] == by_rank[x].1);
            let j = choose|j: int| 0 <= j < i && rank((#[trigger] listing[j]).0) == r;
            assert(m.contains_key(listing[j].0) && rank(listing[j].0) == r);
            let k = key_at_rank(m, rank, r as int);
            lemma_rank_injective(k, listing[j].0, found_a, found_b, amount);
            assert(ranked@[rank(listing[j].0) as u64]@ == listing[j].1);
        }
        assert forall|x: int, y: int|
            #![trigger displaced[x], displaced[y]]
            0 <= x < y < displaced.len() implies rank(displaced[x].0) < rank(displaced[y].0) by {
            assert(own_rank()(by_rank[x].0) < own_rank()(by_rank[y].0));
        }
        assert forall|k: u32| m.contains_key(k) implies exists|x: int|
            0 <= x < displaced.len() && (#[trigger] displaced[x]).0 == k by {
            let j = choose|j: int| 0 <= j < listing.len() && (#[trigger] listing[j]).0 == k;
            let r = rank(listing[j].0) as u64;
            assert(ranked@.contains_key(r));
            let x = choose|x: int| 0 <= x < by_rank.len() && (#[trigger] by_rank[x]).0 == r;
            assert(rank(displaced[x].0) == r);
            lemma_rank_injective(displaced[x].0, k, found_a, found_b, amount);
        }
        assert(lists_by_rank(displaced, m, rank));
        lemma_listing_is(displaced, m, rank);
        assert(displaced.map_values(entry_ticket()) =~= order@.map_values(
            |e: (u64, &&[CandidateId])| (*e.1)@,
        ));
        lemma_listings_same_entries(displaced, listing, m, rank, key_rank());
        lemma_flat_map_permutation(displaced, listing, entry_ticket());
    }
    flat
}

/// The candidates of an above-the-line vote, ticket after ticket: in the
/// voter's order of the groups where `displacement` is `None`, and else with
/// the watched groups of `watched` moved down by that many places.
///
/// Whatever the displacement, the result holds the candidates of the marked
/// groups, each as often as the tickets do: groups change places, and none is
/// lost or repeated.
pub fn flatten_with(
    group_pref_map: &GroupPrefMap,
    watched: &WatchedSets,
    displacement: Option<u32>,
) -> (flat: Vec<CandidateId>)
    ensures
        flat@ == flat_order(
            tickets(group_pref_map@),
            watched.set_a@,
            watched.set_b@,
            displacement,
        ),
        flat@.to_multiset() == all_candidates(tickets(group_pref_map@)),
{
    match displacement {
        None => flatten_baseline(group_pref_map),
        Some(amount) => flatten_displaced(group_pref_map, watched, amount),
    }
}

/// The candidates of an above-the-line vote under the experiment with the
/// given number, which follows the two major parties. An experiment that
/// depends on a draw takes it from the thread's random generator, so the
/// result is the order for one of the possible draws.
pub fn flatten_group_pref_map(group_pref_map: GroupPrefMap, experiment_num: usize) -> (flat: Vec<
    CandidateId,
>)
    ensures
        exists|draw: u32|
            draw < DRAW_SCALE && flat@ == flat_order(
                tickets(group_pref_map@),
                labor_ids(),
                liberal_ids(),
                #[trigger] displacement_of(experiment_num, draw),
            ),
        !needs_draw(experiment_num) ==> flat@ == flat_order(
            tickets(group_pref_map@),
            labor_ids(),
            liberal_ids(),
            displacement_of(experiment_num, 0),
        ),
        flat@.to_multiset() == all_candidates(tickets(group_pref_map@)),
{
    let watched = WatchedSets::major_parties();
    let draw = draw_for(experiment_num);
    let bump = displacement(experiment_num, draw);
    flatten_with(&group_pref_map, &watched, bump)
}

} // verus!
