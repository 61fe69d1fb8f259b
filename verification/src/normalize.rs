//! Cutting a map of preferences off where it stops counting.
//!
//! A vote counts as far as its preference numbers run 1, 2, 3, … without a
//! number that is skipped or given twice. The cut-off is the first number at
//! which that fails; what is marked with a number below it stays.
use crate::error::{BallotParseErr, InvalidBallotErr};
use crate::ordering::{ascending, key_rank, lemma_listing_is, lists_by_rank};
use crate::pref_map::BallotRes;
use std::collections::BTreeMap;
use vstd::prelude::*;

verus! {

/// One more than the greatest preference number.
pub open spec fn pref_limit() -> nat {
    0x1_0000_0000
}

/// The least number from `from` on that is no key of the map.
pub open spec fn first_unmarked<T>(m: Map<u32, T>, from: nat) -> nat
    decreases pref_limit() - from,
{
    if from < pref_limit() && m.contains_key(from as u32) {
        first_unmarked(m, from + 1)
    } else {
        from
    }
}

/// The first number at which the keys, taken in ascending order, are not
/// 1, 2, 3, … any more. With a key 0 that is 1, since 0 stands where 1 should;
/// else it is the least positive number that is no key.
pub open spec fn gap_cutoff<T>(m: Map<u32, T>) -> nat {
    if m.contains_key(0) {
        1
    } else {
        first_unmarked(m, 1)
    }
}

/// The number from which on nothing counts: the lesser of the first gap and
/// the least repeated number.
pub open spec fn cutoff_of<T>(m: Map<u32, T>, repeat: Option<u32>) -> nat {
    match repeat {
        Some(c) => if c <= gap_cutoff(m) {
            c as nat
        } else {
            gap_cutoff(m)
        },
        None => gap_cutoff(m),
    }
}

/// The keys below a number.
pub open spec fn prefs_below(cut: nat) -> Set<u32> {
    Set::new(|k: u32| k < cut)
}

/// What counts of a map of preferences.
pub open spec fn kept_prefs<T>(m: Map<u32, T>, repeat: Option<u32>) -> Map<u32, T> {
    m.restrict(prefs_below(cutoff_of(m, repeat)))
}

/// Whether the keys are exactly 1, 2, …, `n`.
pub open spec fn runs_to<T>(m: Map<u32, T>, n: nat) -> bool {
    forall|k: u32| m.contains_key(k) <==> 1 <= k <= n
}

/// Whether the keys are exactly 1, 2, …, `n` for some `n` that is at least 1.
pub open spec fn is_normalized<T>(m: Map<u32, T>) -> bool {
    exists|n: nat| n >= 1 && runs_to(m, n)
}

/// Whether the map has a key.
pub open spec fn has_prefs<T>(m: Map<u32, T>) -> bool {
    exists|k: u32| m.contains_key(k)
}

/// Every number from `from` up to the first unmarked one is a key, and that
/// one is none.
pub proof fn lemma_first_unmarked<T>(m: Map<u32, T>, from: nat)
    requires
        from <= pref_limit(),
    ensures
        from <= first_unmarked(m, from) <= pref_limit(),
        forall|k: u32| from <= k < first_unmarked(m, from) ==> m.contains_key(k),
        first_unmarked(m, from) < pref_limit() ==> !m.contains_key(first_unmarked(m, from) as u32),
    decreases pref_limit() - from,
{
    if from < pref_limit() && m.contains_key(from as u32) {
        lemma_first_unmarked(m, from + 1);
    }
}

/// Without a key 0, what counts has the keys 1, 2, …, up to the number before
/// the cut-off.
pub proof fn lemma_kept_prefs_run<T>(m: Map<u32, T>, repeat: Option<u32>)
    requires
        !m.contains_key(0),
    ensures
        cutoff_of(m, repeat) >= 1 ==> runs_to(
            kept_prefs(m, repeat),
            (cutoff_of(m, repeat) - 1) as nat,
        ),
        cutoff_of(m, repeat) == 0 ==> !has_prefs(kept_prefs(m, repeat)),
        has_prefs(kept_prefs(m, repeat)) ==> is_normalized(kept_prefs(m, repeat)),
{
    lemma_first_unmarked(m, 1);
    let cut = cutoff_of(m, repeat);
    let kept = kept_prefs(m, repeat);
    if cut >= 1 {
        assert forall|k: u32| kept.contains_key(k) <==> 1 <= k <= cut - 1 by {
            if 1 <= k <= cut - 1 {
                assert(m.contains_key(k));
                assert(prefs_below(cut).contains(k));
            }
        }
        assert(runs_to(kept, (cut - 1) as nat));
        if has_prefs(kept) {
            let k = choose|k: u32| kept.contains_key(k);
            assert(1 <= k <= cut - 1);
        }
    }
}

/// Cutting off a second time changes nothing: what counts of a map counts of
/// the result in full.
pub proof fn lemma_kept_prefs_idempotent<T>(m: Map<u32, T>, repeat: Option<u32>)
    ensures
        kept_prefs(kept_prefs(m, repeat), None) == kept_prefs(m, repeat),
{
    let kept = kept_prefs(m, repeat);
    let cut = cutoff_of(m, repeat);
    lemma_first_unmarked(m, 1);
    lemma_first_unmarked(kept, 1);
    if m.contains_key(0) {
        assert forall|k: u32| kept.contains_key(k) implies k == 0 by {}
        if kept.contains_key(0) {
            assert(gap_cutoff(kept) == 1);
        }
    } else {
        lemma_kept_prefs_run(m, repeat);
        let gap = first_unmarked(kept, 1);
        if cut >= 1 {
            if gap < cut {
                assert(kept.contains_key(gap as u32));
            }
        }
    }
    assert(kept_prefs(kept, None) =~= kept);
}

/// A map whose keys are 1, 2, …, `n` counts in full.
pub proof fn lemma_normalized_is_kept<T>(m: Map<u32, T>)
    requires
        is_normalized(m),
    ensures
        kept_prefs(m, None) == m,
        has_prefs(m),
{
    let n = choose|n: nat| n >= 1 && runs_to(m, n);
    lemma_first_unmarked(m, 1);
    let gap = first_unmarked(m, 1);
    assert(m.contains_key(1));
    if gap <= n && gap < pref_limit() {
        assert(m.contains_key(gap as u32));
    }
    assert(kept_prefs(m, None) =~= m);
}

/// The first place from `from` on whose key is not the place's ordinal, the
/// ordinal of place `j` being `j + 1`; the length where there is none.
pub open spec fn first_misplaced<T>(order: Seq<(u32, T)>, from: nat) -> nat
    decreases order.len() - from,
{
    if from < order.len() && order[from as int].0 == from + 1 {
        first_misplaced(order, from + 1)
    } else {
        from
    }
}

proof fn lemma_first_misplaced<T>(order: Seq<(u32, T)>, from: nat)
    requires
        from <= order.len(),
    ensures
        from <= first_misplaced(order, from) <= order.len(),
        forall|j: int|
            from <= j < first_misplaced(order, from) ==> (#[trigger] order[j]).0 == j + 1,
        first_misplaced(order, from) < order.len() ==> order[first_misplaced(order, from) as int].0
            != first_misplaced(order, from) + 1,
    decreases order.len() - from,
{
    if from < order.len() && order[from as int].0 == from + 1 {
        lemma_first_misplaced(order, from + 1);
    }
}

/// The cut-off at the first gap is what a walk of the keys finds: taking the
/// keys in ascending order beside 1, 2, 3, …, it is the ordinal of the first
/// key that is not its ordinal, and where every key is, the ordinal after the
/// last.
pub proof fn lemma_gap_is_first_misplaced<T>(m: Map<u32, T>, order: Seq<(u32, T)>)
    requires
        lists_by_rank(order, m, key_rank()),
    ensures
        gap_cutoff(m) == first_misplaced(order, 0) + 1,
{
    lemma_first_misplaced(order, 0);
    lemma_first_unmarked(m, 1);
    let f = first_misplaced(order, 0);
    let g = first_unmarked(m, 1);
    if m.contains_key(0) {
        let i = choose|i: int| 0 <= i < order.len() && (#[trigger] order[i]).0 == 0;
        if i > 0 {
            assert(key_rank()(order[0].0) < key_rank()(order[i].0));
        }
    } else {
        // The numbers 1, 2, …, f are keys.
        assert forall|k: u32| 1 <= k <= f implies m.contains_key(k) by {
            assert(order[k - 1].0 == k);
            assert(m.contains_key(order[k - 1].0));
        }
        // The number f + 1 is none.
        if f + 1 < pref_limit() && m.contains_key((f + 1) as u32) {
            let i = choose|i: int| 0 <= i < order.len() && (#[trigger] order[i]).0 == f + 1;
            if i < f {
                assert(order[i].0 == i + 1);
            } else {
                assert(f < order.len());
                assert(m.contains_key(order[f as int].0));
                if f > 0 {
                    assert(order[f - 1].0 == f);
                    assert(key_rank()(order[f - 1].0) < key_rank()(order[f as int].0));
                }
                if i > f {
                    assert(key_rank()(order[f as int].0) < key_rank()(order[i].0));
                }
            }
        }
        if f + 1 >= pref_limit() {
            // Every number up to the greatest is a key.
            assert(g >= pref_limit()) by {
                if g < pref_limit() {
                    assert(m.contains_key(g as u32));
                }
            }
        } else {
            if g < f + 1 {
                assert(m.contains_key(g as u32));
            }
        }
    }
}

/// The entries of a map whose keys are 1, 2, …, `n`, by ascending key.
pub open spec fn run_entries<T>(m: Map<u32, T>, n: nat) -> Seq<(u32, T)> {
    Seq::new(n, |i: int| ((i + 1) as u32, m[(i + 1) as u32]))
}

/// In a vote that counts, what is marked `i + 1` stands in place `i` of the
/// order.
pub proof fn lemma_ascending_of_run<T>(m: Map<u32, T>, n: nat)
    requires
        runs_to(m, n),
        n < pref_limit(),
    ensures
        ascending(m) == run_entries(m, n),
{
    let s = run_entries(m, n);
    assert forall|k: u32| m.contains_key(k) implies exists|i: int|
        0 <= i < s.len() && (#[trigger] s[i]).0 == k by {
        assert(s[k - 1].0 == k);
    }
    assert(lists_by_rank(s, m, key_rank()));
    lemma_listing_is(s, m, key_rank());
}

/// Two maps with the same keys have the same first unmarked number.
pub proof fn lemma_first_unmarked_same_keys<T, U>(m1: Map<u32, T>, m2: Map<u32, U>, from: nat)
    requires
        forall|k: u32| m1.contains_key(k) <==> m2.contains_key(k),
    ensures
        first_unmarked(m1, from) == first_unmarked(m2, from),
    decreases pref_limit() - from,
{
    if from < pref_limit() && m1.contains_key(from as u32) {
        lemma_first_unmarked_same_keys(m1, m2, from + 1);
    }
}

/// Where the cut falls depends on the keys alone: it is the same whether a
/// function is applied to what was marked before the cut or after it.
pub proof fn lemma_kept_prefs_map_values<T, U>(
    m: Map<u32, T>,
    repeat: Option<u32>,
    f: spec_fn(T) -> U,
)
    ensures
        kept_prefs(m.map_values(f), repeat) == kept_prefs(m, repeat).map_values(f),
        has_prefs(kept_prefs(m.map_values(f), repeat)) == has_prefs(kept_prefs(m, repeat)),
        kept_prefs(m.map_values(f), repeat).dom() == kept_prefs(m, repeat).dom(),
{
    lemma_first_unmarked_same_keys(m, m.map_values(f), 1);
    let a = kept_prefs(m.map_values(f), repeat);
    let b = kept_prefs(m, repeat);
    assert(a =~= b.map_values(f));
    assert(a.dom() =~= b.dom());
    if has_prefs(a) {
        let k = choose|k: u32| a.contains_key(k);
        assert(b.contains_key(k));
    }
    if has_prefs(b) {
        let k = choose|k: u32| b.contains_key(k);
        assert(a.contains_key(k));
    }
}

/// `BTreeMap::split_off`: the map keeps its entries with a key below `at`,
/// and everything from `at` on is handed back.
#[verifier::external_body]
fn split_off_at<T>(map: &mut BTreeMap<u32, T>, at: u32) -> (rest: BTreeMap<u32, T>)
    ensures
        final(map)@ == old(map)@.restrict(Set::new(|k: u32| k < at)),
        rest@ == old(map)@.restrict(Set::new(|k: u32| k >= at)),
{
    map.split_off(&at)
}

/// The first number at which the keys stop running 1, 2, 3, ….
fn find_gap<T>(map: &BTreeMap<u32, T>) -> (gap: u64)
    ensures
        gap == gap_cutoff(map@),
        gap <= pref_limit(),
{
    if map.contains_key(&0) {
        return 1;
    }
    let mut gap: u64 = 1;
    while gap <= 0xffff_ffff && map.contains_key(&(gap as u32))
        invariant
            1 <= gap <= pref_limit(),
            first_unmarked(map@, 1) == first_unmarked(map@, gap as nat),
        decreases pref_limit() - gap,
    {
        gap += 1;
    }
    gap
}

/// Cuts the map off at the first preference number that is skipped or was
/// given more than once, `cutoff` being the least number given more than
/// once. What is left is the vote as far as it counts; a vote of which
/// nothing is left is informal.
///
/// Unless a box was marked 0, the keys that are left are 1, 2, …, `n` for
/// some `n`. A map whose keys are such a run already, and in which no number
/// was repeated, comes back as it is.
pub fn remove_repeats_and_gaps<T>(res: BallotRes<T>) -> (out: Result<
    BTreeMap<u32, T>,
    BallotParseErr,
>)
    ensures
        match out {
            Ok(map) => {
                &&& map@ == kept_prefs(res.0@, res.1)
                &&& has_prefs(map@)
                &&& !res.0@.contains_key(0) ==> is_normalized(map@)
            },
            Err(e) => {
                &&& !has_prefs(kept_prefs(res.0@, res.1))
                &&& e == BallotParseErr::InvalidBallot(InvalidBallotErr::EmptyBallot)
            },
        },
        is_normalized(res.0@) && res.1 is None ==> (out matches Ok(map) && map@ == res.0@),
{
    let (mut map, cutoff) = res;
    let ghost marked = map@;
    // Search for a gap in the order of preferences.
    let missing_pref = find_gap(&map);
    // Cut-off at the minimum of the provided cutoff (for doubled prefs) and any missing pref.
    let new_cutoff: u64 = match cutoff {
        Some(prev) => if prev as u64 <= missing_pref {
            prev as u64
        } else {
            missing_pref
        },
        None => missing_pref,
    };
    if new_cutoff <= 0xffff_ffff {
        let _ = split_off_at(&mut map, new_cutoff as u32);
    }
    proof {
        assert(new_cutoff == cutoff_of(marked, cutoff));
        assert(map@ =~= kept_prefs(marked, cutoff));
        if !marked.contains_key(0) {
            lemma_kept_prefs_run(marked, cutoff);
        }
        if is_normalized(marked) && cutoff is None {
            lemma_normalized_is_kept(marked);
        }
    }
    if !map.is_empty() {
        proof {
            assert(map@.dom().len() > 0);
            let k = map@.dom().choose();
            assert(map@.contains_key(k));
        }
        Ok(map)
    } else {
        proof {
            assert forall|k: u32| !map@.contains_key(k) by {
                if map@.contains_key(k) {
                    assert(map@.dom().contains(k));
                }
            }
        }
        Err(BallotParseErr::InvalidBallot(InvalidBallotErr::EmptyBallot))
    }
}

} // verus!
