//! Listing the entries of a map in a chosen order.
//!
//! A `BTreeMap` hands out its entries by ascending key. This module states what
//! that means over the map's view, for any ranking of the keys, and proves that
//! such a listing is unique: contracts can then speak of *the* listing.
use std::collections::BTreeMap;
use vstd::laws_cmp::obeys_cmp;
use vstd::prelude::*;
use vstd::std_specs::btree::{axiom_increasing_seq_meaning, increasing_seq};
use vstd::std_specs::cmp::OrdSpec;

verus! {

/// `s` lists every entry of `m` exactly once, by strictly ascending `rank` of
/// the keys.
pub open spec fn lists_by_rank<K, V>(
    s: Seq<(K, V)>,
    m: Map<K, V>,
    rank: spec_fn(K) -> int,
) -> bool {
    &&& forall|i: int, j: int|
        #![trigger s[i], s[j]]
        0 <= i < j < s.len() ==> rank(s[i].0) < rank(s[j].0)
    &&& forall|i: int|
        0 <= i < s.len() ==> m.contains_key((#[trigger] s[i]).0) && m[s[i].0] == s[i].1
    &&& forall|k: K|
        m.contains_key(k) ==> exists|i: int| 0 <= i < s.len() && (#[trigger] s[i]).0 == k
}

/// The listing of `m` by ascending `rank`. It is determined wherever one
/// exists: see [`lemma_listing_unique`].
pub open spec fn listing_by_rank<K, V>(m: Map<K, V>, rank: spec_fn(K) -> int) -> Seq<(K, V)> {
    choose|s: Seq<(K, V)>| lists_by_rank(s, m, rank)
}

/// The rank of a preference number: the number itself.
pub open spec fn key_rank() -> spec_fn(u32) -> int {
    |k: u32| k as int
}

/// The entries of `m` by ascending preference number.
pub open spec fn ascending<V>(m: Map<u32, V>) -> Seq<(u32, V)> {
    listing_by_rank(m, key_rank())
}

/// What was marked, in the order of a listing, without the keys.
pub open spec fn values_of<K, V>(s: Seq<(K, V)>) -> Seq<V> {
    s.map_values(|e: (K, V)| e.1)
}

/// Two listings of one map by one ranking are the same sequence.
pub proof fn lemma_listing_unique<K, V>(
    s1: Seq<(K, V)>,
    s2: Seq<(K, V)>,
    m: Map<K, V>,
    rank: spec_fn(K) -> int,
)
    requires
        lists_by_rank(s1, m, rank),
        lists_by_rank(s2, m, rank),
    ensures
        s1 == s2,
    decreases s1.len(),
{
    if s1.len() == 0 {
        if s2.len() > 0 {
            assert(m.contains_key(s2[0].0));
        }
        assert(s1 =~= s2);
    } else {
        let n1 = s1.len() - 1;
        let e1 = s1[n1];
        assert(m.contains_key(e1.0));
        let j = choose|j: int| 0 <= j < s2.len() && (#[trigger] s2[j]).0 == e1.0;
        let n2 = s2.len() - 1;
        if j < n2 {
            let e2 = s2[n2];
            assert(rank(s2[j].0) < rank(e2.0));
            assert(m.contains_key(e2.0));
            let i = choose|i: int| 0 <= i < s1.len() && (#[trigger] s1[i]).0 == e2.0;
            if i < n1 {
                assert(rank(s1[i].0) < rank(s1[n1].0));
            }
        }
        assert(s2[n2] == e1);
        let r1 = s1.drop_last();
        let r2 = s2.drop_last();
        let rest = m.remove(e1.0);
        assert(lists_by_rank(r1, rest, rank)) by {
            lemma_listing_drop_last(s1, m, rank);
        }
        assert(lists_by_rank(r2, rest, rank)) by {
            lemma_listing_drop_last(s2, m, rank);
        }
        lemma_listing_unique(r1, r2, rest, rank);
        assert(s1 =~= r1.push(e1));
        assert(s2 =~= r2.push(e1));
    }
}

/// A listing without its last entry lists the map without that entry's key.
proof fn lemma_listing_drop_last<K, V>(s: Seq<(K, V)>, m: Map<K, V>, rank: spec_fn(K) -> int)
    requires
        lists_by_rank(s, m, rank),
        s.len() > 0,
    ensures
        lists_by_rank(s.drop_last(), m.remove(s.last().0), rank),
{
    let r = s.drop_last();
    let n = s.len() - 1;
    let rest = m.remove(s[n].0);
    assert forall|i: int, j: int| #![trigger r[i], r[j]] 0 <= i < j < r.len() implies rank(r[i].0)
        < rank(r[j].0) by {
        assert(rank(s[i].0) < rank(s[j].0));
    }
    assert forall|i: int| 0 <= i < r.len() implies rest.contains_key((#[trigger] r[i]).0)
        && rest[r[i].0] == r[i].1 by {
        assert(rank(s[i].0) < rank(s[n].0));
        assert(m.contains_key(s[i].0));
    }
    assert forall|k: K| rest.contains_key(k) implies exists|i: int|
        0 <= i < r.len() && (#[trigger] r[i]).0 == k by {
        assert(m.contains_key(k));
        let i = choose|i: int| 0 <= i < s.len() && (#[trigger] s[i]).0 == k;
        assert(r[i].0 == k);
    }
}

/// A sequence that lists `m` by `rank` is the listing of `m` by `rank`.
pub proof fn lemma_listing_is<K, V>(s: Seq<(K, V)>, m: Map<K, V>, rank: spec_fn(K) -> int)
    requires
        lists_by_rank(s, m, rank),
    ensures
        listing_by_rank(m, rank) == s,
{
    lemma_listing_unique(listing_by_rank(m, rank), s, m, rank);
}

/// Where an entry of rank `r` goes into a listing: behind the entries of a
/// lesser rank.
spec fn insertion_point<K, V>(s: Seq<(K, V)>, rank: spec_fn(K) -> int, r: int) -> int
    decreases s.len(),
{
    if s.len() == 0 || rank(s.last().0) < r {
        s.len() as int
    } else {
        insertion_point(s.drop_last(), rank, r)
    }
}

proof fn lemma_insertion_point<K, V>(s: Seq<(K, V)>, rank: spec_fn(K) -> int, r: int)
    requires
        forall|i: int, j: int|
            #![trigger s[i], s[j]]
            0 <= i < j < s.len() ==> rank(s[i].0) < rank(s[j].0),
    ensures
        0 <= insertion_point(s, rank, r) <= s.len(),
        forall|i: int| 0 <= i < insertion_point(s, rank, r) ==> rank((#[trigger] s[i]).0) < r,
        forall|i: int|
            insertion_point(s, rank, r) <= i < s.len() ==> rank((#[trigger] s[i]).0) >= r,
    decreases s.len(),
{
    if s.len() == 0 {
    } else if rank(s.last().0) < r {
        let n = s.len() - 1;
        assert forall|i: int| 0 <= i < s.len() implies rank((#[trigger] s[i]).0) < r by {
            if i < n {
                assert(rank(s[i].0) < rank(s[n].0));
            }
        }
    } else {
        let rest = s.drop_last();
        assert forall|i: int, j: int|
            #![trigger rest[i], rest[j]]
            0 <= i < j < rest.len() implies rank(rest[i].0) < rank(rest[j].0) by {
            assert(rank(s[i].0) < rank(s[j].0));
        }
        lemma_insertion_point(rest, rank, r);
        let p = insertion_point(rest, rank, r);
        assert forall|i: int| 0 <= i < p implies rank((#[trigger] s[i]).0) < r by {
            assert(rest[i] == s[i]);
        }
        assert forall|i: int| p <= i < s.len() implies rank((#[trigger] s[i]).0) >= r by {
            if i < rest.len() {
                assert(rest[i] == s[i]);
            }
        }
    }
}

/// A finite map has a listing by every ranking that tells its keys apart.
pub proof fn lemma_listing_exists<K, V>(m: Map<K, V>, rank: spec_fn(K) -> int)
    requires
        m.dom().finite(),
        forall|a: K, b: K|
            #![trigger rank(a), rank(b)]
            m.contains_key(a) && m.contains_key(b) && rank(a) == rank(b) ==> a == b,
    ensures
        lists_by_rank(listing_by_rank(m, rank), m, rank),
    decreases m.dom().len(),
{
    if m.dom().len() == 0 {
        let s = Seq::<(K, V)>::empty();
        assert forall|k: K| !m.contains_key(k) by {
            if m.contains_key(k) {
                assert(m.dom().contains(k));
            }
        }
        assert(lists_by_rank(s, m, rank));
    } else {
        let k = m.dom().choose();
        assert(m.contains_key(k));
        let rest = m.remove(k);
        lemma_listing_exists(rest, rank);
        let r = listing_by_rank(rest, rank);
        lemma_insertion_point(r, rank, rank(k));
        let p = insertion_point(r, rank, rank(k));
        let s = r.insert(p, (k, m[k]));
        assert forall|i: int| p <= i < r.len() implies rank((#[trigger] r[i]).0) > rank(k) by {
            assert(rest.contains_key(r[i].0));
        }
        assert forall|i: int, j: int| #![trigger s[i], s[j]] 0 <= i < j < s.len() implies rank(
            s[i].0,
        ) < rank(s[j].0) by {
            let a = if i < p {
                i
            } else {
                i - 1
            };
            let b = if j < p {
                j
            } else {
                j - 1
            };
            if i != p && j != p {
                assert(s[i] == r[a] && s[j] == r[b]);
                assert(rank(r[a].0) < rank(r[b].0));
            } else if i == p {
                assert(s[j] == r[b]);
            } else {
                assert(s[i] == r[a]);
            }
        }
        assert forall|i: int| 0 <= i < s.len() implies m.contains_key((#[trigger] s[i]).0)
            && m[s[i].0] == s[i].1 by {
            if i < p {
                assert(s[i] == r[i]);
                assert(rest.contains_key(r[i].0));
            } else if i > p {
                assert(s[i] == r[i - 1]);
                assert(rest.contains_key(r[i - 1].0));
            }
        }
        assert forall|q: K| m.contains_key(q) implies exists|i: int|
            0 <= i < s.len() && (#[trigger] s[i]).0 == q by {
            if q == k {
                assert(s[p].0 == q);
            } else {
                assert(rest.contains_key(q));
                let i = choose|i: int| 0 <= i < r.len() && (#[trigger] r[i]).0 == q;
                if i < p {
                    assert(s[i] == r[i]);
                } else {
                    assert(s[i + 1] == r[i]);
                }
            }
        }
        assert(lists_by_rank(s, m, rank));
    }
}

/// Two listings of one map, whatever their rankings, hold the same entries
/// the same number of times.
pub proof fn lemma_listings_same_entries<K, V>(
    s1: Seq<(K, V)>,
    s2: Seq<(K, V)>,
    m: Map<K, V>,
    rank1: spec_fn(K) -> int,
    rank2: spec_fn(K) -> int,
)
    requires
        lists_by_rank(s1, m, rank1),
        lists_by_rank(s2, m, rank2),
    ensures
        s1.to_multiset() == s2.to_multiset(),
{
    lemma_listing_counts(s1, m, rank1);
    lemma_listing_counts(s2, m, rank2);
    assert(s1.to_multiset() =~= s2.to_multiset());
}

/// A listing holds each entry of the map once, and nothing else.
proof fn lemma_listing_counts<K, V>(s: Seq<(K, V)>, m: Map<K, V>, rank: spec_fn(K) -> int)
    requires
        lists_by_rank(s, m, rank),
    ensures
        forall|e: (K, V)|
            #[trigger] s.to_multiset().count(e) == if m.contains_key(e.0) && m[e.0] == e.1 {
                1nat
            } else {
                0nat
            },
{
    assert(s.no_duplicates()) by {
        assert forall|i: int, j: int| 0 <= i < s.len() && 0 <= j < s.len() && i != j implies s[i]
            != s[j] by {
            if i < j {
                assert(rank(s[i].0) < rank(s[j].0));
            } else {
                assert(rank(s[j].0) < rank(s[i].0));
            }
        }
    }
    s.lemma_multiset_has_no_duplicates();
    assert forall|e: (K, V)|
        #[trigger] s.to_multiset().count(e) == if m.contains_key(e.0) && m[e.0] == e.1 {
            1nat
        } else {
            0nat
        } by {
        vstd::seq_lib::to_multiset_contains(s, e);
        if m.contains_key(e.0) && m[e.0] == e.1 {
            let i = choose|i: int| 0 <= i < s.len() && (#[trigger] s[i]).0 == e.0;
            assert(s[i] == e);
            assert(s.contains(e));
            assert(s.to_multiset().contains(e));
        } else {
            if s.contains(e) {
                let i = choose|i: int| 0 <= i < s.len() && s[i] == e;
                assert(m.contains_key(s[i].0));
            }
        }
    }
}

/// Concatenating what `f` gives for each element yields the same elements,
/// as often, whatever the order of the sequence.
pub proof fn lemma_flat_map_permutation<E, A>(x: Seq<E>, y: Seq<E>, f: spec_fn(E) -> Seq<A>)
    requires
        x.to_multiset() == y.to_multiset(),
    ensures
        x.flat_map(f).to_multiset() == y.flat_map(f).to_multiset(),
    decreases x.len(),
{
    vstd::seq_lib::to_multiset_len(x);
    vstd::seq_lib::to_multiset_len(y);
    if x.len() == 0 {
        assert(x =~= y);
    } else {
        let a = x.last();
        let x0 = x.drop_last();
        assert(x =~= x0.push(a));
        vstd::seq_lib::to_multiset_contains(x, a);
        vstd::seq_lib::to_multiset_contains(y, a);
        assert(x.contains(a));
        let i = choose|i: int| 0 <= i < y.len() && y[i] == a;
        let y0 = y.remove(i);
        vstd::seq_lib::to_multiset_remove(y, i);
        vstd::seq_lib::to_multiset_remove(x, x.len() - 1);
        assert(x.remove(x.len() - 1) =~= x0);
        lemma_flat_map_permutation(x0, y0, f);
        x0.lemma_flat_map_push(f, a);
        let front = y.take(i);
        let back = y.skip(i + 1);
        assert(y =~= front.push(a) + back);
        assert(y0 =~= front + back);
        lemma_flat_map_concat(front.push(a), back, f);
        lemma_flat_map_concat(front, back, f);
        front.lemma_flat_map_push(f, a);
        vstd::seq_lib::lemma_multiset_commutative(x0.flat_map(f), f(a));
        vstd::seq_lib::lemma_multiset_commutative(front.flat_map(f) + f(a), back.flat_map(f));
        vstd::seq_lib::lemma_multiset_commutative(front.flat_map(f), f(a));
        vstd::seq_lib::lemma_multiset_commutative(front.flat_map(f), back.flat_map(f));
        assert(y.flat_map(f).to_multiset() =~= y0.flat_map(f).to_multiset().add(
            f(a).to_multiset(),
        ));
    }
}

/// `flat_map` goes through concatenation.
proof fn lemma_flat_map_concat<E, A>(x: Seq<E>, y: Seq<E>, f: spec_fn(E) -> Seq<A>)
    ensures
        (x + y).flat_map(f) == x.flat_map(f) + y.flat_map(f),
{
    assert((x + y).map_values(f) =~= x.map_values(f) + y.map_values(f));
    vstd::seq_lib::lemma_flatten_concat(x.map_values(f), y.map_values(f));
}

/// A listing stays one when a function is applied to what was marked, in the
/// map and in the listing alike.
pub proof fn lemma_listing_map_values<K, V, W>(
    s: Seq<(K, V)>,
    m: Map<K, V>,
    rank: spec_fn(K) -> int,
    f: spec_fn(V) -> W,
)
    requires
        lists_by_rank(s, m, rank),
    ensures
        lists_by_rank(s.map_values(|e: (K, V)| (e.0, f(e.1))), m.map_values(f), rank),
{
    let t = s.map_values(|e: (K, V)| (e.0, f(e.1)));
    let n = m.map_values(f);
    assert forall|i: int, j: int| #![trigger t[i], t[j]] 0 <= i < j < t.len() implies rank(t[i].0)
        < rank(t[j].0) by {
        assert(rank(s[i].0) < rank(s[j].0));
    }
    assert forall|i: int| 0 <= i < t.len() implies n.contains_key((#[trigger] t[i]).0) && n[t[i].0]
        == t[i].1 by {
        assert(m.contains_key(s[i].0));
    }
    assert forall|k: K| n.contains_key(k) implies exists|i: int|
        0 <= i < t.len() && (#[trigger] t[i]).0 == k by {
        assert(m.contains_key(k));
        let i = choose|i: int| 0 <= i < s.len() && (#[trigger] s[i]).0 == k;
        assert(t[i].0 == k);
    }
}

/// The entries that a walk over borrowed values saw, as entries of the map.
pub open spec fn owned_entries<K, V>(s: Seq<(K, &V)>) -> Seq<(K, V)> {
    s.map_values(|e: (K, &V)| (e.0, *e.1))
}

/// Whether `rank` grows wherever the key type's own order does.
pub open spec fn follows_key_order<K: Ord>(rank: spec_fn(K) -> int) -> bool {
    forall|a: K, b: K| (#[trigger] a.cmp_spec(&b) is Less) ==> rank(a) < rank(b)
}

proof fn lemma_increasing_ranks<K: Ord>(keys: Seq<K>, rank: spec_fn(K) -> int)
    requires
        obeys_cmp::<K>(),
        follows_key_order(rank),
        increasing_seq(keys),
    ensures
        forall|i: int, j: int|
            0 <= i < j < keys.len() ==> rank(#[trigger] keys[i]) < rank(#[trigger] keys[j]),
{
    axiom_increasing_seq_meaning(keys);
    assert forall|i: int, j: int| 0 <= i < j < keys.len() implies rank(#[trigger] keys[i]) < rank(
        #[trigger] keys[j],
    ) by {
        assert(keys[i].cmp_spec(&keys[j]) is Less);
    }
}

/// Walks the map and collects its entries in the order of the walk, which is
/// that of the keys.
pub(crate) fn collect_entries<'a, K: Ord + Copy, V>(
    map: &'a BTreeMap<K, V>,
    Ghost(rank): Ghost<spec_fn(K) -> int>,
) -> (entries: Vec<(K, &'a V)>)
    requires
        obeys_cmp::<K>(),
        follows_key_order(rank),
    ensures
        lists_by_rank(owned_entries(entries@), map@, rank),
        owned_entries(entries@) == listing_by_rank(map@, rank),
{
    let mut entries: Vec<(K, &'a V)> = Vec::new();
    for kv in it: map.iter()
        invariant
            obeys_cmp::<K>(),
            follows_key_order(rank),
            entries@.len() == it.index(),
            forall|i: int|
                0 <= i < entries@.len() ==> entries@[i].0 == *it.seq()[i].0 && entries@[i].1
                    == it.seq()[i].1,
            increasing_seq(it.seq().map_values(|kv: (&K, &V)| *kv.0)),
            forall|i: int|
                0 <= i < it.seq().len() ==> map@.contains_key(*it.seq()[i].0)
                    && map@[*it.seq()[i].0] == *it.seq()[i].1,
            forall|i: int, j: int|
                #![trigger entries@[i], entries@[j]]
                0 <= i < j < entries@.len() ==> rank(entries@[i].0) < rank(entries@[j].0),
            forall|k: K|
                map@.contains_key(k) ==> (exists|i: int|
                    0 <= i < entries@.len() && (#[trigger] entries@[i]).0 == k) || (exists|i: int|
                    entries@.len() <= i < it.seq().len() && *(#[trigger] it.seq()[i]).0 == k),
    {
        let (k, val) = kv;
        let ghost before = entries@;
        proof {
            let keys = it.seq().map_values(|kv: (&K, &V)| *kv.0);
            lemma_increasing_ranks(keys, rank);
            let n = it.index();
            assert forall|i: int| 0 <= i < n implies rank(entries@[i].0) < rank(*k) by {
                assert(rank(keys[i]) < rank(keys[n]));
            }
        }
        entries.push((*k, val));
        proof {
            let n = it.index();
            assert forall|q: K| map@.contains_key(q) implies (exists|i: int|
                0 <= i < entries@.len() && (#[trigger] entries@[i]).0 == q) || (exists|i: int|
                entries@.len() <= i < it.seq().len() && *(#[trigger] it.seq()[i]).0 == q) by {
                if exists|i: int| 0 <= i < before.len() && (#[trigger] before[i]).0 == q {
                    let i = choose|i: int| 0 <= i < before.len() && (#[trigger] before[i]).0 == q;
                    assert(entries@[i].0 == q);
                } else {
                    let i = choose|i: int|
                        before.len() <= i < it.seq().len() && *(#[trigger] it.seq()[i]).0 == q;
                    if i == n {
                        assert(entries@[n].0 == q);
                    } else {
                        assert(*it.seq()[i].0 == q);
                    }
                }
            }
        }
    }
    proof {
        let s = owned_entries(entries@);
        assert forall|k: K| map@.contains_key(k) implies exists|i: int|
            0 <= i < s.len() && (#[trigger] s[i]).0 == k by {
            let i = choose|i: int| 0 <= i < entries@.len() && (#[trigger] entries@[i]).0 == k;
            assert(s[i].0 == k);
        }
        assert forall|i: int, j: int| #![trigger s[i], s[j]] 0 <= i < j < s.len() implies rank(
            s[i].0,
        ) < rank(s[j].0) by {
            assert(rank(entries@[i].0) < rank(entries@[j].0));
        }
        lemma_listing_is(s, map@, rank);
    }
    entries
}

/// The entries of a map keyed by preference numbers, by ascending number.
pub fn entries_in_order<'a, V>(map: &'a BTreeMap<u32, V>) -> (entries: Vec<(u32, &'a V)>)
    ensures
        lists_by_rank(owned_entries(entries@), map@, key_rank()),
        owned_entries(entries@) == ascending(map@),
{
    collect_entries(map, Ghost(key_rank()))
}

} // verus!
