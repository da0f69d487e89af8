//! Sorted association sequences keyed by byte strings.
//!
//! Trees map entry names to entries and snapshots map identifiers to
//! trees.  Both are stored as vectors of pairs whose keys are strictly
//! increasing in lexicographic byte order, so that iteration order is
//! canonical.  This module relates such sequences to the `Map` values the
//! contracts speak of.

use vstd::prelude::*;
use vstd::map::*;

verus! {

/// `lt` is a strict order: irreflexive and transitive.
pub open spec fn strict_order<K>(lt: spec_fn(K, K) -> bool) -> bool {
    &&& forall|a: K| !#[trigger] lt(a, a)
    &&& forall|a: K, b: K, c: K| #[trigger] lt(a, b) && #[trigger] lt(b, c) ==> lt(a, c)
}

/// The mapping a key-value sequence stands for (later pairs win).
pub open spec fn assoc_map<K, V>(s: Seq<(K, V)>) -> Map<K, V>
    decreases s.len(),
{
    if s.len() == 0 {
        Map::empty()
    } else {
        assoc_map(s.drop_last()).insert(s.last().0, s.last().1)
    }
}

/// Some pair in `s` carries the key `k`.
pub open spec fn has_key<K, V>(s: Seq<(K, V)>, k: K) -> bool {
    exists|i: int| 0 <= i < s.len() && s[i].0 == k
}

/// Keys are strictly increasing under `lt`.
pub open spec fn keys_sorted<K, V>(s: Seq<(K, V)>, lt: spec_fn(K, K) -> bool) -> bool {
    forall|i: int, j: int| 0 <= i < j < s.len() ==> lt(s[i].0, s[j].0)
}

/// No two pairs carry the same key.
pub open spec fn keys_distinct<K, V>(s: Seq<(K, V)>) -> bool {
    forall|i: int, j: int| 0 <= i < j < s.len() ==> s[i].0 != s[j].0
}

pub proof fn lemma_sorted_implies_distinct<K, V>(s: Seq<(K, V)>, lt: spec_fn(K, K) -> bool)
    requires
        strict_order(lt),
        keys_sorted(s, lt),
    ensures
        keys_distinct(s),
{
    assert forall|i: int, j: int| 0 <= i < j < s.len() implies s[i].0 != s[j].0 by {
        assert(lt(s[i].0, s[j].0));
    }
}

/// The domain of the mapping is exactly the set of keys in the sequence.
pub proof fn lemma_assoc_map_dom<K, V>(s: Seq<(K, V)>)
    ensures
        forall|k: K| #[trigger] assoc_map(s).dom().contains(k) <==> has_key(s, k),
    decreases s.len(),
{
    if s.len() > 0 {
        let dl = s.drop_last();
        lemma_assoc_map_dom(dl);
        assert forall|k: K| #[trigger] assoc_map(s).dom().contains(k) implies has_key(
            s,
            k,
        ) by {
            if k == s.last().0 {
                assert(s[s.len() - 1].0 == k);
            } else {
                assert(assoc_map(dl).dom().contains(k));
                assert(has_key(dl, k));
                let i = choose|i: int| 0 <= i < dl.len() && dl[i].0 == k;
                assert(dl[i] == s[i]);
                assert(s[i].0 == k);
            }
        }
        assert forall|k: K| has_key(s, k) implies #[trigger] assoc_map(s).dom().contains(
            k,
        ) by {
            let i = choose|i: int| 0 <= i < s.len() && s[i].0 == k;
            if i < s.len() - 1 {
                assert(dl[i] == s[i]);
                assert(has_key(dl, k));
                assert(assoc_map(dl).dom().contains(k));
            } else {
                assert(k == s.last().0);
            }
        }
    }
}

/// With distinct keys, each pair is found in the mapping.
pub proof fn lemma_assoc_map_index<K, V>(s: Seq<(K, V)>, i: int)
    requires
        keys_distinct(s),
        0 <= i < s.len(),
    ensures
        assoc_map(s).dom().contains(s[i].0),
        assoc_map(s)[s[i].0] == s[i].1,
    decreases s.len(),
{
    if i == s.len() - 1 {
    } else {
        assert(keys_distinct(s.drop_last()));
        lemma_assoc_map_index(s.drop_last(), i);
        assert(s[i].0 != s.last().0);
    }
}

/// Concatenation corresponds to right-preferring map union.
pub proof fn lemma_assoc_map_concat<K, V>(s1: Seq<(K, V)>, s2: Seq<(K, V)>)
    ensures
        assoc_map(s1 + s2) == assoc_map(s1).union_prefer_right(assoc_map(s2)),
    decreases s2.len(),
{
    if s2.len() == 0 {
        assert(s1 + s2 =~= s1);
        lemma_assoc_map_dom(s2);
        assert(assoc_map(s1).union_prefer_right(assoc_map(s2)) =~= assoc_map(s1));
    } else {
        lemma_assoc_map_concat(s1, s2.drop_last());
        assert((s1 + s2).drop_last() =~= s1 + s2.drop_last());
        assert((s1 + s2).last() == s2.last());
        assert(assoc_map(s1).union_prefer_right(assoc_map(s2.drop_last())).insert(
            s2.last().0,
            s2.last().1,
        ) =~= assoc_map(s1).union_prefer_right(
            assoc_map(s2.drop_last()).insert(s2.last().0, s2.last().1),
        ));
    }
}

/// Inserting a fresh key at its ordered position keeps the sequence sorted
/// and inserts into the mapping.
pub proof fn lemma_assoc_sorted_insert<K, V>(
    s: Seq<(K, V)>,
    lt: spec_fn(K, K) -> bool,
    p: int,
    k: K,
    v: V,
)
    requires
        strict_order(lt),
        keys_sorted(s, lt),
        0 <= p <= s.len(),
        forall|i: int| 0 <= i < p ==> lt(s[i].0, k),
        forall|i: int| p <= i < s.len() ==> lt(k, s[i].0),
    ensures
        keys_sorted(s.insert(p, (k, v)), lt),
        assoc_map(s.insert(p, (k, v))) == assoc_map(s).insert(k, v),
{
    let t = s.insert(p, (k, v));
    assert forall|i: int, j: int| 0 <= i < j < t.len() implies lt(t[i].0, t[j].0) by {
        if i < p && j > p {
            assert(t[i] == s[i] && t[j] == s[j - 1]);
        } else if i == p {
            assert(t[j] == s[j - 1]);
        } else if j == p {
            assert(t[i] == s[i]);
        }
    }
    let front = s.take(p);
    let back = s.skip(p);
    assert(t =~= (front + seq![(k, v)]) + back);
    assert(s =~= front + back);
    lemma_assoc_map_concat(front, seq![(k, v)]);
    lemma_assoc_map_concat(front + seq![(k, v)], back);
    lemma_assoc_map_concat(front, back);
    assert(seq![(k, v)].drop_last() =~= Seq::<(K, V)>::empty());
    assert(assoc_map(Seq::<(K, V)>::empty()) == Map::<K, V>::empty());
    assert(assoc_map(seq![(k, v)]) == Map::<K, V>::empty().insert(k, v));
    lemma_assoc_map_dom(front);
    lemma_assoc_map_dom(back);
    assert(!has_key(back, k)) by {
        if has_key(back, k) {
            let i = choose|i: int| 0 <= i < back.len() && back[i].0 == k;
            assert(lt(k, back[i].0));
        }
    }
    assert(!assoc_map(back).dom().contains(k));
    let lhs = assoc_map(t);
    let rhs = assoc_map(s).insert(k, v);
    assert(lhs.dom() =~= rhs.dom());
    assert forall|q: K| #[trigger] lhs.dom().contains(q) implies lhs[q] == rhs[q] by {
        assert(assoc_map(front).dom().contains(q) <==> has_key(front, q));
        assert(assoc_map(back).dom().contains(q) <==> has_key(back, q));
    }
    assert(lhs =~= rhs);
}

/// A strictly sorted key-value sequence is determined by its mapping.
pub proof fn lemma_sorted_assoc_unique<K, V>(
    s1: Seq<(K, V)>,
    s2: Seq<(K, V)>,
    lt: spec_fn(K, K) -> bool,
)
    requires
        strict_order(lt),
        keys_sorted(s1, lt),
        keys_sorted(s2, lt),
        assoc_map(s1) == assoc_map(s2),
    ensures
        s1 == s2,
    decreases s1.len(),
{
    lemma_assoc_map_dom(s1);
    lemma_assoc_map_dom(s2);
    lemma_sorted_implies_distinct(s1, lt);
    lemma_sorted_implies_distinct(s2, lt);
    if s1.len() == 0 {
        if s2.len() > 0 {
            assert(s2[s2.len() - 1].0 == s2.last().0);
            assert(has_key(s2, s2.last().0));
            assert(assoc_map(s2).dom().contains(s2.last().0));
            assert(assoc_map(s1).dom().contains(s2.last().0));
            assert(has_key(s1, s2.last().0));
            assert(false);
        }
        assert(s1 =~= s2);
    } else {
        let k1 = s1.last().0;
        let k2 = s2.last().0;
        assert(s1[s1.len() - 1].0 == k1);
        assert(has_key(s1, k1));
        assert(assoc_map(s1).dom().contains(k1));
        assert(assoc_map(s2).dom().contains(k1));
        assert(has_key(s2, k1));
        if s2.len() == 0 {
            assert(false);
        }
        assert(s2[s2.len() - 1].0 == k2);
        assert(has_key(s2, k2));
        assert(assoc_map(s2).dom().contains(k2));
        assert(assoc_map(s1).dom().contains(k2));
        assert(has_key(s1, k2));
        assert(k1 == k2) by {
            if k1 != k2 {
                let i2 = choose|i: int| 0 <= i < s2.len() && s2[i].0 == k1;
                let i1 = choose|i: int| 0 <= i < s1.len() && s1[i].0 == k2;
                assert(i2 < s2.len() - 1);
                assert(lt(s2[i2].0, s2[s2.len() - 1].0));
                assert(i1 < s1.len() - 1);
                assert(lt(s1[i1].0, s1[s1.len() - 1].0));
                assert(lt(k1, k2) && lt(k2, k1));
                assert(lt(k1, k1));
            }
        }
        lemma_assoc_map_index(s1, s1.len() - 1);
        lemma_assoc_map_index(s2, s2.len() - 1);
        assert(s1.last().1 == s2.last().1);
        lemma_assoc_map_dom(s1.drop_last());
        lemma_assoc_map_dom(s2.drop_last());
        assert(assoc_map(s1.drop_last()) =~= assoc_map(s1).remove(k1)) by {
            assert(!has_key(s1.drop_last(), k1)) by {
                if has_key(s1.drop_last(), k1) {
                    let i = choose|i: int|
                        0 <= i < s1.drop_last().len() && s1.drop_last()[i].0 == k1;
                    assert(s1[i].0 == s1[s1.len() - 1].0);
                }
            }
        }
        assert(assoc_map(s2.drop_last()) =~= assoc_map(s2).remove(k2)) by {
            assert(!has_key(s2.drop_last(), k2)) by {
                if has_key(s2.drop_last(), k2) {
                    let i = choose|i: int|
                        0 <= i < s2.drop_last().len() && s2.drop_last()[i].0 == k2;
                    assert(s2[i].0 == s2[s2.len() - 1].0);
                }
            }
        }
        lemma_sorted_assoc_unique(s1.drop_last(), s2.drop_last(), lt);
        assert(s1 =~= s1.drop_last().push(s1.last()));
        assert(s2 =~= s2.drop_last().push(s2.last()));
    }
}

/// The mapping of a key-value sequence returns the value of the last
/// pair carrying a key.
pub proof fn lemma_assoc_tail_lookup<K, V>(s: Seq<(K, V)>, i: int)
    requires
        0 <= i < s.len(),
        forall|j: int| i < j < s.len() ==> s[j].0 != s[i].0,
    ensures
        assoc_map(s).dom().contains(s[i].0),
        assoc_map(s)[s[i].0] == s[i].1,
    decreases s.len(),
{
    if i == s.len() - 1 {
    } else {
        let dl = s.drop_last();
        assert forall|j: int| i < j < dl.len() implies dl[j].0 != dl[i].0 by {
            assert(dl[j] == s[j] && dl[i] == s[i]);
        }
        lemma_assoc_tail_lookup(dl, i);
        assert(s.last().0 != s[i].0);
    }
}

} // verus!
