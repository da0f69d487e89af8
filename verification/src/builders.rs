//! Builders for constructing [snapshots][crate::Snapshot].
//!
//! [`SnapshotBuilder`] is the low-level primitive: it assembles a
//! snapshot from pre-built trees under caller-asserted identifiers and
//! validates referential closure when it finalizes.  It is the caller's
//! responsibility to add a tree shared by several parents only once.

use vstd::prelude::*;
use crate::assoc::{
    assoc_map, has_key, keys_distinct, keys_sorted, lemma_assoc_map_concat, lemma_assoc_map_dom,
    lemma_assoc_map_index, lemma_assoc_sorted_insert, lemma_assoc_tail_lookup,
    lemma_sorted_implies_distinct,
};
use crate::lex::{
    bytes_lt, compare_bytes, id_lt, id_order, lemma_bytes_lt_transitive, lemma_id_lt_connected,
    lemma_id_order_strict,
};
use crate::{referenced_ids, EntryKind, Snapshot, SpecEntry, Tree, ID};

verus! {

/// An error that can occur while using a [`SnapshotBuilder`].
#[derive(Debug)]
pub enum SnapshotBuilderError {
    /// The snapshot already contains a tree with this ID.
    DuplicateTree { id: ID },
    /// The snapshot doesn't contain a tree with this ID.
    MissingTree { id: ID },
    /// The snapshot contains trees that aren't mentioned, or mentions
    /// nonexistent trees.
    InconsistentTrees,
}

/// Builds up a [`Snapshot`] from a list of trees.
///
/// Trees are kept sorted by identifier; [`with_id`][Self::with_id]
/// checks the closure invariant and assembles the snapshot.
pub struct SnapshotBuilder {
    trees: Vec<(ID, Tree)>,
}

/// Where an identifier sits in a sorted tree list: at an index it
/// already occupies, or at the index where it would be inserted.
enum IdSlot {
    Occupied(usize),
    Vacant(usize),
}

impl SnapshotBuilder {
    /// The stored trees as an identifier-keyed sequence, in stored order.
    pub closed spec fn trees_seq(&self) -> Seq<(Seq<char>, Seq<(Seq<u8>, SpecEntry)>)> {
        self.trees@.map_values(|p: (ID, Tree)| (p.0@, p.1@))
    }

    /// The identifier-to-tree mapping accumulated so far.
    pub open spec fn tree_map(&self) -> Map<Seq<char>, Seq<(Seq<u8>, SpecEntry)>> {
        assoc_map(self.trees_seq())
    }

    /// Trees are sorted by identifier and each is well formed.
    pub open spec fn wf(&self) -> bool {
        &&& keys_sorted(self.trees_seq(), id_order())
        &&& forall|i: int|
            0 <= i < self.trees_seq().len() ==> keys_sorted(
                #[trigger] self.trees_seq()[i].1,
                crate::lex::byte_order(),
            )
    }

    /// Creates a new empty `SnapshotBuilder`.
    pub fn new() -> (r: SnapshotBuilder)
        ensures
            r.wf(),
            r.tree_map() == Map::<Seq<char>, Seq<(Seq<u8>, SpecEntry)>>::empty(),
    {
        let r = SnapshotBuilder { trees: Vec::new() };
        proof {
            assert(r.trees_seq() =~= Seq::<(Seq<char>, Seq<(Seq<u8>, SpecEntry)>)>::empty());
        }
        r
    }

    /// Finds the slot for an identifier in the sorted tree list.
    fn search(&self, id: &ID) -> (slot: IdSlot)
        requires
            self.wf(),
        ensures
            match slot {
                IdSlot::Occupied(i) => i < self.trees_seq().len() && self.trees_seq()[i as int].0
                    == id@,
                IdSlot::Vacant(p) => {
                    &&& p <= self.trees_seq().len()
                    &&& forall|i: int| 0 <= i < p ==> id_lt(self.trees_seq()[i].0, id@)
                    &&& forall|i: int|
                        p <= i < self.trees_seq().len() ==> id_lt(id@, self.trees_seq()[i].0)
                },
            },
    {
        let n: usize = self.trees.len();
        let mut p: usize = 0;
        while p < n
            invariant
                p <= n,
                self.wf(),
                n == self.trees@.len(),
                n == self.trees_seq().len(),
                forall|i: int| 0 <= i < p ==> id_lt(self.trees_seq()[i].0, id@),
            decreases n - p,
        {
            let o = compare_bytes(self.trees[p].0.as_str().as_bytes(), id.as_str().as_bytes());
            proof {
                assert(self.trees_seq()[p as int].0 == self.trees@[p as int].0@);
            }
            match o {
                core::cmp::Ordering::Less => {
                    p = p + 1;
                },
                core::cmp::Ordering::Equal => {
                    proof {
                        lemma_id_lt_connected(self.trees_seq()[p as int].0, id@);
                    }
                    return IdSlot::Occupied(p);
                },
                core::cmp::Ordering::Greater => {
                    proof {
                        assert forall|i: int| p <= i < self.trees_seq().len() implies id_lt(
                            id@,
                            self.trees_seq()[i].0,
                        ) by {
                            if i > p {
                                lemma_bytes_lt_transitive(
                                    vstd::utf8::encode_utf8(id@),
                                    vstd::utf8::encode_utf8(self.trees_seq()[p as int].0),
                                    vstd::utf8::encode_utf8(self.trees_seq()[i].0),
                                );
                            }
                        }
                    }
                    return IdSlot::Vacant(p);
                },
            }
        }
        IdSlot::Vacant(p)
    }

    /// Adds a [`Tree`] to this snapshot builder.  You must have already
    /// built up the complete contents of the tree.
    ///
    /// Returns an error if a tree with the same tree ID is already
    /// present.  (In particular, it is the caller's responsibility to
    /// detect that a snapshot holds several subdirectories with the same
    /// contents — and therefore the same tree ID — and add that tree
    /// only once.)
    pub fn add_tree(&mut self, id: ID, tree: Tree) -> (r: Result<(), SnapshotBuilderError>)
        requires
            old(self).wf(),
            tree.wf(),
        ensures
            final(self).wf(),
            match r {
                Ok(()) => {
                    &&& !old(self).tree_map().dom().contains(id@)
                    &&& final(self).tree_map() == old(self).tree_map().insert(id@, tree@)
                },
                Err(SnapshotBuilderError::DuplicateTree { id: e }) => {
                    &&& *final(self) == *old(self)
                    &&& old(self).tree_map().dom().contains(id@)
                    &&& e@ == id@
                },
                Err(_) => false,
            },
    {
        match self.search(&id) {
            IdSlot::Occupied(i) => {
                proof {
                    lemma_id_order_strict();
                    lemma_sorted_implies_distinct(self.trees_seq(), id_order());
                    lemma_assoc_map_index(self.trees_seq(), i as int);
                }
                Err(SnapshotBuilderError::DuplicateTree { id })
            },
            IdSlot::Vacant(p) => {
                proof {
                    lemma_id_order_strict();
                    assert(forall|i: int|
                        0 <= i < p ==> id_order()(self.trees_seq()[i].0, id@));
                    assert(forall|i: int|
                        p <= i < self.trees_seq().len() ==> id_order()(
                            id@,
                            self.trees_seq()[i].0,
                        ));
                    lemma_assoc_sorted_insert(self.trees_seq(), id_order(), p as int, id@, tree@);
                    lemma_assoc_map_dom(self.trees_seq());
                    if has_key(self.trees_seq(), id@) {
                        let i = choose|i: int|
                            0 <= i < self.trees_seq().len() && self.trees_seq()[i].0 == id@;
                        crate::lex::lemma_bytes_lt_irreflexive(vstd::utf8::encode_utf8(id@));
                    }
                }
                let ghost old_seq = self.trees_seq();
                let ghost tv = tree@;
                self.trees.insert(p, (id, tree));
                proof {
                    assert(self.trees_seq() =~= old_seq.insert(
                        p as int,
                        (self.trees@[p as int].0@, tv),
                    ));
                    assert forall|i: int| 0 <= i < self.trees_seq().len() implies keys_sorted(
                        #[trigger] self.trees_seq()[i].1,
                        crate::lex::byte_order(),
                    ) by {
                        if i < p {
                            assert(self.trees_seq()[i] == old_seq[i]);
                        } else if i > p {
                            assert(self.trees_seq()[i] == old_seq[i - 1]);
                        }
                    }
                }
                Ok(())
            },
        }
    }

    /// Whether some stored tree has a tree-kind entry referring to `x`.
    fn is_referenced_by_entry(&self, x: &ID) -> (b: bool)
        requires
            self.wf(),
        ensures
            b == exists|t: Seq<char>, i: int|
                #![trigger self.tree_map()[t][i]]
                self.tree_map().dom().contains(t) && 0 <= i < self.tree_map()[t].len()
                    && self.tree_map()[t][i].1.kind == EntryKind::Tree
                    && self.tree_map()[t][i].1.id == x@,
    {
        proof {
            lemma_id_order_strict();
            lemma_sorted_implies_distinct(self.trees_seq(), id_order());
            lemma_assoc_map_dom(self.trees_seq());
        }
        let ghost ts = self.trees_seq();
        let ghost m = self.tree_map();
        let n: usize = self.trees.len();
        let mut k: usize = 0;
        while k < n
            invariant
                k <= n,
                self.wf(),
                n == self.trees@.len(),
                ts == self.trees_seq(),
                m == self.tree_map(),
                n == ts.len(),
                forall|k2: int, l: int|
                    #![trigger ts[k2].1[l]]
                    0 <= k2 < k && 0 <= l < ts[k2].1.len() ==> !(ts[k2].1[l].1.kind
                        == EntryKind::Tree && ts[k2].1[l].1.id == x@),
            decreases n - k,
        {
            let entries = self.trees[k].1.iter();
            let m_entries: usize = entries.len();
            let mut l: usize = 0;
            while l < m_entries
                invariant
                    l <= m_entries,
                    k < n,
                    self.wf(),
                    n == self.trees@.len(),
                    ts == self.trees_seq(),
                    m == self.tree_map(),
                    n == ts.len(),
                    m_entries == entries@.len(),
                    entries@.map_values(|p: (Vec<u8>, crate::TreeEntry)| (p.0@, p.1@)) == ts[
                        k as int].1,
                    m_entries == ts[k as int].1.len(),
                    forall|l2: int|
                        #![trigger ts[k as int].1[l2]]
                        0 <= l2 < l ==> !(ts[k as int].1[l2].1.kind == EntryKind::Tree && ts[
                            k as int].1[l2].1.id == x@),
                decreases m_entries - l,
            {
                proof {
                    assert(ts[k as int].1[l as int] == (entries@[l as int].0@, entries@[
                        l as int].1@));
                }
                let entry = &entries[l].1;
                if matches!(entry.kind, EntryKind::Tree) {
                    let hit = entry.id == *x;
                    if hit {
                        proof {
                            lemma_id_order_strict();
                            lemma_sorted_implies_distinct(ts, id_order());
                            lemma_assoc_map_index(ts, k as int);
                            let t0 = ts[k as int].0;
                            assert(m.dom().contains(t0) && m[t0] == ts[k as int].1);
                            assert(m[t0][l as int].1.kind == EntryKind::Tree && m[t0][
                                l as int].1.id == x@);
                        }
                        return true;
                    }
                }
                l = l + 1;
            }
            k = k + 1;
        }
        proof {
            if exists|t: Seq<char>, i: int|
                #![trigger m[t][i]]
                m.dom().contains(t) && 0 <= i < m[t].len() && m[t][i].1.kind == EntryKind::Tree
                    && m[t][i].1.id == x@ {
                let (t, i) = choose|t: Seq<char>, i: int|
                    #![trigger m[t][i]]
                    m.dom().contains(t) && 0 <= i < m[t].len() && m[t][i].1.kind
                        == EntryKind::Tree && m[t][i].1.id == x@;
                assert(has_key(ts, t));
                let k2 = choose|k2: int| 0 <= k2 < ts.len() && ts[k2].0 == t;
                lemma_assoc_map_index(ts, k2);
                assert(m[t] == ts[k2].1);
                assert(ts[k2].1[i].1.kind == EntryKind::Tree && ts[k2].1[i].1.id == x@);
            }
        }
        false
    }

    /// Performs final verification of the contents of the snapshot,
    /// returning the resulting [`Snapshot`] or an error if the snapshot
    /// is malformed: the root must be stored, and the stored identifiers
    /// must be exactly the root plus every tree-kind entry identifier
    /// (no orphan trees, no dangling references).
    pub fn with_id(self, id: ID) -> (r: Result<Snapshot, SnapshotBuilderError>)
        requires
            self.wf(),
        ensures
            match r {
                Ok(s) => {
                    &&& s.wf()
                    &&& s.spec_id() == id@
                    &&& s.tree_map() == self.tree_map()
                    &&& s.trees_seq() == self.trees_seq()
                    &&& self.tree_map().dom().contains(id@)
                    &&& self.tree_map().dom() == referenced_ids(id@, self.tree_map())
                },
                Err(SnapshotBuilderError::MissingTree { id: e }) => {
                    &&& e@ == id@
                    &&& !self.tree_map().dom().contains(id@)
                },
                Err(SnapshotBuilderError::InconsistentTrees) => {
                    &&& self.tree_map().dom().contains(id@)
                    &&& self.tree_map().dom() != referenced_ids(id@, self.tree_map())
                },
                Err(SnapshotBuilderError::DuplicateTree { .. }) => false,
            },
    {
        proof {
            lemma_id_order_strict();
            lemma_sorted_implies_distinct(self.trees_seq(), id_order());
            lemma_assoc_map_dom(self.trees_seq());
        }
        let ghost ts = self.trees_seq();
        let ghost m = self.tree_map();
        let ghost refs = referenced_ids(id@, m);
        match self.search(&id) {
            IdSlot::Occupied(_) => (),
            IdSlot::Vacant(_) => {
                proof {
                    if has_key(ts, id@) {
                        let i = choose|i: int| 0 <= i < ts.len() && ts[i].0 == id@;
                        crate::lex::lemma_bytes_lt_irreflexive(vstd::utf8::encode_utf8(id@));
                    }
                }
                return Err(SnapshotBuilderError::MissingTree { id });
            },
        }

        // Every tree-kind entry of every stored tree must refer to a
        // stored tree (no dangling references).
        let n: usize = self.trees.len();
        let mut k: usize = 0;
        while k < n
            invariant
                k <= n,
                self.wf(),
                n == self.trees@.len(),
                ts == self.trees_seq(),
                m == self.tree_map(),
                n == ts.len(),
                refs == referenced_ids(id@, m),
                m.dom().contains(id@),
                forall|k2: int, l: int|
                    #![trigger ts[k2].1[l]]
                    0 <= k2 < k && 0 <= l < ts[k2].1.len() && ts[k2].1[l].1.kind
                        == EntryKind::Tree ==> m.dom().contains(ts[k2].1[l].1.id),
            decreases n - k,
        {
            let entries = self.trees[k].1.iter();
            let m_entries: usize = entries.len();
            let mut l: usize = 0;
            while l < m_entries
                invariant
                    l <= m_entries,
                    k < n,
                    self.wf(),
                    n == self.trees@.len(),
                    ts == self.trees_seq(),
                    m == self.tree_map(),
                    n == ts.len(),
                    m_entries == entries@.len(),
                    entries@.map_values(|p: (Vec<u8>, crate::TreeEntry)| (p.0@, p.1@)) == ts[
                        k as int].1,
                    m_entries == ts[k as int].1.len(),
                    refs == referenced_ids(id@, m),
                    m.dom().contains(id@),
                    forall|l2: int|
                        #![trigger ts[k as int].1[l2]]
                        0 <= l2 < l && ts[k as int].1[l2].1.kind == EntryKind::Tree ==> m.dom()
                            .contains(ts[k as int].1[l2].1.id),
                decreases m_entries - l,
            {
                proof {
                    assert(ts[k as int].1[l as int] == (entries@[l as int].0@, entries@[
                        l as int].1@));
                }
                let entry = &entries[l].1;
                if matches!(entry.kind, EntryKind::Tree) {
                    match self.search(&entry.id) {
                        IdSlot::Occupied(i) => {
                            proof {
                                lemma_assoc_map_dom(ts);
                                let x = ts[k as int].1[l as int].1.id;
                                assert(ts[i as int].0 == x);
                                assert(has_key(ts, x));
                                assert(m.dom().contains(x));
                            }
                        },
                        IdSlot::Vacant(_) => {
                            proof {
                                lemma_id_order_strict();
                                lemma_sorted_implies_distinct(ts, id_order());
                                lemma_assoc_map_dom(ts);
                                let x = ts[k as int].1[l as int].1.id;
                                if has_key(ts, x) {
                                    let i = choose|i: int| 0 <= i < ts.len() && ts[i].0 == x;
                                    crate::lex::lemma_bytes_lt_irreflexive(
                                        vstd::utf8::encode_utf8(x),
                                    );
                                }
                                // The reference dangles, so the stored set
                                // misses an identifier the trees mention.
                                lemma_assoc_map_index(ts, k as int);
                                let t0 = ts[k as int].0;
                                assert(m[t0][l as int].1.id == x);
                                assert(refs.contains(x));
                                assert(!m.dom().contains(x));
                                assert(m.dom() != refs);
                            }
                            return Err(SnapshotBuilderError::InconsistentTrees);
                        },
                    }
                }
                l = l + 1;
            }
            k = k + 1;
        }

        // Every stored tree must be the root or be mentioned by some
        // tree-kind entry (no orphan trees).
        let mut k2: usize = 0;
        while k2 < n
            invariant
                k2 <= n,
                self.wf(),
                n == self.trees@.len(),
                ts == self.trees_seq(),
                m == self.tree_map(),
                n == ts.len(),
                refs == referenced_ids(id@, m),
                m.dom().contains(id@),
                forall|j: int| 0 <= j < k2 ==> refs.contains(#[trigger] ts[j].0),
            decreases n - k2,
        {
            let stored = &self.trees[k2].0;
            proof {
                assert(ts[k2 as int].0 == self.trees@[k2 as int].0@);
            }
            let is_root = *stored == id;
            if !is_root {
                if !self.is_referenced_by_entry(stored) {
                    proof {
                        lemma_id_order_strict();
                        lemma_sorted_implies_distinct(ts, id_order());
                        lemma_assoc_map_dom(ts);
                        lemma_assoc_map_index(ts, k2 as int);
                        assert(m.dom().contains(ts[k2 as int].0));
                        assert(!refs.contains(ts[k2 as int].0));
                        assert(m.dom() != refs);
                    }
                    return Err(SnapshotBuilderError::InconsistentTrees);
                }
            }
            k2 = k2 + 1;
        }

        proof {
            // Both directions scanned clean: the stored set equals the
            // referenced set.
            assert forall|x: Seq<char>| refs.contains(x) implies m.dom().contains(x) by {
                if x != id@ {
                    let (t, i) = choose|t: Seq<char>, i: int|
                        #![trigger m[t][i]]
                        m.dom().contains(t) && 0 <= i < m[t].len() && m[t][i].1.kind
                            == EntryKind::Tree && m[t][i].1.id == x;
                    assert(has_key(ts, t));
                    let k3 = choose|k3: int| 0 <= k3 < ts.len() && ts[k3].0 == t;
                    lemma_assoc_map_index(ts, k3);
                    assert(ts[k3].1[i].1.kind == EntryKind::Tree && ts[k3].1[i].1.id == x);
                }
            }
            assert forall|x: Seq<char>| m.dom().contains(x) implies refs.contains(x) by {
                assert(has_key(ts, x));
                let k3 = choose|k3: int| 0 <= k3 < ts.len() && ts[k3].0 == x;
            }
            assert(m.dom() =~= refs);
            assert forall|i: int| 0 <= i < self.trees@.len() implies (#[trigger] self.trees@[
                i].1).wf() by {
                assert(ts[i].1 == self.trees@[i].1@);
            }
        }
        let result = Snapshot::from_parts(id, self.trees);
        Ok(result)
    }
}


/// The mathematical form of a pending (not yet hashed) hierarchy entry:
/// a file's identifier, or a directory's own pending entries.
pub enum PendingEntryV {
    File(Seq<char>),
    Dir(Seq<(Seq<u8>, PendingEntryV)>),
}

/// A pending directory: named files and subdirectories accumulated
/// before the hierarchy is frozen into trees.
pub(crate) struct PendingTree {
    pub(crate) entries: Vec<(Vec<u8>, PendingEntry)>,
}

/// A pending entry: a file leaf with its identifier, or a nested
/// pending directory.
pub(crate) enum PendingEntry {
    File(ID),
    Dir(PendingTree),
}

/// The mathematical form of a pending entry.
pub(crate) open(crate) spec fn pending_entry_view(e: PendingEntry) -> PendingEntryV
    decreases e, 0int,
{
    match e {
        PendingEntry::File(id) => PendingEntryV::File(id@),
        PendingEntry::Dir(t) => PendingEntryV::Dir(pending_tree_view(t)),
    }
}

/// The mathematical form of the first `n` stored pending entries.
pub(crate) open(crate) spec fn pending_entries_view(
    s: Seq<(Vec<u8>, PendingEntry)>,
    n: int,
) -> Seq<(Seq<u8>, PendingEntryV)>
    decreases s, n,
        when n <= s.len()
{
    if n <= 0 {
        Seq::empty()
    } else {
        pending_entries_view(s, n - 1).push((s[n - 1].0@, pending_entry_view(s[n - 1].1)))
    }
}

/// The mathematical form of a pending directory.
pub(crate) open(crate) spec fn pending_tree_view(t: PendingTree) -> Seq<(Seq<u8>, PendingEntryV)>
    decreases t, 0int,
{
    pending_entries_view(t.entries@, t.entries@.len() as int)
}

/// The view of a pending directory matches its entries, index by index.
pub(crate) proof fn lemma_pending_tree_view_shape(t: PendingTree)
    ensures
        pending_tree_view(t).len() == t.entries@.len(),
        forall|i: int|
            0 <= i < t.entries@.len() ==> pending_tree_view(t)[i] == (
                t.entries@[i].0@,
                pending_entry_view(t.entries@[i].1),
            ),
{
    lemma_pending_entries_view_shape(t.entries@, t.entries@.len() as int);
}

proof fn lemma_pending_entries_view_shape(s: Seq<(Vec<u8>, PendingEntry)>, n: int)
    requires
        n <= s.len(),
    ensures
        pending_entries_view(s, n).len() == if n <= 0 { 0int } else { n },
        forall|i: int|
            0 <= i < n ==> pending_entries_view(s, n)[i] == (
                s[i].0@,
                pending_entry_view(s[i].1),
            ),
    decreases n,
{
    if n > 0 {
        lemma_pending_entries_view_shape(s, n - 1);
    }
}

/// Names are strictly sorted at every level of a pending hierarchy.
pub open spec fn pending_wf(v: Seq<(Seq<u8>, PendingEntryV)>) -> bool
    decreases v,
{
    &&& keys_sorted(v, crate::lex::byte_order())
    &&& forall|i: int| 0 <= i < v.len() ==> pending_entry_wf(#[trigger] v[i].1)
}

/// A pending entry's own subtree is well formed.
pub open spec fn pending_entry_wf(e: PendingEntryV) -> bool
    decreases e,
{
    match e {
        PendingEntryV::File(_) => true,
        PendingEntryV::Dir(c) => pending_wf(c),
    }
}

/// The number of leading keys strictly below `k`; in a sorted sequence,
/// the slot where `k` sits or would be inserted.
pub open spec fn insert_pos<V>(s: Seq<(Seq<u8>, V)>, k: Seq<u8>) -> int
    decreases s.len(),
{
    if s.len() == 0 {
        0int
    } else if bytes_lt(s.first().0, k) {
        1 + insert_pos(s.skip(1), k)
    } else {
        0int
    }
}

proof fn lemma_insert_pos_at<V>(s: Seq<(Seq<u8>, V)>, k: Seq<u8>, p: int)
    requires
        0 <= p <= s.len(),
        forall|i: int| 0 <= i < p ==> bytes_lt(s[i].0, k),
        p < s.len() ==> !bytes_lt(s[p].0, k),
    ensures
        insert_pos(s, k) == p,
    decreases s.len(),
{
    if p == 0 {
        if s.len() > 0 {
            assert(!bytes_lt(s.first().0, k));
        }
    } else {
        assert(bytes_lt(s.first().0, k));
        let t = s.skip(1);
        assert forall|i: int| 0 <= i < p - 1 implies bytes_lt(t[i].0, k) by {
            assert(t[i] == s[i + 1]);
        }
        if p - 1 < t.len() {
            assert(t[p - 1] == s[p]);
        }
        lemma_insert_pos_at(t, k, p - 1);
    }
}

/// What adding a path places at the final segment: a file leaf with its
/// identifier, or an empty pending directory.
pub(crate) enum PendingLeaf {
    FileLeaf(ID),
    DirLeaf,
}

/// The mathematical form of a pending leaf.
pub(crate) open spec fn leaf_view(l: PendingLeaf) -> PendingEntryV {
    match l {
        PendingLeaf::FileLeaf(id) => PendingEntryV::File(id@),
        PendingLeaf::DirLeaf => PendingEntryV::Dir(Seq::empty()),
    }
}

/// What adding a leaf at `segs[from..]` does to a pending hierarchy:
/// the new hierarchy, or the depth of the segment where the path meets
/// a conflicting entry.  Missing intermediate directories are created;
/// adding a directory where the same directory already exists reuses
/// it; anything else that is already occupied is a conflict.
pub open spec fn spec_add(
    v: Seq<(Seq<u8>, PendingEntryV)>,
    segs: Seq<Seq<u8>>,
    from: int,
    leaf: PendingEntryV,
) -> Result<Seq<(Seq<u8>, PendingEntryV)>, int>
    recommends
        0 <= from < segs.len(),
    decreases segs.len() - from,
{
    let name = segs[from];
    let p = insert_pos(v, name);
    let found = p < v.len() && v[p].0 == name;
    if from >= segs.len() - 1 {
        if !found {
            Ok(v.insert(p, (name, leaf)))
        } else if leaf is Dir && v[p].1 is Dir {
            Ok(v)
        } else {
            Err(from)
        }
    } else {
        if !found {
            match spec_add(Seq::empty(), segs, from + 1, leaf) {
                Ok(c) => Ok(v.insert(p, (name, PendingEntryV::Dir(c)))),
                Err(d) => Err(d),
            }
        } else {
            match v[p].1 {
                PendingEntryV::File(_) => Err(from),
                PendingEntryV::Dir(c) => match spec_add(c, segs, from + 1, leaf) {
                    Ok(c2) => Ok(v.update(p, (name, PendingEntryV::Dir(c2)))),
                    Err(d) => Err(d),
                },
            }
        }
    }
}

impl PendingTree {
    /// Finds the slot for `name` in the sorted entry list.
    fn search(&self, name: &[u8]) -> (slot: IdSlot)
        requires
            keys_sorted(pending_tree_view(*self), crate::lex::byte_order()),
        ensures
            match slot {
                IdSlot::Occupied(i) => i < pending_tree_view(*self).len()
                    && pending_tree_view(*self)[i as int].0 == name@,
                IdSlot::Vacant(p) => {
                    &&& p <= pending_tree_view(*self).len()
                    &&& forall|i: int|
                        0 <= i < p ==> bytes_lt(pending_tree_view(*self)[i].0, name@)
                    &&& forall|i: int|
                        p <= i < pending_tree_view(*self).len() ==> bytes_lt(
                            name@,
                            pending_tree_view(*self)[i].0,
                        )
                },
            },
    {
        proof {
            lemma_pending_tree_view_shape(*self);
        }
        let ghost v = pending_tree_view(*self);
        let n: usize = self.entries.len();
        let mut p: usize = 0;
        while p < n
            invariant
                p <= n,
                v == pending_tree_view(*self),
                keys_sorted(v, crate::lex::byte_order()),
                n == self.entries@.len(),
                n == v.len(),
                forall|i: int| 0 <= i < p ==> bytes_lt(v[i].0, name@),
            decreases n - p,
        {
            proof {
                lemma_pending_tree_view_shape(*self);
                assert(v[p as int].0 == self.entries@[p as int].0@);
            }
            let o = compare_bytes(self.entries[p].0.as_slice(), name);
            match o {
                core::cmp::Ordering::Less => {
                    p = p + 1;
                },
                core::cmp::Ordering::Equal => {
                    return IdSlot::Occupied(p);
                },
                core::cmp::Ordering::Greater => {
                    proof {
                        assert forall|i: int| p <= i < v.len() implies bytes_lt(
                            name@,
                            v[i].0,
                        ) by {
                            if i > p {
                                assert(crate::lex::byte_order()(v[p as int].0, v[i].0));
                                lemma_bytes_lt_transitive(name@, v[p as int].0, v[i].0);
                            }
                        }
                    }
                    return IdSlot::Vacant(p);
                },
            }
        }
        IdSlot::Vacant(p)
    }
}

/// Copies a byte string.
fn clone_bytes(v: &Vec<u8>) -> (r: Vec<u8>)
    ensures
        r@ == v@,
{
    crate::lex::copy_bytes(v)
}

/// Adds the leaf at `segs[from..]` below the pending directory `t`,
/// creating intermediate pending directories as needed.  On a conflict,
/// returns the depth of the conflicting segment and leaves the
/// hierarchy as it was.
fn pending_add(t: &mut PendingTree, segs: &Vec<Vec<u8>>, from: usize, leaf: PendingLeaf) -> (r:
    Result<(), usize>)
    requires
        pending_wf(pending_tree_view(*old(t))),
        from < segs@.len(),
    ensures
        match r {
            Ok(()) => {
                &&& spec_add(
                    pending_tree_view(*old(t)),
                    segs.deep_view(),
                    from as int,
                    leaf_view(leaf),
                ) == Ok::<_, int>(pending_tree_view(*final(t)))
                &&& pending_wf(pending_tree_view(*final(t)))
            },
            Err(d) => {
                &&& spec_add(
                    pending_tree_view(*old(t)),
                    segs.deep_view(),
                    from as int,
                    leaf_view(leaf),
                ) == Err::<Seq<(Seq<u8>, PendingEntryV)>, int>(d as int)
                &&& pending_tree_view(*final(t)) == pending_tree_view(*old(t))
                &&& pending_wf(pending_tree_view(*final(t)))
                &&& from <= d < segs@.len()
            },
        },
    decreases segs@.len() - from,
{
    let ghost v = pending_tree_view(*old(t));
    let ghost sv = segs.deep_view();
    let name = &segs[from];
    proof {
        lemma_pending_tree_view_shape(*old(t));
        assert(sv[from as int] == segs@[from as int]@);
    }
    let slot = t.search(name.as_slice());
    let last = from == segs.len() - 1;
    match slot {
        IdSlot::Occupied(i) => {
            proof {
                crate::lex::lemma_byte_order_strict();
                assert forall|j: int| 0 <= j < i implies bytes_lt(v[j].0, name@) by {
                    assert(crate::lex::byte_order()(v[j].0, v[i as int].0));
                }
                if (i as int) < v.len() {
                    crate::lex::lemma_bytes_lt_irreflexive(v[i as int].0);
                }
                lemma_insert_pos_at(v, name@, i as int);
            }
            if last {
                match (&t.entries[i].1, &leaf) {
                    (PendingEntry::Dir(_), PendingLeaf::DirLeaf) => {
                        proof {
                            assert(pending_entry_view(t.entries@[i as int].1) == v[i as int].1);
                            assert(v[i as int].1 is Dir);
                            assert(spec_add(v, sv, from as int, leaf_view(leaf))
                                == Ok::<_, int>(v));
                        }
                        Ok(())
                    },
                    _ => {
                        proof {
                            assert(pending_entry_view(t.entries@[i as int].1) == v[i as int].1);
                            assert(!(leaf_view(leaf) is Dir && v[i as int].1 is Dir));
                        }
                        Err(from)
                    },
                }
            } else {
                let (nm, ent) = t.entries.remove(i);
                match ent {
                    PendingEntry::File(id) => {
                        t.entries.insert(i, (nm, PendingEntry::File(id)));
                        proof {
                            lemma_pending_tree_view_shape(*t);
                            assert(pending_tree_view(*t) =~= v);
                            assert(v[i as int].1 is File);
                        }
                        Err(from)
                    },
                    PendingEntry::Dir(mut sub) => {
                        proof {
                            assert(pending_entry_view(PendingEntry::Dir(sub)) == v[i as int].1);
                            assert(pending_entry_wf(v[i as int].1));
                        }
                        let r = pending_add(&mut sub, segs, from + 1, leaf);
                        let ghost subv = pending_tree_view(sub);
                        t.entries.insert(i, (nm, PendingEntry::Dir(sub)));
                        proof {
                            lemma_pending_tree_view_shape(*t);
                            assert(pending_tree_view(*t) =~= v.update(
                                i as int,
                                (name@, PendingEntryV::Dir(subv)),
                            ));
                        }
                        match r {
                            Ok(()) => {
                                proof {
                                    let w = pending_tree_view(*t);
                                    assert(keys_sorted(w, crate::lex::byte_order())) by {
                                        assert forall|a: int, b: int|
                                            0 <= a < b < w.len() implies crate::lex::byte_order()(
                                            w[a].0,
                                            w[b].0,
                                        ) by {
                                            assert(w[a].0 == v[a].0 && w[b].0 == v[b].0);
                                        }
                                    }
                                    assert forall|j: int|
                                        0 <= j < w.len() implies pending_entry_wf(
                                        #[trigger] w[j].1,
                                    ) by {
                                        if j != i as int {
                                            assert(w[j].1 == v[j].1);
                                        }
                                    }
                                }
                                Ok(())
                            },
                            Err(d) => {
                                proof {
                                    assert(pending_tree_view(*t) =~= v);
                                }
                                Err(d)
                            },
                        }
                    },
                }
            }
        },
        IdSlot::Vacant(p) => {
            proof {
                crate::lex::lemma_byte_order_strict();
                if (p as int) < v.len() {
                    if bytes_lt(v[p as int].0, name@) {
                        lemma_bytes_lt_transitive(name@, v[p as int].0, name@);
                    }
                    crate::lex::lemma_bytes_lt_irreflexive(name@);
                }
                lemma_insert_pos_at(v, name@, p as int);
                assert(!((p as int) < v.len() && v[p as int].0 == name@));
            }
            let fresh_name = clone_bytes(name);
            if last {
                let entry = match leaf {
                    PendingLeaf::FileLeaf(id) => PendingEntry::File(id),
                    PendingLeaf::DirLeaf => PendingEntry::Dir(PendingTree { entries: Vec::new() }),
                };
                proof {
                    assert(pending_entry_view(entry) == leaf_view(leaf));
                }
                t.entries.insert(p, (fresh_name, entry));
                proof {
                    lemma_pending_tree_view_shape(*t);
                    assert(pending_tree_view(*t) =~= v.insert(p as int, (name@, leaf_view(leaf))));
                    lemma_pending_sorted_insert(v, p as int, name@, leaf_view(leaf));
                    assert(pending_entry_wf(leaf_view(leaf)));
                    lemma_pending_wf_insert(v, p as int, name@, leaf_view(leaf));
                }
                Ok(())
            } else {
                let mut sub = PendingTree { entries: Vec::new() };
                proof {
                    lemma_pending_tree_view_shape(sub);
                    assert(pending_tree_view(sub) =~= Seq::<(Seq<u8>, PendingEntryV)>::empty());
                    assert(pending_wf(pending_tree_view(sub)));
                }
                let r = pending_add(&mut sub, segs, from + 1, leaf);
                match r {
                    Ok(()) => {
                        let ghost subv = pending_tree_view(sub);
                        t.entries.insert(p, (fresh_name, PendingEntry::Dir(sub)));
                        proof {
                            lemma_pending_tree_view_shape(*t);
                            assert(pending_tree_view(*t) =~= v.insert(
                                p as int,
                                (name@, PendingEntryV::Dir(subv)),
                            ));
                            lemma_pending_sorted_insert(v, p as int, name@, PendingEntryV::Dir(subv));
                            lemma_pending_wf_insert(v, p as int, name@, PendingEntryV::Dir(subv));
                        }
                        Ok(())
                    },
                    Err(d) => {
                        proof {
                            lemma_pending_tree_view_shape(*t);
                            assert(pending_tree_view(*t) =~= v);
                        }
                        Err(d)
                    },
                }
            }
        },
    }
}

/// Inserting a fresh name at its slot keeps the names sorted.
proof fn lemma_pending_sorted_insert(
    v: Seq<(Seq<u8>, PendingEntryV)>,
    p: int,
    k: Seq<u8>,
    e: PendingEntryV,
)
    requires
        keys_sorted(v, crate::lex::byte_order()),
        0 <= p <= v.len(),
        forall|i: int| 0 <= i < p ==> bytes_lt(v[i].0, k),
        forall|i: int| p <= i < v.len() ==> bytes_lt(k, v[i].0),
    ensures
        keys_sorted(v.insert(p, (k, e)), crate::lex::byte_order()),
{
    let t = v.insert(p, (k, e));
    assert forall|a: int, b: int| 0 <= a < b < t.len() implies crate::lex::byte_order()(
        t[a].0,
        t[b].0,
    ) by {
        if a < p && b > p {
            assert(t[a] == v[a] && t[b] == v[b - 1]);
        } else if a == p {
            assert(t[b] == v[b - 1]);
        } else if b == p {
            assert(t[a] == v[a]);
        }
    }
}

/// Inserting a well-formed entry keeps the hierarchy well formed.
proof fn lemma_pending_wf_insert(
    v: Seq<(Seq<u8>, PendingEntryV)>,
    p: int,
    k: Seq<u8>,
    e: PendingEntryV,
)
    requires
        pending_wf(v),
        0 <= p <= v.len(),
        forall|i: int| 0 <= i < p ==> bytes_lt(v[i].0, k),
        forall|i: int| p <= i < v.len() ==> bytes_lt(k, v[i].0),
        pending_entry_wf(e),
    ensures
        pending_wf(v.insert(p, (k, e))),
{
    lemma_pending_sorted_insert(v, p, k, e);
    let t = v.insert(p, (k, e));
    assert forall|j: int| 0 <= j < t.len() implies pending_entry_wf(#[trigger] t[j].1) by {
        if j < p {
            assert(t[j] == v[j]);
        } else if j > p {
            assert(t[j] == v[j - 1]);
        }
    }
}


/// The joined byte form of a segment sequence, slash-separated.
pub open spec fn join_segments(segs: Seq<Seq<u8>>) -> Seq<u8>
    decreases segs.len(),
{
    if segs.len() == 0 {
        Seq::empty()
    } else if segs.len() == 1 {
        segs[0]
    } else {
        segs[0] + seq![47u8] + join_segments(segs.skip(1))
    }
}

/// Joining after appending a segment appends a separator and the segment.
proof fn lemma_join_push(segs: Seq<Seq<u8>>, x: Seq<u8>)
    ensures
        join_segments(segs.push(x)) == if segs.len() == 0 {
            x
        } else {
            join_segments(segs) + seq![47u8] + join_segments(seq![x])
        },
    decreases segs.len(),
{
    let t = segs.push(x);
    if segs.len() == 0 {
        assert(t.len() == 1);
        assert(t[0] == x);
    } else if segs.len() == 1 {
        assert(t.len() == 2);
        assert(t.skip(1) =~= seq![x]);
        assert(t[0] == segs[0]);
    } else {
        assert(t.skip(1) =~= segs.skip(1).push(x));
        lemma_join_push(segs.skip(1), x);
        assert(t[0] == segs[0]);
        assert(join_segments(t) == segs[0] + seq![47u8] + join_segments(segs.skip(1).push(x)));
        assert(segs[0] + seq![47u8] + (join_segments(segs.skip(1)) + seq![47u8] + join_segments(
            seq![x],
        )) =~= (segs[0] + seq![47u8] + join_segments(segs.skip(1))) + seq![47u8] + join_segments(
            seq![x],
        ));
    }
}

/// Renders the first `upto + 1` segments as a slash-joined display path.
fn join_display(segs: &Vec<Vec<u8>>, upto: usize) -> (r: String)
    requires
        upto < segs@.len(),
    ensures
        r@ == crate::text::display_name(join_segments(segs.deep_view().take(upto + 1))),
{
    let ghost dv = segs.deep_view();
    let total: usize = segs.len();
    let count: usize = upto + 1;
    let mut joined: Vec<u8> = Vec::new();
    let mut i: usize = 0;
    proof {
        assert(dv.take(0) =~= Seq::<Seq<u8>>::empty());
        assert(joined@ =~= join_segments(dv.take(0)));
    }
    while i < count
        invariant
            i <= count,
            count == upto + 1,
            upto < segs@.len(),
            dv == segs.deep_view(),
            dv.len() == segs@.len(),
            joined@ == join_segments(dv.take(i as int)),
        decreases count - i,
    {
        if i > 0 {
            joined.push(47);
        }
        let seg = &segs[i];
        let m: usize = seg.len();
        let mut j: usize = 0;
        while j < m
            invariant
                j <= m,
                i <= upto,
                upto < segs@.len(),
                dv == segs.deep_view(),
                dv.len() == segs@.len(),
                m == seg@.len(),
                seg@ == segs@[i as int]@,
                joined@ == join_segments(dv.take(i as int)) + (if i > 0 {
                    seq![47u8]
                } else {
                    Seq::<u8>::empty()
                }) + seg@.take(j as int),
            decreases m - j,
        {
            joined.push(seg[j]);
            proof {
                assert(seg@.take(j + 1) =~= seg@.take(j as int).push(seg@[j as int]));
            }
            j = j + 1;
        }
        proof {
            assert(seg@.take(m as int) =~= seg@);
            assert(dv.take(i + 1) =~= dv.take(i as int).push(dv[i as int]));
            assert(dv[i as int] == segs@[i as int].deep_view());
            assert(segs@[i as int].deep_view() =~= seg@);
            lemma_join_push(dv.take(i as int), dv[i as int]);
            if i > 0 {
                assert(joined@ =~= join_segments(dv.take(i + 1)));
            } else {
                assert(joined@ =~= join_segments(dv.take(i + 1)));
            }
        }
        i = i + 1;
    }
    proof {
        assert(dv.take(upto + 1) =~= dv.take((upto + 1) as int));
    }
    crate::text::display_name_string(joined.as_slice())
}

/// An error that can occur while using a [`RelativePathBuilder`].
#[derive(Debug)]
pub enum RelativePathBuilderError {
    /// The path meets an already-existing entry; the conflicting prefix
    /// is carried in its display form.
    DuplicatePath { path: String },
    /// Two directories resolved to the same ID but are not equal.
    InconsistentDirectories { id: ID },
    /// The path is empty where a file or directory name is needed, or
    /// holds a `.` or `..` segment.
    InvalidPath { path: String },
    /// No tree ID is available for this directory.
    MissingTreeID { path: String },
    /// Final assembly rejected the built trees.
    SnapshotBuilderError(SnapshotBuilderError),
    /// A built tree rejected an entry.
    TreeError(crate::TreeError),
}

/// Builds up a [`Snapshot`] from a list of files with their full nested
/// paths within the snapshot root.  The builder creates the intermediate
/// directories itself and deduplicates identical trees when it builds.
pub struct RelativePathBuilder {
    root: PendingTree,
    tree_ids: Vec<(Vec<Vec<u8>>, ID)>,
}

impl RelativePathBuilder {
    /// The pending hierarchy accumulated so far.
    pub closed spec fn root_view(&self) -> Seq<(Seq<u8>, PendingEntryV)> {
        pending_tree_view(self.root)
    }

    /// The recorded explicit tree identifiers, in recording order.
    pub closed spec fn assigned_seq(&self) -> Seq<(Seq<Seq<u8>>, Seq<char>)> {
        self.tree_ids@.map_values(|p: (Vec<Vec<u8>>, ID)| (p.0.deep_view(), p.1@))
    }

    /// The path-to-identifier assignments recorded so far (a later
    /// assignment for the same path replaces an earlier one).
    pub open spec fn assigned_map(&self) -> Map<Seq<Seq<u8>>, Seq<char>> {
        assoc_map(self.assigned_seq())
    }

    /// Names are sorted at every level of the pending hierarchy.
    pub open spec fn wf(&self) -> bool {
        pending_wf(self.root_view())
    }

    /// Creates a new empty `RelativePathBuilder`.
    pub fn new() -> (r: RelativePathBuilder)
        ensures
            r.wf(),
            r.root_view() == Seq::<(Seq<u8>, PendingEntryV)>::empty(),
            r.assigned_map() == Map::<Seq<Seq<u8>>, Seq<char>>::empty(),
    {
        let r = RelativePathBuilder {
            root: PendingTree { entries: Vec::new() },
            tree_ids: Vec::new(),
        };
        proof {
            lemma_pending_tree_view_shape(r.root);
            assert(r.root_view() =~= Seq::<(Seq<u8>, PendingEntryV)>::empty());
            assert(r.assigned_seq() =~= Seq::<(Seq<Seq<u8>>, Seq<char>)>::empty());
        }
        r
    }

    /// Adds a new file with the given full path and ID, creating pending
    /// directories for each of the file's parents.  Returns an error if
    /// an entry already exists at the path or at one of its parents, or
    /// if the path is empty or malformed.
    pub fn add_file(&mut self, full_path: &str, id: ID) -> (r: Result<
        (),
        RelativePathBuilderError,
    >)
        requires
            old(self).wf(),
        ensures
            final(self).wf(),
            final(self).assigned_seq() == old(self).assigned_seq(),
            match r {
                Ok(()) => {
                    &&& crate::paths::path_ok(full_path@)
                    &&& crate::paths::path_segments(full_path@).len() > 0
                    &&& spec_add(
                        old(self).root_view(),
                        crate::paths::path_segments(full_path@),
                        0,
                        PendingEntryV::File(id@),
                    ) == Ok::<_, int>(final(self).root_view())
                },
                Err(RelativePathBuilderError::InvalidPath { path: p }) => {
                    &&& !crate::paths::path_ok(full_path@) || crate::paths::path_segments(
                        full_path@,
                    ).len() == 0
                    &&& final(self).root_view() == old(self).root_view()
                    &&& p@ == full_path@
                },
                Err(RelativePathBuilderError::DuplicatePath { path: p }) => {
                    &&& crate::paths::path_ok(full_path@)
                    &&& crate::paths::path_segments(full_path@).len() > 0
                    &&& final(self).root_view() == old(self).root_view()
                    &&& spec_add(
                        old(self).root_view(),
                        crate::paths::path_segments(full_path@),
                        0,
                        PendingEntryV::File(id@),
                    ) matches Err(d) && p@ == crate::text::display_name(
                        join_segments(crate::paths::path_segments(full_path@).take(d + 1)),
                    )
                },
                Err(_) => false,
            },
    {
        match crate::paths::parse_path(full_path) {
            None => Err(RelativePathBuilderError::InvalidPath { path: full_path.to_owned() }),
            Some(segs) => {
                if segs.len() == 0 {
                    return Err(
                        RelativePathBuilderError::InvalidPath { path: full_path.to_owned() },
                    );
                }
                match pending_add(&mut self.root, &segs, 0, PendingLeaf::FileLeaf(id)) {
                    Ok(()) => Ok(()),
                    Err(d) => {
                        let shown = join_display(&segs, d);
                        Err(RelativePathBuilderError::DuplicatePath { path: shown })
                    },
                }
            },
        }
    }

    /// Adds a new directory with the given full path, creating pending
    /// directories for each of its parents.  Adding a directory that is
    /// already pending is a no-op; a conflict with a file is an error.
    ///
    /// Parent directories of added files need no explicit declaration;
    /// only an empty directory has to be added this way.
    pub fn add_directory(&mut self, full_path: &str) -> (r: Result<(), RelativePathBuilderError>)
        requires
            old(self).wf(),
        ensures
            final(self).wf(),
            final(self).assigned_seq() == old(self).assigned_seq(),
            match r {
                Ok(()) => {
                    &&& crate::paths::path_ok(full_path@)
                    &&& crate::paths::path_segments(full_path@).len() > 0
                    &&& spec_add(
                        old(self).root_view(),
                        crate::paths::path_segments(full_path@),
                        0,
                        PendingEntryV::Dir(Seq::empty()),
                    ) == Ok::<_, int>(final(self).root_view())
                },
                Err(RelativePathBuilderError::InvalidPath { path: p }) => {
                    &&& !crate::paths::path_ok(full_path@) || crate::paths::path_segments(
                        full_path@,
                    ).len() == 0
                    &&& final(self).root_view() == old(self).root_view()
                    &&& p@ == full_path@
                },
                Err(RelativePathBuilderError::DuplicatePath { path: p }) => {
                    &&& crate::paths::path_ok(full_path@)
                    &&& crate::paths::path_segments(full_path@).len() > 0
                    &&& final(self).root_view() == old(self).root_view()
                    &&& spec_add(
                        old(self).root_view(),
                        crate::paths::path_segments(full_path@),
                        0,
                        PendingEntryV::Dir(Seq::empty()),
                    ) matches Err(d) && p@ == crate::text::display_name(
                        join_segments(crate::paths::path_segments(full_path@).take(d + 1)),
                    )
                },
                Err(_) => false,
            },
    {
        match crate::paths::parse_path(full_path) {
            None => Err(RelativePathBuilderError::InvalidPath { path: full_path.to_owned() }),
            Some(segs) => {
                if segs.len() == 0 {
                    return Err(
                        RelativePathBuilderError::InvalidPath { path: full_path.to_owned() },
                    );
                }
                match pending_add(&mut self.root, &segs, 0, PendingLeaf::DirLeaf) {
                    Ok(()) => Ok(()),
                    Err(d) => {
                        let shown = join_display(&segs, d);
                        Err(RelativePathBuilderError::DuplicatePath { path: shown })
                    },
                }
            },
        }
    }

    /// Records a predetermined tree ID for a directory path, consulted
    /// when the snapshot is built instead of computing an identifier.
    /// The empty path names the root.  A malformed path names no
    /// directory and records nothing.
    pub fn set_tree_id(&mut self, full_path: &str, id: ID)
        requires
            old(self).wf(),
        ensures
            final(self).wf(),
            final(self).root_view() == old(self).root_view(),
            crate::paths::path_ok(full_path@) ==> final(self).assigned_map() == old(
                self,
            ).assigned_map().insert(crate::paths::path_segments(full_path@), id@),
            !crate::paths::path_ok(full_path@) ==> final(self).assigned_seq() == old(
                self,
            ).assigned_seq(),
    {
        match crate::paths::parse_path(full_path) {
            None => (),
            Some(segs) => {
                let ghost old_seq = self.assigned_seq();
                let ghost key = segs.deep_view();
                let ghost idv = id@;
                self.tree_ids.push((segs, id));
                proof {
                    assert(self.assigned_seq() =~= old_seq.push((key, idv)));
                    assert(old_seq.push((key, idv)).drop_last() =~= old_seq);
                    assert(self.assigned_map() == assoc_map(old_seq).insert(key, idv));
                }
            },
        }
    }
}


/// The identifier a built directory resolves to: the explicitly assigned
/// identifier for its path if one was recorded, else the generated
/// content identifier of its built tree.
pub open spec fn resolve_id(
    path: Seq<Seq<u8>>,
    assigned: Map<Seq<Seq<u8>>, Seq<char>>,
    tv: Seq<(Seq<u8>, SpecEntry)>,
) -> Seq<char> {
    if assigned.dom().contains(path) {
        assigned[path]
    } else {
        crate::generate::spec_tree_id(tv)
    }
}

/// What storing a built tree under its resolved identifier does to the
/// accumulated tree store: a fresh identifier is added; an identifier
/// already holding the same tree is reused (deduplication); an
/// identifier holding a different tree is a hard conflict.
pub open spec fn spec_record(
    built: Map<Seq<char>, Seq<(Seq<u8>, SpecEntry)>>,
    rid: Seq<char>,
    tv: Seq<(Seq<u8>, SpecEntry)>,
) -> Result<Map<Seq<char>, Seq<(Seq<u8>, SpecEntry)>>, Seq<char>> {
    if built.dom().contains(rid) {
        if built[rid] == tv {
            Ok(built)
        } else {
            Err(rid)
        }
    } else {
        Ok(built.insert(rid, tv))
    }
}

/// What building the first `n` entries of a pending directory yields:
/// the frozen entry list so far and the tree store grown by the built
/// subdirectories, or the identifier of a deduplication conflict.
pub open spec fn spec_build_entries(
    v: Seq<(Seq<u8>, PendingEntryV)>,
    n: int,
    path: Seq<Seq<u8>>,
    assigned: Map<Seq<Seq<u8>>, Seq<char>>,
    built: Map<Seq<char>, Seq<(Seq<u8>, SpecEntry)>>,
) -> Result<(Seq<(Seq<u8>, SpecEntry)>, Map<Seq<char>, Seq<(Seq<u8>, SpecEntry)>>), Seq<char>>
    decreases v, n, 0int,
        when n <= v.len()
{
    if n <= 0 {
        Ok((Seq::empty(), built))
    } else {
        match spec_build_entries(v, n - 1, path, assigned, built) {
            Err(e) => Err(e),
            Ok((tv, b1)) => {
                let name = v[n - 1].0;
                match v[n - 1].1 {
                    PendingEntryV::File(fid) => Ok(
                        (tv.push((name, SpecEntry { kind: EntryKind::File, id: fid })), b1),
                    ),
                    PendingEntryV::Dir(c) => match spec_build_tree(
                        c,
                        path.push(name),
                        assigned,
                        b1,
                    ) {
                        Err(e) => Err(e),
                        Ok((cid, b2)) => Ok(
                            (tv.push((name, SpecEntry { kind: EntryKind::Tree, id: cid })), b2),
                        ),
                    },
                }
            },
        }
    }
}

/// What building a whole pending directory yields: its resolved
/// identifier and the tree store including it and every subdirectory,
/// or the identifier of a deduplication conflict.
pub open spec fn spec_build_tree(
    c: Seq<(Seq<u8>, PendingEntryV)>,
    path: Seq<Seq<u8>>,
    assigned: Map<Seq<Seq<u8>>, Seq<char>>,
    built: Map<Seq<char>, Seq<(Seq<u8>, SpecEntry)>>,
) -> Result<(Seq<char>, Map<Seq<char>, Seq<(Seq<u8>, SpecEntry)>>), Seq<char>>
    decreases c, c.len(), 1int,
{
    match spec_build_entries(c, c.len() as int, path, assigned, built) {
        Err(e) => Err(e),
        Ok((tv, b1)) => {
            let rid = resolve_id(path, assigned, tv);
            match spec_record(b1, rid, tv) {
                Ok(b2) => Ok((rid, b2)),
                Err(e) => Err(e),
            }
        },
    }
}

/// Every tree-kind entry of every stored tree refers to a stored tree.
pub open spec fn ref_closed(m: Map<Seq<char>, Seq<(Seq<u8>, SpecEntry)>>) -> bool {
    forall|t: Seq<char>, i: int|
        #![trigger m[t][i]]
        m.dom().contains(t) && 0 <= i < m[t].len() && m[t][i].1.kind == EntryKind::Tree
            ==> m.dom().contains(m[t][i].1.id)
}

/// Some stored tree has a tree-kind entry referring to `x`.
pub open spec fn entry_references(m: Map<Seq<char>, Seq<(Seq<u8>, SpecEntry)>>, x: Seq<char>) -> bool {
    exists|t: Seq<char>, i: int|
        #![trigger m[t][i]]
        m.dom().contains(t) && 0 <= i < m[t].len() && m[t][i].1.kind == EntryKind::Tree
            && m[t][i].1.id == x
}

/// `m2` keeps every binding of `m1`.
pub open spec fn map_extends(
    m2: Map<Seq<char>, Seq<(Seq<u8>, SpecEntry)>>,
    m1: Map<Seq<char>, Seq<(Seq<u8>, SpecEntry)>>,
) -> bool {
    forall|k: Seq<char>| #[trigger] m1.dom().contains(k) ==> m2.dom().contains(k) && m2[k] == m1[k]
}

proof fn lemma_map_extends_trans(
    m3: Map<Seq<char>, Seq<(Seq<u8>, SpecEntry)>>,
    m2: Map<Seq<char>, Seq<(Seq<u8>, SpecEntry)>>,
    m1: Map<Seq<char>, Seq<(Seq<u8>, SpecEntry)>>,
)
    requires
        map_extends(m3, m2),
        map_extends(m2, m1),
    ensures
        map_extends(m3, m1),
{
}

/// Every stored tree is either expected at top level or referenced by a
/// stored tree's entry: nothing is orphaned.
pub open spec fn covered(
    m: Map<Seq<char>, Seq<(Seq<u8>, SpecEntry)>>,
    e: Set<Seq<char>>,
) -> bool {
    forall|x: Seq<char>| #[trigger] m.dom().contains(x) ==> e.contains(x) || entry_references(m, x)
}

/// The view of a built-tree store, keyed by identifier.
pub(crate) open spec fn built_seq(b: Seq<(ID, Tree)>) -> Seq<(Seq<char>, Seq<(Seq<u8>, SpecEntry)>)> {
    b.map_values(|p: (ID, Tree)| (p.0@, p.1@))
}

/// Every stored tree value is well formed.
pub(crate) open spec fn built_wf(b: Seq<(ID, Tree)>) -> bool {
    forall|i: int| 0 <= i < b.len() ==> (#[trigger] b[i].1).wf()
}


/// Compares two segment lists for equality.
fn same_segments(a: &Vec<Vec<u8>>, b: &Vec<Vec<u8>>) -> (r: bool)
    ensures
        r == (a.deep_view() == b.deep_view()),
{
    let n: usize = a.len();
    if n != b.len() {
        proof {
            assert(a.deep_view().len() == a@.len());
            assert(b.deep_view().len() == b@.len());
        }
        return false;
    }
    let mut i: usize = 0;
    while i < n
        invariant
            i <= n,
            n == a@.len(),
            n == b@.len(),
            a.deep_view().len() == n,
            b.deep_view().len() == n,
            forall|j: int| 0 <= j < i ==> a.deep_view()[j] == b.deep_view()[j],
        decreases n - i,
    {
        let o = compare_bytes(a[i].as_slice(), b[i].as_slice());
        proof {
            assert(a.deep_view()[i as int] == a@[i as int].deep_view());
            assert(a@[i as int].deep_view() =~= a@[i as int]@);
            assert(b.deep_view()[i as int] == b@[i as int].deep_view());
            assert(b@[i as int].deep_view() =~= b@[i as int]@);
        }
        if !matches!(o, core::cmp::Ordering::Equal) {
            proof {
                assert(a.deep_view()[i as int] != b.deep_view()[i as int]);
            }
            return false;
        }
        i = i + 1;
    }
    proof {
        assert(a.deep_view() =~= b.deep_view());
    }
    true
}

/// Looks up the explicitly assigned identifier for a path, if any; a
/// later assignment for the same path wins.
fn lookup_assigned(ids: &Vec<(Vec<Vec<u8>>, ID)>, path: &Vec<Vec<u8>>) -> (o: Option<ID>)
    ensures
        ({
            let m = assoc_map(ids@.map_values(|p: (Vec<Vec<u8>>, ID)| (p.0.deep_view(), p.1@)));
            match o {
                Some(id) => m.dom().contains(path.deep_view()) && id@ == m[path.deep_view()],
                None => !m.dom().contains(path.deep_view()),
            }
        }),
{
    let ghost s = ids@.map_values(|p: (Vec<Vec<u8>>, ID)| (p.0.deep_view(), p.1@));
    let ghost key = path.deep_view();
    let n: usize = ids.len();
    let mut i: usize = n;
    while i > 0
        invariant
            i <= n,
            n == ids@.len(),
            s == ids@.map_values(|p: (Vec<Vec<u8>>, ID)| (p.0.deep_view(), p.1@)),
            s.len() == n,
            key == path.deep_view(),
            forall|j: int| i <= j < n ==> s[j].0 != key,
        decreases i,
    {
        i = i - 1;
        proof {
            assert(s[i as int].0 == ids@[i as int].0.deep_view());
        }
        if same_segments(&ids[i].0, path) {
            proof {
                lemma_assoc_tail_lookup(s, i as int);
            }
            return Some(ids[i].1.clone());
        }
    }
    proof {
        lemma_assoc_map_dom(s);
        if has_key(s, key) {
            let j = choose|j: int| 0 <= j < s.len() && s[j].0 == key;
        }
    }
    None
}

/// Finds the stored tree with this identifier, if any.
fn find_built(built: &Vec<(ID, Tree)>, id: &ID) -> (o: Option<usize>)
    ensures
        match o {
            Some(i) => i < built@.len() && built_seq(built@)[i as int].0 == id@,
            None => !has_key(built_seq(built@), id@),
        },
{
    let ghost s = built_seq(built@);
    let n: usize = built.len();
    let mut i: usize = 0;
    while i < n
        invariant
            i <= n,
            n == built@.len(),
            s == built_seq(built@),
            s.len() == n,
            forall|j: int| 0 <= j < i ==> s[j].0 != id@,
        decreases n - i,
    {
        proof {
            assert(s[i as int].0 == built@[i as int].0@);
        }
        let hit = built[i].0 == *id;
        if hit {
            return Some(i);
        }
        i = i + 1;
    }
    proof {
        if has_key(s, id@) {
            let j = choose|j: int| 0 <= j < s.len() && s[j].0 == id@;
        }
    }
    None
}

/// Stores a built tree under its resolved identifier, deduplicating an
/// identical tree already stored under the same identifier and
/// rejecting a different one.
fn record_tree(built: &mut Vec<(ID, Tree)>, id: ID, tree: Tree) -> (r: Result<
    (),
    RelativePathBuilderError,
>)
    requires
        keys_distinct(built_seq(old(built)@)),
        built_wf(old(built)@),
        tree.wf(),
    ensures
        keys_distinct(built_seq(final(built)@)),
        built_wf(final(built)@),
        match r {
            Ok(()) => {
                &&& spec_record(assoc_map(built_seq(old(built)@)), id@, tree@) == Ok::<_, Seq<
                    char,
                >>(assoc_map(built_seq(final(built)@)))
                &&& if assoc_map(built_seq(old(built)@)).dom().contains(id@) {
                    built_seq(final(built)@) == built_seq(old(built)@)
                } else {
                    built_seq(final(built)@) == built_seq(old(built)@).push((id@, tree@))
                }
            },
            Err(RelativePathBuilderError::InconsistentDirectories { id: e }) => {
                &&& e@ == id@
                &&& spec_record(assoc_map(built_seq(old(built)@)), id@, tree@) == Err::<Map<
                    Seq<char>,
                    Seq<(Seq<u8>, SpecEntry)>,
                >, _>(id@)
                &&& built_seq(final(built)@) == built_seq(old(built)@)
            },
            Err(_) => false,
        },
{
    let ghost s = built_seq(built@);
    proof {
        lemma_assoc_map_dom(s);
    }
    match find_built(built, &id) {
        Some(i) => {
            proof {
                lemma_assoc_map_index(s, i as int);
                assert(s[i as int].1 == built@[i as int].1@);
            }
            let matches_stored = built[i].1.same_content(&tree);
            if matches_stored {
                Ok(())
            } else {
                Err(RelativePathBuilderError::InconsistentDirectories { id })
            }
        },
        None => {
            let ghost idv = id@;
            let ghost tv = tree@;
            built.push((id, tree));
            proof {
                assert(built_seq(built@) =~= s.push((idv, tv)));
                assert(built_seq(built@).drop_last() =~= s);
                assert(assoc_map(built_seq(built@)) == assoc_map(s).insert(idv, tv));
                assert(keys_distinct(built_seq(built@))) by {
                    let t = built_seq(built@);
                    assert forall|a: int, b: int| 0 <= a < b < t.len() implies t[a].0 != t[
                        b].0 by {
                        if b == t.len() - 1 {
                            assert(t[a] == s[a]);
                            assert(has_key(s, t[a].0) ==> assoc_map(s).dom().contains(t[a].0));
                        } else {
                            assert(t[a] == s[a] && t[b] == s[b]);
                        }
                    }
                }
                assert(built_wf(built@)) by {
                    assert forall|j: int| 0 <= j < built@.len() implies (
                    #[trigger] built@[j].1).wf() by {
                        if j < built@.len() - 1 {
                            assert(built@[j] == old(built)@[j]);
                        }
                    }
                }
            }
            Ok(())
        },
    }
}


/// The path-to-identifier assignments a recorded identifier list stands
/// for.
pub(crate) open spec fn assigned_of(ids: Seq<(Vec<Vec<u8>>, ID)>) -> Map<Seq<Seq<u8>>, Seq<char>> {
    assoc_map(ids.map_values(|p: (Vec<Vec<u8>>, ID)| (p.0.deep_view(), p.1@)))
}

/// An error met while building the first entries persists to the rest.
proof fn lemma_spec_build_entries_err_mono(
    v: Seq<(Seq<u8>, PendingEntryV)>,
    k: int,
    n: int,
    path: Seq<Seq<u8>>,
    assigned: Map<Seq<Seq<u8>>, Seq<char>>,
    built: Map<Seq<char>, Seq<(Seq<u8>, SpecEntry)>>,
)
    requires
        0 <= k <= n <= v.len(),
        spec_build_entries(v, k, path, assigned, built) is Err,
    ensures
        spec_build_entries(v, n, path, assigned, built) == spec_build_entries(
            v,
            k,
            path,
            assigned,
            built,
        ),
    decreases n - k,
{
    if n > k {
        lemma_spec_build_entries_err_mono(v, k, n - 1, path, assigned, built);
    }
}

/// A built entry list carries the pending names, in order.
proof fn lemma_spec_build_entries_shape(
    v: Seq<(Seq<u8>, PendingEntryV)>,
    n: int,
    path: Seq<Seq<u8>>,
    assigned: Map<Seq<Seq<u8>>, Seq<char>>,
    built: Map<Seq<char>, Seq<(Seq<u8>, SpecEntry)>>,
)
    requires
        0 <= n <= v.len(),
        spec_build_entries(v, n, path, assigned, built) is Ok,
    ensures
        ({
            let tv = spec_build_entries(v, n, path, assigned, built)->Ok_0.0;
            &&& tv.len() == n
            &&& forall|j: int| 0 <= j < n ==> #[trigger] tv[j].0 == v[j].0
        }),
    decreases n,
{
    if n > 0 {
        lemma_spec_build_entries_shape(v, n - 1, path, assigned, built);
    }
}

/// Builds the frozen tree for one pending directory, after recursively
/// building and recording every subdirectory, then records it under its
/// resolved identifier.  `exposed` names the identifiers that are
/// allowed to be unreferenced so far (the roots of subtrees whose
/// parents are not yet built).
fn build_pending(
    t: &PendingTree,
    path: &mut Vec<Vec<u8>>,
    ids: &Vec<(Vec<Vec<u8>>, ID)>,
    built: &mut Vec<(ID, Tree)>,
    exposed: Ghost<Set<Seq<char>>>,
) -> (r: Result<ID, RelativePathBuilderError>)
    requires
        pending_wf(pending_tree_view(*t)),
        keys_distinct(built_seq(old(built)@)),
        built_wf(old(built)@),
        ref_closed(assoc_map(built_seq(old(built)@))),
        covered(assoc_map(built_seq(old(built)@)), exposed@),
    ensures
        keys_distinct(built_seq(final(built)@)),
        built_wf(final(built)@),
        match r {
            Ok(rid) => {
                let bm0 = assoc_map(built_seq(old(built)@));
                let bm2 = assoc_map(built_seq(final(built)@));
                &&& spec_build_tree(
                    pending_tree_view(*t),
                    old(path).deep_view(),
                    assigned_of(ids@),
                    bm0,
                ) == Ok::<_, Seq<char>>((rid@, bm2))
                &&& final(path).deep_view() == old(path).deep_view()
                &&& ref_closed(bm2)
                &&& covered(bm2, exposed@.insert(rid@))
                &&& bm2.dom().contains(rid@)
                &&& map_extends(bm2, bm0)
            },
            Err(RelativePathBuilderError::InconsistentDirectories { id: e }) => spec_build_tree(
                pending_tree_view(*t),
                old(path).deep_view(),
                assigned_of(ids@),
                assoc_map(built_seq(old(built)@)),
            ) == Err::<(Seq<char>, Map<Seq<char>, Seq<(Seq<u8>, SpecEntry)>>), _>(e@),
            Err(_) => false,
        },
    decreases *t,
{
    let ghost tv = pending_tree_view(*t);
    let ghost path0 = path.deep_view();
    let ghost am = assigned_of(ids@);
    let ghost bm0 = assoc_map(built_seq(old(built)@));
    proof {
        lemma_pending_tree_view_shape(*t);
    }
    let n: usize = t.entries.len();
    let mut bt = Tree::new();
    let ghost seen = Set::<Seq<char>>::empty();
    let mut i: usize = 0;
    while i < n
        invariant
            i <= n,
            n == t.entries@.len(),
            tv == pending_tree_view(*t),
            tv.len() == n,
            pending_wf(tv),
            path.deep_view() == path0,
            path0 == old(path).deep_view(),
            bm0 == assoc_map(built_seq(old(built)@)),
            am == assigned_of(ids@),
            bt.wf(),
            spec_build_entries(tv, i as int, path0, am, bm0) == Ok::<_, Seq<char>>((
                bt@,
                assoc_map(built_seq(built@)),
            )),
            bt@.len() == i,
            forall|j: int| 0 <= j < i ==> #[trigger] bt@[j].0 == tv[j].0,
            keys_distinct(built_seq(built@)),
            built_wf(built@),
            ref_closed(assoc_map(built_seq(built@))),
            covered(assoc_map(built_seq(built@)), exposed@.union(seen)),
            forall|x: Seq<char>|
                #[trigger] seen.contains(x) ==> exists|j: int|
                    0 <= j < bt@.len() && (#[trigger] bt@[j]).1.kind == EntryKind::Tree && bt@[
                        j].1.id == x,
            forall|j: int|
                0 <= j < bt@.len() && (#[trigger] bt@[j]).1.kind == EntryKind::Tree ==> assoc_map(
                    built_seq(built@),
                ).dom().contains(bt@[j].1.id),
            map_extends(assoc_map(built_seq(built@)), bm0),
        decreases n - i,
    {
        proof {
            lemma_pending_tree_view_shape(*t);
            assert(tv[i as int] == (t.entries@[i as int].0@, pending_entry_view(t.entries@[
                i as int].1)));
            crate::lex::lemma_byte_order_strict();
            lemma_assoc_map_dom(bt@);
            assert(!bt.entry_map().dom().contains(tv[i as int].0)) by {
                if has_key(bt@, tv[i as int].0) {
                    let j = choose|j: int| 0 <= j < bt@.len() && bt@[j].0 == tv[i as int].0;
                    assert(crate::lex::byte_order()(tv[j].0, tv[i as int].0));
                    crate::lex::lemma_bytes_lt_irreflexive(tv[i as int].0);
                }
            }
        }
        let ghost bm_pre = assoc_map(built_seq(built@));
        let ghost bt_pre = bt@;
        let name = &t.entries[i].0;
        match &t.entries[i].1 {
            PendingEntry::File(fid) => {
                let fresh = clone_bytes(name);
                let add = bt.add_file(fresh, fid.clone());
                proof {
                    assert(add is Ok);
                    let e = SpecEntry { kind: EntryKind::File, id: fid@ };
                    let mirror = bt_pre.push((tv[i as int].0, e));
                    assert(keys_sorted(mirror, crate::lex::byte_order())) by {
                        assert forall|a: int, b: int|
                            0 <= a < b < mirror.len() implies crate::lex::byte_order()(
                            mirror[a].0,
                            mirror[b].0,
                        ) by {
                            if b < bt_pre.len() {
                                assert(mirror[a] == bt_pre[a] && mirror[b] == bt_pre[b]);
                            } else {
                                assert(mirror[a].0 == tv[a].0 && mirror[b].0 == tv[i as int].0);
                            }
                        }
                    }
                    assert(mirror.drop_last() =~= bt_pre);
                    assert(assoc_map(mirror) == assoc_map(bt_pre).insert(tv[i as int].0, e));
                    crate::assoc::lemma_sorted_assoc_unique(
                        bt@,
                        mirror,
                        crate::lex::byte_order(),
                    );
                    assert(bt@ == mirror);
                    assert(pending_entry_view(t.entries@[i as int].1) == PendingEntryV::File(
                        fid@,
                    ));
                    assert(spec_build_entries(tv, i + 1, path0, am, bm0) == Ok::<_, Seq<char>>((
                        bt@,
                        assoc_map(built_seq(built@)),
                    )));
                    assert forall|x: Seq<char>| #[trigger] seen.contains(x) implies exists|j: int|
                        0 <= j < bt@.len() && (#[trigger] bt@[j]).1.kind == EntryKind::Tree && bt@[
                        j].1.id == x by {
                        let j = choose|j: int|
                            0 <= j < bt_pre.len() && (#[trigger] bt_pre[j]).1.kind
                                == EntryKind::Tree && bt_pre[j].1.id == x;
                        assert(bt@[j] == bt_pre[j]);
                    }
                }
            },
            PendingEntry::Dir(sub) => {
                proof {
                    assert(pending_entry_view(t.entries@[i as int].1) == PendingEntryV::Dir(
                        pending_tree_view(*sub),
                    ));
                    assert(pending_entry_wf(tv[i as int].1));
                    assert(decreases_to!(*t => t.entries));
                    assert(decreases_to!(t.entries => t.entries@));
                    assert(decreases_to!(t.entries@ => t.entries@[i as int]));
                    assert(decreases_to!(t.entries@[i as int] => t.entries@[i as int].1));
                    assert(decreases_to!(t.entries@[i as int].1 => *sub));
                    assert(decreases_to!(*t => *sub));
                }
                let fresh = clone_bytes(name);
                let ghost pre_path = path@;
                proof {
                    assert(fresh.deep_view() =~= fresh@);
                }
                path.push(fresh);
                proof {
                    assert forall|j: int|
                        0 <= j < path.deep_view().len() implies #[trigger] path.deep_view()[j]
                        == path0.push(tv[i as int].0)[j] by {
                        if j < pre_path.len() {
                            assert(path@[j] == pre_path[j]);
                        }
                    }
                    assert(path.deep_view() =~= path0.push(tv[i as int].0));
                }
                let child = build_pending(sub, path, ids, built, Ghost(exposed@.union(seen)));
                match child {
                    Ok(cid) => {
                        let ghost mid_path = path@;
                        let ghost mid_deep = path.deep_view();
                        path.pop();
                        proof {
                            assert(path@ == mid_path.subrange(0, mid_path.len() - 1));
                            assert forall|j: int|
                                0 <= j < path.deep_view().len() implies #[trigger] path.deep_view()[j]
                                == path0[j] by {
                                assert(path.deep_view()[j] == path@[j].deep_view());
                                assert(path@[j] == mid_path[j]);
                                assert(mid_deep[j] == mid_path[j].deep_view());
                                assert(mid_deep[j] == path0.push(tv[i as int].0)[j]);
                            }
                            assert(path.deep_view() =~= path0);
                        }
                        let ghost cidv = cid@;
                        let fresh2 = clone_bytes(name);
                        let add = bt.add_subdirectory(fresh2, cid);
                        proof {
                            assert(add is Ok);
                            let e = SpecEntry { kind: EntryKind::Tree, id: cidv };
                            let mirror = bt_pre.push((tv[i as int].0, e));
                            assert(keys_sorted(mirror, crate::lex::byte_order())) by {
                                assert forall|a: int, b: int|
                                    0 <= a < b < mirror.len() implies crate::lex::byte_order()(
                                    mirror[a].0,
                                    mirror[b].0,
                                ) by {
                                    if b < bt_pre.len() {
                                        assert(mirror[a] == bt_pre[a] && mirror[b] == bt_pre[b]);
                                    } else {
                                        assert(mirror[a].0 == tv[a].0 && mirror[b].0 == tv[
                                            i as int].0);
                                    }
                                }
                            }
                            assert(mirror.drop_last() =~= bt_pre);
                            assert(assoc_map(mirror) == assoc_map(bt_pre).insert(
                                tv[i as int].0,
                                e,
                            ));
                            crate::assoc::lemma_sorted_assoc_unique(
                                bt@,
                                mirror,
                                crate::lex::byte_order(),
                            );
                            assert(bt@ == mirror);
                            assert(spec_build_entries(tv, i + 1, path0, am, bm0) == Ok::<_, Seq<
                                char,
                            >>((bt@, assoc_map(built_seq(built@)))));
                            assert forall|x: Seq<char>| #[trigger] seen.insert(cidv).contains(
                                x,
                            ) implies exists|j: int|
                                0 <= j < bt@.len() && (#[trigger] bt@[j]).1.kind
                                    == EntryKind::Tree && bt@[j].1.id == x by {
                                if x == cidv {
                                    assert(bt@[bt_pre.len() as int].1.kind == EntryKind::Tree
                                        && bt@[bt_pre.len() as int].1.id == x);
                                } else {
                                    let j = choose|j: int|
                                        0 <= j < bt_pre.len() && (#[trigger] bt_pre[j]).1.kind
                                            == EntryKind::Tree && bt_pre[j].1.id == x;
                                    assert(bt@[j] == bt_pre[j]);
                                }
                            }
                            assert(exposed@.union(seen.insert(cidv)) =~= exposed@.union(
                                seen,
                            ).insert(cidv));
                        }
                        proof {
                            seen = seen.insert(cidv);
                            lemma_map_extends_trans(
                                assoc_map(built_seq(built@)),
                                bm_pre,
                                bm0,
                            );
                        }
                    },
                    Err(e) => {
                        proof {
                            let child_spec = spec_build_tree(
                                pending_tree_view(*sub),
                                path0.push(tv[i as int].0),
                                am,
                                bm_pre,
                            );
                            assert(child_spec is Err);
                            assert(spec_build_entries(tv, i + 1, path0, am, bm0)
                                == Err::<(Seq<(Seq<u8>, SpecEntry)>, Map<Seq<char>, Seq<(Seq<u8>, SpecEntry)>>), Seq<char>>(child_spec->Err_0));
                            lemma_spec_build_entries_err_mono(tv, i + 1, tv.len() as int, path0, am, bm0);
                        }
                        return Err(e);
                    },
                }
            },
        }
        i = i + 1;
    }
    proof {
        assert(i as int == tv.len());
    }
    let ghost btv = bt@;
    let ghost bm1 = assoc_map(built_seq(built@));
    let rid = match lookup_assigned(ids, path) {
        Some(assigned_id) => {
            proof {
                assert(assigned_id@ == resolve_id(path0, am, btv));
            }
            assigned_id
        },
        None => {
            let generated = ID::generate_tree_id(&bt);
            proof {
                assert(generated@ == resolve_id(path0, am, btv));
            }
            generated
        },
    };
    let ghost ridv = rid@;
    let recorded = record_tree(built, rid.clone(), bt);
    match recorded {
        Ok(()) => {
            proof {
                let bm2 = assoc_map(built_seq(built@));
                assert(spec_build_tree(tv, path0, am, bm0) == Ok::<_, Seq<char>>((ridv, bm2)));
                assert(bm2.dom().contains(ridv));
                // The new tree's own references are stored, so the store
                // stays closed.
                assert(ref_closed(bm2)) by {
                    lemma_assoc_map_dom(built_seq(built@));
                    assert forall|tt: Seq<char>, j: int|
                        #![trigger bm2[tt][j]]
                        bm2.dom().contains(tt) && 0 <= j < bm2[tt].len() && bm2[tt][j].1.kind
                            == EntryKind::Tree implies bm2.dom().contains(bm2[tt][j].1.id) by {
                        if bm1.dom().contains(tt) {
                            assert(bm2[tt] == bm1[tt]);
                            assert(bm1[tt][j].1.kind == EntryKind::Tree);
                        } else {
                            assert(tt == ridv && bm2[tt] == btv);
                        }
                    }
                }
                // Everything stored is reachable from what is still
                // exposed: the new tree now references the children.
                assert(covered(bm2, exposed@.insert(ridv))) by {
                    assert forall|x: Seq<char>| #[trigger] bm2.dom().contains(x) implies exposed@
                        .insert(ridv).contains(x) || entry_references(bm2, x) by {
                        if x != ridv {
                            assert(bm1.dom().contains(x));
                            assert(exposed@.union(seen).contains(x) || entry_references(bm1, x));
                            if entry_references(bm1, x) {
                                let (tt, j) = choose|tt: Seq<char>, j: int|
                                    #![trigger bm1[tt][j]]
                                    bm1.dom().contains(tt) && 0 <= j < bm1[tt].len() && bm1[tt][
                                        j].1.kind == EntryKind::Tree && bm1[tt][j].1.id == x;
                                assert(bm2[tt][j].1.kind == EntryKind::Tree && bm2[tt][j].1.id
                                    == x);
                            } else if seen.contains(x) {
                                let j = choose|j: int|
                                    0 <= j < btv.len() && (#[trigger] btv[j]).1.kind
                                        == EntryKind::Tree && btv[j].1.id == x;
                                assert(bm2.dom().contains(ridv) && bm2[ridv] == btv);
                                assert(bm2[ridv][j].1.kind == EntryKind::Tree && bm2[ridv][
                                    j].1.id == x);
                            }
                        }
                    }
                }
            }
            Ok(rid)
        },
        Err(e) => {
            proof {
                assert(spec_build_tree(tv, path0, am, bm0) == Err::<(
                    Seq<char>,
                    Map<Seq<char>, Seq<(Seq<u8>, SpecEntry)>>,
                ), _>(ridv));
            }
            Err(e)
        },
    }
}


impl RelativePathBuilder {
    /// Builds the snapshot: freezes the pending hierarchy bottom-up,
    /// resolving each directory's identifier (the explicitly assigned
    /// one if recorded, else the generated content identifier),
    /// deduplicating identical trees that resolve to the same
    /// identifier, and rejecting differing trees that resolve to the
    /// same identifier.
    pub fn build(self) -> (r: Result<Snapshot, RelativePathBuilderError>)
        requires
            self.wf(),
        ensures
            match r {
                Ok(s) => {
                    &&& s.wf()
                    &&& spec_build_tree(
                        self.root_view(),
                        Seq::empty(),
                        self.assigned_map(),
                        Map::empty(),
                    ) matches Ok((rid, bm)) && s.spec_id() == rid && s.tree_map() == bm
                },
                Err(RelativePathBuilderError::InconsistentDirectories { id: e }) => spec_build_tree(
                    self.root_view(),
                    Seq::empty(),
                    self.assigned_map(),
                    Map::empty(),
                ) == Err::<(Seq<char>, Map<Seq<char>, Seq<(Seq<u8>, SpecEntry)>>), _>(e@),
                Err(_) => false,
            },
    {
        let RelativePathBuilder { root, tree_ids } = self;
        let mut path: Vec<Vec<u8>> = Vec::new();
        let mut built: Vec<(ID, Tree)> = Vec::new();
        proof {
            assert(built_seq(built@) =~= Seq::<(Seq<char>, Seq<(Seq<u8>, SpecEntry)>)>::empty());
            assert(path.deep_view() =~= Seq::<Seq<u8>>::empty());
            assert(assigned_of(tree_ids@) == self.assigned_map());
            assert(pending_tree_view(root) == self.root_view());
            assert(assoc_map(built_seq(built@)) == Map::<Seq<char>, Seq<(Seq<u8>, SpecEntry)>>::empty());
        }
        let rid = match build_pending(
            &root,
            &mut path,
            &tree_ids,
            &mut built,
            Ghost(Set::empty()),
        ) {
            Ok(rid) => rid,
            Err(e) => {
                return Err(e);
            },
        };
        let ghost full = built_seq(built@);
        let ghost bm = assoc_map(full);
        let ghost ridv = rid@;
        proof {
            lemma_assoc_map_dom(full);
        }
        let mut sb = SnapshotBuilder::new();
        proof {
            assert(built_seq(built@) =~= full.take(built@.len() as int));
            assert(full.skip(built@.len() as int) =~= Seq::<(
                Seq<char>,
                Seq<(Seq<u8>, SpecEntry)>,
            )>::empty());
            assert(sb.tree_map() =~= assoc_map(full.skip(built@.len() as int)));
        }
        while built.len() > 0
            invariant
                sb.wf(),
                bm == assoc_map(full),
                keys_distinct(full),
                built_wf(built@),
                built_seq(built@) == full.take(built@.len() as int),
                built@.len() <= full.len(),
                sb.tree_map() == assoc_map(full.skip(built@.len() as int)),
            decreases built.len(),
        {
            let ghost rl = built@.len() as int;
            let ghost pre = built@;
            let popped = built.pop();
            let (tree_id, tree) = match popped {
                Some(pair) => pair,
                None => {
                    proof {
                        assert(false);
                    }
                    return Err(RelativePathBuilderError::InvalidPath { path: String::new() });
                },
            };
            proof {
                lemma_assoc_map_dom(full.skip(rl));
                assert(built_seq(pre)[rl - 1] == (pre[rl - 1].0@, pre[rl - 1].1@));
                assert((tree_id@, tree@) == full.take(rl)[rl - 1]);
                assert(full.take(rl)[rl - 1] == full[rl - 1]);
                assert(tree.wf());
                assert(built_wf(built@)) by {
                    assert forall|j: int| 0 <= j < built@.len() implies (
                    #[trigger] built@[j].1).wf() by {
                        assert(built@[j] == pre[j]);
                    }
                }
                assert(!sb.tree_map().dom().contains(tree_id@)) by {
                    if has_key(full.skip(rl), tree_id@) {
                        let j = choose|j: int|
                            0 <= j < full.skip(rl).len() && full.skip(rl)[j].0 == tree_id@;
                        assert(full.skip(rl)[j] == full[rl + j]);
                        assert(full[rl - 1].0 == full[rl + j].0);
                    }
                }
                assert(built_seq(built@) =~= full.take(rl - 1));
            }
            let added = sb.add_tree(tree_id, tree);
            proof {
                assert(added is Ok);
                let single = seq![full[rl - 1]];
                assert(full.skip(rl - 1) =~= single + full.skip(rl));
                lemma_assoc_map_concat(single, full.skip(rl));
                assert(single.drop_last() =~= Seq::<(Seq<char>, Seq<(Seq<u8>, SpecEntry)>)>::empty());
                assert(assoc_map(Seq::<(Seq<char>, Seq<(Seq<u8>, SpecEntry)>)>::empty())
                    == Map::<Seq<char>, Seq<(Seq<u8>, SpecEntry)>>::empty());
                assert(assoc_map(single) == Map::<Seq<char>, Seq<(Seq<u8>, SpecEntry)>>::empty()
                    .insert(full[rl - 1].0, full[rl - 1].1));
                lemma_assoc_map_dom(full.skip(rl - 1));
                assert(sb.tree_map() =~= assoc_map(full.skip(rl - 1)));
            }
        }
        proof {
            assert(built_seq(built@).len() == 0);
            assert(full.skip(0) =~= full);
            assert(sb.tree_map() == bm);
            // The built store is closed: its identifiers are exactly the
            // root plus every tree-kind entry identifier.
            assert(bm.dom() =~= referenced_ids(ridv, bm)) by {
                assert forall|x: Seq<char>| referenced_ids(ridv, bm).contains(x) implies bm.dom()
                    .contains(x) by {
                    if x != ridv {
                        let (t, i) = choose|t: Seq<char>, i: int|
                            #![trigger bm[t][i]]
                            bm.dom().contains(t) && 0 <= i < bm[t].len() && bm[t][i].1.kind
                                == EntryKind::Tree && bm[t][i].1.id == x;
                        assert(bm.dom().contains(bm[t][i].1.id));
                    }
                }
                assert forall|x: Seq<char>| bm.dom().contains(x) implies referenced_ids(
                    ridv,
                    bm,
                ).contains(x) by {
                    assert(Set::<Seq<char>>::empty().insert(ridv).contains(x) || entry_references(
                        bm,
                        x,
                    ));
                }
            }
        }
        match sb.with_id(rid) {
            Ok(snapshot) => {
                proof {
                    assert(path.deep_view() =~= Seq::<Seq<u8>>::empty());
                }
                Ok(snapshot)
            },
            Err(e) => {
                proof {
                    assert(false);
                }
                Err(RelativePathBuilderError::SnapshotBuilderError(e))
            },
        }
    }
}



proof fn lemma_entries_content_addressed(
    v: Seq<(Seq<u8>, PendingEntryV)>,
    n: int,
    path: Seq<Seq<u8>>,
    b: Map<Seq<char>, Seq<(Seq<u8>, SpecEntry)>>,
)
    requires
        0 <= n <= v.len(),
        spec_build_entries(v, n, path, Map::empty(), b) is Ok,
        forall|k: Seq<char>| #[trigger] b.dom().contains(k) ==> k == crate::generate::spec_tree_id(
            b[k],
        ),
    ensures
        ({
            let b4 = spec_build_entries(v, n, path, Map::empty(), b)->Ok_0.1;
            forall|k: Seq<char>| #[trigger] b4.dom().contains(k) ==> k
                == crate::generate::spec_tree_id(b4[k])
        }),
    decreases v, n, 0int,
{
    if n > 0 {
        lemma_entries_content_addressed(v, n - 1, path, b);
        match v[n - 1].1 {
            PendingEntryV::File(_) => {},
            PendingEntryV::Dir(c) => {
                let p1 = spec_build_entries(v, n - 1, path, Map::empty(), b)->Ok_0;
                lemma_tree_content_addressed(c, path.push(v[n - 1].0), p1.1);
            },
        }
    }
}

/// Law (deduplication correctness, storage half): with generated
/// identifiers alone, every stored tree sits under its own content
/// identifier.
pub proof fn lemma_tree_content_addressed(
    c: Seq<(Seq<u8>, PendingEntryV)>,
    path: Seq<Seq<u8>>,
    b: Map<Seq<char>, Seq<(Seq<u8>, SpecEntry)>>,
)
    requires
        spec_build_tree(c, path, Map::empty(), b) is Ok,
        forall|k: Seq<char>| #[trigger] b.dom().contains(k) ==> k == crate::generate::spec_tree_id(
            b[k],
        ),
    ensures
        ({
            let b2 = spec_build_tree(c, path, Map::empty(), b)->Ok_0.1;
            forall|k: Seq<char>| #[trigger] b2.dom().contains(k) ==> k
                == crate::generate::spec_tree_id(b2[k])
        }),
    decreases c, c.len(), 1int,
{
    lemma_entries_content_addressed(c, c.len() as int, path, b);
}


/// A successful build records the built content under the resolved
/// identifier.
pub proof fn lemma_build_records_content(
    c: Seq<(Seq<u8>, PendingEntryV)>,
    path: Seq<Seq<u8>>,
    assigned: Map<Seq<Seq<u8>>, Seq<char>>,
    b: Map<Seq<char>, Seq<(Seq<u8>, SpecEntry)>>,
)
    requires
        spec_build_tree(c, path, assigned, b) is Ok,
    ensures
        ({
            let (rid, b2) = spec_build_tree(c, path, assigned, b)->Ok_0;
            &&& b2.dom().contains(rid)
            &&& b2[rid] == spec_build_entries(c, c.len() as int, path, assigned, b)->Ok_0.0
        }),
{
}



/// Building entries never overwrites an already-stored tree: the
/// resulting store keeps every earlier binding.
proof fn lemma_entries_extend_store(
    v: Seq<(Seq<u8>, PendingEntryV)>,
    n: int,
    path: Seq<Seq<u8>>,
    assigned: Map<Seq<Seq<u8>>, Seq<char>>,
    built: Map<Seq<char>, Seq<(Seq<u8>, SpecEntry)>>,
)
    requires
        0 <= n <= v.len(),
        spec_build_entries(v, n, path, assigned, built) is Ok,
    ensures
        map_extends(spec_build_entries(v, n, path, assigned, built)->Ok_0.1, built),
    decreases v, n, 0int,
{
    if n > 0 {
        lemma_entries_extend_store(v, n - 1, path, assigned, built);
        match v[n - 1].1 {
            PendingEntryV::File(_) => {},
            PendingEntryV::Dir(c) => {
                let p1 = spec_build_entries(v, n - 1, path, assigned, built)->Ok_0;
                lemma_tree_extends_store(c, path.push(v[n - 1].0), assigned, p1.1);
                lemma_map_extends_trans(
                    spec_build_tree(c, path.push(v[n - 1].0), assigned, p1.1)->Ok_0.1,
                    p1.1,
                    built,
                );
            },
        }
    }
}

/// Law: building a directory only grows the tree store; a tree stored
/// under an identifier is never replaced by different content.
pub proof fn lemma_tree_extends_store(
    c: Seq<(Seq<u8>, PendingEntryV)>,
    path: Seq<Seq<u8>>,
    assigned: Map<Seq<Seq<u8>>, Seq<char>>,
    built: Map<Seq<char>, Seq<(Seq<u8>, SpecEntry)>>,
)
    requires
        spec_build_tree(c, path, assigned, built) is Ok,
    ensures
        map_extends(spec_build_tree(c, path, assigned, built)->Ok_0.1, built),
    decreases c, c.len(), 1int,
{
    lemma_entries_extend_store(c, c.len() as int, path, assigned, built);
}


/// The frozen tree the first `n` pending entries resolve to, ignoring
/// whether the build can actually record it.
pub open spec fn resolved_entries(
    v: Seq<(Seq<u8>, PendingEntryV)>,
    n: int,
    path: Seq<Seq<u8>>,
    assigned: Map<Seq<Seq<u8>>, Seq<char>>,
) -> Seq<(Seq<u8>, SpecEntry)>
    decreases v, n, 0int,
        when n <= v.len()
{
    if n <= 0 {
        Seq::empty()
    } else {
        let front = resolved_entries(v, n - 1, path, assigned);
        let name = v[n - 1].0;
        match v[n - 1].1 {
            PendingEntryV::File(fid) => front.push(
                (name, SpecEntry { kind: EntryKind::File, id: fid }),
            ),
            PendingEntryV::Dir(c) => front.push(
                (
                    name,
                    SpecEntry {
                        kind: EntryKind::Tree,
                        id: resolved_id(c, path.push(name), assigned),
                    },
                ),
            ),
        }
    }
}

/// The frozen tree a pending directory resolves to.
pub open spec fn resolved_tree(
    c: Seq<(Seq<u8>, PendingEntryV)>,
    path: Seq<Seq<u8>>,
    assigned: Map<Seq<Seq<u8>>, Seq<char>>,
) -> Seq<(Seq<u8>, SpecEntry)>
    decreases c, c.len(), 1int,
{
    resolved_entries(c, c.len() as int, path, assigned)
}

/// The identifier a pending directory resolves to: the explicitly
/// assigned identifier for its path if recorded, else the generated
/// content identifier of its resolved tree.
pub open spec fn resolved_id(
    c: Seq<(Seq<u8>, PendingEntryV)>,
    path: Seq<Seq<u8>>,
    assigned: Map<Seq<Seq<u8>>, Seq<char>>,
) -> Seq<char>
    decreases c, c.len(), 2int,
{
    resolve_id(path, assigned, resolved_tree(c, path, assigned))
}

/// A successful build freezes exactly the resolved tree and identifier.
proof fn lemma_entries_resolve(
    v: Seq<(Seq<u8>, PendingEntryV)>,
    n: int,
    path: Seq<Seq<u8>>,
    assigned: Map<Seq<Seq<u8>>, Seq<char>>,
    built: Map<Seq<char>, Seq<(Seq<u8>, SpecEntry)>>,
)
    requires
        0 <= n <= v.len(),
        spec_build_entries(v, n, path, assigned, built) is Ok,
    ensures
        spec_build_entries(v, n, path, assigned, built)->Ok_0.0 == resolved_entries(
            v,
            n,
            path,
            assigned,
        ),
    decreases v, n, 0int,
{
    if n > 0 {
        lemma_entries_resolve(v, n - 1, path, assigned, built);
        match v[n - 1].1 {
            PendingEntryV::File(_) => {},
            PendingEntryV::Dir(c) => {
                let p1 = spec_build_entries(v, n - 1, path, assigned, built)->Ok_0;
                lemma_tree_resolves(c, path.push(v[n - 1].0), assigned, p1.1);
            },
        }
    }
}

/// Law: what a directory builds to is a function of the pending content,
/// its path and the assignments alone — the trees already stored cannot
/// change it, only whether it can be recorded.
pub proof fn lemma_tree_resolves(
    c: Seq<(Seq<u8>, PendingEntryV)>,
    path: Seq<Seq<u8>>,
    assigned: Map<Seq<Seq<u8>>, Seq<char>>,
    built: Map<Seq<char>, Seq<(Seq<u8>, SpecEntry)>>,
)
    requires
        spec_build_tree(c, path, assigned, built) is Ok,
    ensures
        spec_build_tree(c, path, assigned, built)->Ok_0.0 == resolved_id(c, path, assigned),
        spec_build_tree(c, path, assigned, built)->Ok_0.1[resolved_id(c, path, assigned)]
            == resolved_tree(c, path, assigned),
    decreases c, c.len(), 1int,
{
    lemma_entries_resolve(c, c.len() as int, path, assigned, built);
}


/// The pending subtree at a relative chain of directory names, if that
/// chain names a pending directory.
pub open spec fn pending_at(
    v: Seq<(Seq<u8>, PendingEntryV)>,
    rel: Seq<Seq<u8>>,
) -> Option<Seq<(Seq<u8>, PendingEntryV)>>
    decreases rel.len(),
{
    if rel.len() == 0 {
        Some(v)
    } else if exists|i: int| 0 <= i < v.len() && v[i].0 == rel.first() && v[i].1 is Dir {
        let i = choose|i: int| 0 <= i < v.len() && v[i].0 == rel.first() && v[i].1 is Dir;
        pending_at(v[i].1->Dir_0, rel.skip(1))
    } else {
        None
    }
}

proof fn lemma_entries_record_descendants(
    v: Seq<(Seq<u8>, PendingEntryV)>,
    n: int,
    path: Seq<Seq<u8>>,
    assigned: Map<Seq<Seq<u8>>, Seq<char>>,
    built: Map<Seq<char>, Seq<(Seq<u8>, SpecEntry)>>,
    rel: Seq<Seq<u8>>,
    i0: int,
)
    requires
        0 <= n <= v.len(),
        spec_build_entries(v, n, path, assigned, built) is Ok,
        pending_wf(v),
        rel.len() > 0,
        0 <= i0 < n,
        v[i0].0 == rel.first(),
        v[i0].1 is Dir,
        pending_at(v[i0].1->Dir_0, rel.skip(1)) is Some,
    ensures
        ({
            let q = pending_at(v[i0].1->Dir_0, rel.skip(1))->Some_0;
            let b4 = spec_build_entries(v, n, path, assigned, built)->Ok_0.1;
            &&& b4.dom().contains(resolved_id(q, path + rel, assigned))
            &&& b4[resolved_id(q, path + rel, assigned)] == resolved_tree(q, path + rel, assigned)
        }),
    decreases v, n, 0int,
{
    let q = pending_at(v[i0].1->Dir_0, rel.skip(1))->Some_0;
    let p1 = spec_build_entries(v, n - 1, path, assigned, built)->Ok_0;
    if i0 == n - 1 {
        let cc = v[n - 1].1->Dir_0;
        let child_path = path.push(v[n - 1].0);
        assert(spec_build_tree(cc, child_path, assigned, p1.1) is Ok);
        assert(pending_entry_wf(v[i0].1));
        if rel.len() == 1 {
            assert(rel.skip(1).len() == 0);
            assert(q == cc);
            assert(path + rel =~= child_path);
            lemma_tree_resolves(cc, child_path, assigned, p1.1);
            lemma_build_records_content(cc, child_path, assigned, p1.1);
        } else {
            assert(rel.skip(1).len() > 0);
            lemma_tree_records_descendants(cc, child_path, assigned, p1.1, rel.skip(1));
            assert(child_path + rel.skip(1) =~= path + rel);
        }
    } else {
        lemma_entries_record_descendants(v, n - 1, path, assigned, built, rel, i0);
        match v[n - 1].1 {
            PendingEntryV::File(_) => {},
            PendingEntryV::Dir(c) => {
                lemma_tree_extends_store(c, path.push(v[n - 1].0), assigned, p1.1);
            },
        }
    }
}

/// A successful build records every pending subdirectory, however deep,
/// under its resolved identifier with its resolved tree.
proof fn lemma_tree_records_descendants(
    c: Seq<(Seq<u8>, PendingEntryV)>,
    path: Seq<Seq<u8>>,
    assigned: Map<Seq<Seq<u8>>, Seq<char>>,
    built: Map<Seq<char>, Seq<(Seq<u8>, SpecEntry)>>,
    rel: Seq<Seq<u8>>,
)
    requires
        spec_build_tree(c, path, assigned, built) is Ok,
        pending_wf(c),
        pending_at(c, rel) is Some,
    ensures
        ({
            let q = pending_at(c, rel)->Some_0;
            let b2 = spec_build_tree(c, path, assigned, built)->Ok_0.1;
            &&& b2.dom().contains(resolved_id(q, path + rel, assigned))
            &&& b2[resolved_id(q, path + rel, assigned)] == resolved_tree(q, path + rel, assigned)
        }),
    decreases c, c.len(), 1int,
{
    if rel.len() == 0 {
        assert(pending_at(c, rel)->Some_0 == c);
        assert(path + rel =~= path);
        lemma_tree_resolves(c, path, assigned, built);
        lemma_build_records_content(c, path, assigned, built);
    } else {
        let i0 = choose|i: int| 0 <= i < c.len() && c[i].0 == rel.first() && c[i].1 is Dir;
        lemma_entries_record_descendants(
            c,
            c.len() as int,
            path,
            assigned,
            built,
            rel,
            i0,
        );
        // Recording the directory itself keeps every earlier binding.
        let b4 = spec_build_entries(c, c.len() as int, path, assigned, built)->Ok_0.1;
        let b2 = spec_build_tree(c, path, assigned, built)->Ok_0.1;
        assert(map_extends(b2, b4)) by {
            lemma_tree_extends_store(c, path, assigned, built);
            let q = pending_at(c[i0].1->Dir_0, rel.skip(1))->Some_0;
            let x = resolved_id(q, path + rel, assigned);
            assert(b4.dom().contains(x));
            match spec_record(b4, resolve_id(path, assigned, spec_build_entries(
                c,
                c.len() as int,
                path,
                assigned,
                built,
            )->Ok_0.0), spec_build_entries(c, c.len() as int, path, assigned, built)->Ok_0.0) {
                Ok(_) => {},
                Err(_) => {},
            }
        }
    }
}

/// Law (deduplication safety): if two pending directories — at any two
/// chains of names below the root — resolve to the same identifier but
/// to different trees, the snapshot cannot build: neither variant of
/// the content is silently kept.  In particular, assigning one explicit
/// identifier to two paths of differing content fails the build.
pub proof fn lemma_conflicting_paths_cannot_build(
    root: Seq<(Seq<u8>, PendingEntryV)>,
    assigned: Map<Seq<Seq<u8>>, Seq<char>>,
    rel1: Seq<Seq<u8>>,
    rel2: Seq<Seq<u8>>,
)
    requires
        pending_wf(root),
        pending_at(root, rel1) is Some,
        pending_at(root, rel2) is Some,
        resolved_id(pending_at(root, rel1)->Some_0, rel1, assigned) == resolved_id(
            pending_at(root, rel2)->Some_0,
            rel2,
            assigned,
        ),
        resolved_tree(pending_at(root, rel1)->Some_0, rel1, assigned) != resolved_tree(
            pending_at(root, rel2)->Some_0,
            rel2,
            assigned,
        ),
    ensures
        !(spec_build_tree(root, Seq::empty(), assigned, Map::empty()) is Ok),
{
    if spec_build_tree(root, Seq::empty(), assigned, Map::empty()) is Ok {
        lemma_tree_records_descendants(root, Seq::empty(), assigned, Map::empty(), rel1);
        lemma_tree_records_descendants(root, Seq::empty(), assigned, Map::empty(), rel2);
        assert(Seq::empty() + rel1 =~= rel1);
        assert(Seq::empty() + rel2 =~= rel2);
    }
}


proof fn lemma_entries_resolve_path_free(
    v: Seq<(Seq<u8>, PendingEntryV)>,
    n: int,
    path1: Seq<Seq<u8>>,
    path2: Seq<Seq<u8>>,
)
    requires
        0 <= n <= v.len(),
    ensures
        resolved_entries(v, n, path1, Map::empty()) == resolved_entries(
            v,
            n,
            path2,
            Map::empty(),
        ),
    decreases v, n, 0int,
{
    if n > 0 {
        lemma_entries_resolve_path_free(v, n - 1, path1, path2);
        match v[n - 1].1 {
            PendingEntryV::File(_) => {},
            PendingEntryV::Dir(c) => {
                lemma_tree_resolves_path_free(
                    c,
                    path1.push(v[n - 1].0),
                    path2.push(v[n - 1].0),
                );
            },
        }
    }
}

/// Law: with generated identifiers alone, what a pending directory
/// resolves to — tree and identifier — depends on its recursive content
/// only, not on where it sits.
pub proof fn lemma_tree_resolves_path_free(
    c: Seq<(Seq<u8>, PendingEntryV)>,
    path1: Seq<Seq<u8>>,
    path2: Seq<Seq<u8>>,
)
    ensures
        resolved_tree(c, path1, Map::empty()) == resolved_tree(c, path2, Map::empty()),
        resolved_id(c, path1, Map::empty()) == resolved_id(c, path2, Map::empty()),
    decreases c, c.len(), 1int,
{
    lemma_entries_resolve_path_free(c, c.len() as int, path1, path2);
}

/// Law (deduplication correctness): in a build with generated
/// identifiers alone, two paths holding identical recursive content
/// resolve to one identifier, and the snapshot stores that content
/// exactly once, under that identifier.
pub proof fn lemma_identical_content_stored_once(
    root: Seq<(Seq<u8>, PendingEntryV)>,
    rel1: Seq<Seq<u8>>,
    rel2: Seq<Seq<u8>>,
)
    requires
        pending_wf(root),
        pending_at(root, rel1) is Some,
        pending_at(root, rel2) is Some,
        pending_at(root, rel1)->Some_0 == pending_at(root, rel2)->Some_0,
        spec_build_tree(root, Seq::empty(), Map::empty(), Map::empty()) is Ok,
    ensures
        ({
            let q = pending_at(root, rel1)->Some_0;
            let shared = resolved_id(q, rel1, Map::empty());
            let bm = spec_build_tree(root, Seq::empty(), Map::empty(), Map::empty())->Ok_0.1;
            &&& resolved_id(q, rel2, Map::empty()) == shared
            &&& bm.dom().contains(shared)
            &&& bm[shared] == resolved_tree(q, rel1, Map::empty())
            &&& forall|k: Seq<char>|
                bm.dom().contains(k) && bm[k] == resolved_tree(q, rel1, Map::empty())
                    ==> k == shared
        }),
{
    let q = pending_at(root, rel1)->Some_0;
    lemma_tree_resolves_path_free(q, rel1, rel2);
    lemma_tree_records_descendants(root, Seq::empty(), Map::empty(), Map::empty(), rel1);
    assert(Seq::empty() + rel1 =~= rel1);
    lemma_tree_content_addressed(root, Seq::empty(), Map::empty());
    let bm = spec_build_tree(root, Seq::empty(), Map::empty(), Map::empty())->Ok_0.1;
    let shared = resolved_id(q, rel1, Map::empty());
    assert forall|k: Seq<char>|
        bm.dom().contains(k) && bm[k] == resolved_tree(q, rel1, Map::empty()) implies k
        == shared by {
        assert(k == crate::generate::spec_tree_id(bm[k]));
        assert(shared == crate::generate::spec_tree_id(bm[shared]));
    }
}

} // verus!
