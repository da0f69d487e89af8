//! A file-level incremental processing model for program analysis.
//!
//! A source tree is represented as an immutable, content-addressed
//! [`Snapshot`]: a root [`Tree`] whose entries map names (raw byte strings)
//! to files or subdirectories, each carried as an opaque identifier [`ID`]
//! derived from content.  Builders in [`builders`] assemble snapshots while
//! enforcing the structural invariants; [`generate`] derives identifiers
//! from file bytes and tree contents; [`analysis`] and [`cache`] identify
//! units of analysis work by content identity and memoize their results.

use vstd::prelude::*;

pub mod analysis;
pub mod assoc;
pub mod builders;
pub mod cache;
pub mod generate;
pub mod lex;
pub mod paths;
pub mod text;

use crate::assoc::{assoc_map, keys_sorted, has_key, lemma_assoc_sorted_insert, lemma_assoc_map_index, lemma_assoc_map_dom, lemma_sorted_implies_distinct};
use crate::lex::{bytes_lt, byte_order, lemma_byte_order_strict, lemma_bytes_lt_transitive, compare_bytes, id_order};
use crate::text::{display_name, display_name_string, push_display_name};

verus! {

/// An opaque identifier for a file, tree, or snapshot.  Identifiers are
/// derived from content: two files with the same content have the same ID.
#[derive(Debug, Eq, Hash)]
pub struct ID {
    text: String,
}

impl View for ID {
    type V = Seq<char>;

    closed spec fn view(&self) -> Seq<char> {
        self.text@
    }
}

impl ID {
    /// Wraps an identifier string.
    pub fn new(text: String) -> (r: ID)
        ensures
            r@ == text@,
    {
        ID { text }
    }

    /// Returns the identifier as a string slice.
    pub fn as_str(&self) -> (r: &str)
        ensures
            r@ == self@,
    {
        self.text.as_str()
    }
}

impl Clone for ID {
    fn clone(&self) -> (r: ID)
        ensures
            r == *self,
    {
        ID { text: self.text.clone() }
    }
}

impl PartialEq for ID {
    fn eq(&self, other: &ID) -> (r: bool) {
        self.text == other.text
    }
}

impl vstd::std_specs::cmp::PartialEqSpecImpl for ID {
    open spec fn obeys_eq_spec() -> bool {
        true
    }

    open spec fn eq_spec(&self, other: &ID) -> bool {
        self@ == other@
    }
}

impl From<String> for ID {
    fn from(text: String) -> (r: ID)
        ensures
            r@ == text@,
    {
        ID { text }
    }
}

impl vstd::std_specs::convert::FromSpecImpl<String> for ID {
    open spec fn obeys_from_spec() -> bool {
        true
    }

    closed spec fn from_spec(text: String) -> ID {
        ID { text }
    }
}

impl<'a> From<&'a str> for ID {
    fn from(text: &'a str) -> (r: ID)
        ensures
            r@ == text@,
    {
        ID { text: text.to_owned() }
    }
}

impl<'a> vstd::std_specs::convert::FromSpecImpl<&'a str> for ID {
    open spec fn obeys_from_spec() -> bool {
        false
    }

    closed spec fn from_spec(text: &'a str) -> ID {
        ID { text: vstd::pervasive::arbitrary() }
    }
}

/// Whether an entry refers to a file or to a tree.
#[derive(Clone, Copy, Debug, Eq, Hash, PartialEq, Structural)]
pub enum EntryKind {
    File,
    Tree,
}

/// The text form of an entry kind.
pub open spec fn kind_text(k: EntryKind) -> Seq<char> {
    match k {
        EntryKind::File => "file"@,
        EntryKind::Tree => "tree"@,
    }
}

impl EntryKind {
    /// Returns `"file"` or `"tree"`.
    pub fn as_str(self) -> (r: &'static str)
        ensures
            r@ == kind_text(self),
    {
        proof {
            reveal_strlit("file");
            reveal_strlit("tree");
        }
        match self {
            EntryKind::File => "file",
            EntryKind::Tree => "tree",
        }
    }
}

/// The mathematical form of a tree entry: its kind and the characters of
/// its identifier.
pub struct SpecEntry {
    pub kind: EntryKind,
    pub id: Seq<char>,
}

/// An entry in a tree: a reference to a file or subdirectory by
/// identifier, with no payload beyond its kind and identity.
#[derive(Debug)]
pub struct TreeEntry {
    pub kind: EntryKind,
    /// The ID of the entry.  The ID of a subdirectory is derived from the
    /// subdirectory's tree; the ID of a file from the file's contents.
    pub id: ID,
}

impl View for TreeEntry {
    type V = SpecEntry;

    open spec fn view(&self) -> SpecEntry {
        SpecEntry { kind: self.kind, id: self.id@ }
    }
}

impl Clone for TreeEntry {
    fn clone(&self) -> (r: TreeEntry)
        ensures
            r == *self,
    {
        TreeEntry { kind: self.kind, id: self.id.clone() }
    }
}

impl TreeEntry {
    /// Creates a new file tree entry.
    pub fn file(id: ID) -> (r: TreeEntry)
        ensures
            r@ == (SpecEntry { kind: EntryKind::File, id: id@ }),
    {
        TreeEntry { kind: EntryKind::File, id }
    }

    /// Creates a new tree tree entry.
    pub fn tree(id: ID) -> (r: TreeEntry)
        ensures
            r@ == (SpecEntry { kind: EntryKind::Tree, id: id@ }),
    {
        TreeEntry { kind: EntryKind::Tree, id }
    }
}

/// An error that can occur while building a tree.
#[derive(Debug)]
pub enum TreeError {
    /// The tree already holds an entry of this name; the name is carried
    /// in its display form.
    DuplicateEntry { name: String },
}

/// A tree in a snapshot: a collection of named files and subdirectories.
///
/// Entries are kept sorted by name in lexicographic byte order, so the
/// entry list is a canonical form of the name-to-entry mapping.
#[derive(Debug)]
pub struct Tree {
    entries: Vec<(Vec<u8>, TreeEntry)>,
}

/// Where a name sits in a sorted entry list: at an index it already
/// occupies, or at the index where it would be inserted.
enum NameSlot {
    Occupied(usize),
    Vacant(usize),
}

impl View for Tree {
    type V = Seq<(Seq<u8>, SpecEntry)>;

    closed spec fn view(&self) -> Seq<(Seq<u8>, SpecEntry)> {
        self.entries@.map_values(|p: (Vec<u8>, TreeEntry)| (p.0@, p.1@))
    }
}

impl Tree {
    /// The entry list is sorted strictly by name.
    pub open spec fn wf(&self) -> bool {
        keys_sorted(self@, byte_order())
    }

    /// The name-to-entry mapping this tree stands for.
    pub open spec fn entry_map(&self) -> Map<Seq<u8>, SpecEntry> {
        assoc_map(self@)
    }

    /// Creates a new empty tree.
    pub fn new() -> (r: Tree)
        ensures
            r.wf(),
            r@ == Seq::<(Seq<u8>, SpecEntry)>::empty(),
            r.entry_map() == Map::<Seq<u8>, SpecEntry>::empty(),
    {
        let r = Tree { entries: Vec::new() };
        proof {
            assert(r@ =~= Seq::<(Seq<u8>, SpecEntry)>::empty());
        }
        r
    }

    /// Finds the slot for `name` in the sorted entry list.
    fn search(&self, name: &[u8]) -> (slot: NameSlot)
        requires
            self.wf(),
        ensures
            match slot {
                NameSlot::Occupied(i) => i < self@.len() && self@[i as int].0 == name@,
                NameSlot::Vacant(p) => {
                    &&& p <= self@.len()
                    &&& forall|i: int| 0 <= i < p ==> bytes_lt(self@[i].0, name@)
                    &&& forall|i: int| p <= i < self@.len() ==> bytes_lt(name@, self@[i].0)
                },
            },
    {
        let n: usize = self.entries.len();
        let mut p: usize = 0;
        while p < n
            invariant
                p <= n,
                n == self@.len(),
                self.wf(),
                n == self.entries@.len(),
                forall|i: int| 0 <= i < p ==> bytes_lt(self@[i].0, name@),
            decreases n - p,
        {
            let o = compare_bytes(self.entries[p].0.as_slice(), name);
            proof {
                assert(self@[p as int].0 == self.entries@[p as int].0@);
            }
            match o {
                core::cmp::Ordering::Less => {
                    p = p + 1;
                },
                core::cmp::Ordering::Equal => {
                    return NameSlot::Occupied(p);
                },
                core::cmp::Ordering::Greater => {
                    proof {
                        assert forall|i: int| p <= i < self@.len() implies bytes_lt(
                            name@,
                            self@[i].0,
                        ) by {
                            if i > p {
                                lemma_bytes_lt_transitive(name@, self@[p as int].0, self@[i].0);
                            }
                        }
                    }
                    return NameSlot::Vacant(p);
                },
            }
        }
        NameSlot::Vacant(p)
    }

    /// Inserts an entry under a fresh name, keeping the list sorted.
    fn insert_entry(&mut self, name: Vec<u8>, entry: TreeEntry) -> (r: Result<(), TreeError>)
        requires
            old(self).wf(),
        ensures
            final(self).wf(),
            match r {
                Ok(()) => {
                    &&& !old(self).entry_map().dom().contains(name@)
                    &&& final(self).entry_map() == old(self).entry_map().insert(name@, entry@)
                },
                Err(TreeError::DuplicateEntry { name: n }) => {
                    &&& *final(self) == *old(self)
                    &&& old(self).entry_map().dom().contains(name@)
                    &&& n@ == crate::text::display_name(name@)
                },
            },
    {
        match self.search(name.as_slice()) {
            NameSlot::Occupied(i) => {
                proof {
                    lemma_byte_order_strict();
                    lemma_sorted_implies_distinct(self@, byte_order());
                    lemma_assoc_map_index(self@, i as int);
                }
                let shown = display_name_string(name.as_slice());
                Err(TreeError::DuplicateEntry { name: shown })
            },
            NameSlot::Vacant(p) => {
                proof {
                    lemma_byte_order_strict();
                    assert(forall|i: int| 0 <= i < p ==> byte_order()(self@[i].0, name@));
                    assert(forall|i: int|
                        p <= i < self@.len() ==> byte_order()(name@, self@[i].0));
                    lemma_assoc_sorted_insert(self@, byte_order(), p as int, name@, entry@);
                    lemma_assoc_map_dom(self@);
                    if has_key(self@, name@) {
                        let i = choose|i: int| 0 <= i < self@.len() && self@[i].0 == name@;
                        crate::lex::lemma_bytes_lt_irreflexive(name@);
                    }
                }
                let ghost old_view = self@;
                self.entries.insert(p, (name, entry));
                proof {
                    assert(self@ =~= old_view.insert(p as int, (name@, entry@)));
                }
                Ok(())
            },
        }
    }

    /// Adds a file to this tree.  Returns an error if the tree already
    /// contains an entry with the same name.
    pub fn add_file(&mut self, name: Vec<u8>, id: ID) -> (r: Result<(), TreeError>)
        requires
            old(self).wf(),
        ensures
            final(self).wf(),
            match r {
                Ok(()) => {
                    &&& !old(self).entry_map().dom().contains(name@)
                    &&& final(self).entry_map() == old(self).entry_map().insert(
                        name@,
                        SpecEntry { kind: EntryKind::File, id: id@ },
                    )
                },
                Err(TreeError::DuplicateEntry { name: n }) => {
                    &&& *final(self) == *old(self)
                    &&& old(self).entry_map().dom().contains(name@)
                    &&& n@ == crate::text::display_name(name@)
                },
            },
    {
        self.insert_entry(name, TreeEntry::file(id))
    }

    /// Adds a subdirectory to this tree.  Returns an error if the tree
    /// already contains an entry with the same name.
    pub fn add_subdirectory(&mut self, name: Vec<u8>, id: ID) -> (r: Result<(), TreeError>)
        requires
            old(self).wf(),
        ensures
            final(self).wf(),
            match r {
                Ok(()) => {
                    &&& !old(self).entry_map().dom().contains(name@)
                    &&& final(self).entry_map() == old(self).entry_map().insert(
                        name@,
                        SpecEntry { kind: EntryKind::Tree, id: id@ },
                    )
                },
                Err(TreeError::DuplicateEntry { name: n }) => {
                    &&& *final(self) == *old(self)
                    &&& old(self).entry_map().dom().contains(name@)
                    &&& n@ == crate::text::display_name(name@)
                },
            },
    {
        self.insert_entry(name, TreeEntry::tree(id))
    }

    /// Returns the entries of this tree, sorted by name.
    pub fn iter(&self) -> (r: &Vec<(Vec<u8>, TreeEntry)>)
        ensures
            r@.map_values(|p: (Vec<u8>, TreeEntry)| (p.0@, p.1@)) == self@,
    {
        &self.entries
    }

    /// Compares two trees by content.
    pub fn same_content(&self, other: &Tree) -> (r: bool)
        ensures
            r <==> self@ =~= other@,
    {
        let n: usize = self.entries.len();
        if n != other.entries.len() {
            return false;
        }
        let mut i: usize = 0;
        while i < n
            invariant
                i <= n,
                n == self@.len(),
                n == other@.len(),
                n == self.entries@.len(),
                n == other.entries@.len(),
                forall|j: int| 0 <= j < i ==> self@[j] == other@[j],
            decreases n - i,
        {
            let (an, ae) = &self.entries[i];
            let (bn, be) = &other.entries[i];
            let names_equal = matches!(compare_bytes(an.as_slice(), bn.as_slice()), core::cmp::Ordering::Equal);
            if !names_equal {
                proof {
                    assert(self@[i as int].0 != other@[i as int].0);
                }
                return false;
            }
            let kinds_equal = ae.kind == be.kind;
            let ids_equal = ae.id == be.id;
            if !kinds_equal || !ids_equal {
                proof {
                    assert(self@[i as int] != other@[i as int]);
                }
                return false;
            }
            proof {
                assert(self@[i as int] == other@[i as int]);
            }
            i = i + 1;
        }
        true
    }
}


/// The text listing of one tree entry.
pub open spec fn entry_line(name: Seq<u8>, e: SpecEntry) -> Seq<char> {
    "  "@ + display_name(name) + " "@ + kind_text(e.kind) + " "@ + e.id + "\n"@
}

/// The text listing of a tree's entries, one line each, in stored order.
pub open spec fn entry_lines(t: Seq<(Seq<u8>, SpecEntry)>) -> Seq<char>
    decreases t.len(),
{
    if t.len() == 0 {
        Seq::empty()
    } else {
        entry_line(t.first().0, t.first().1) + entry_lines(t.skip(1))
    }
}

/// The text listing of one stored tree: a header naming its identifier,
/// then its entries.
pub open spec fn tree_block(id: Seq<char>, t: Seq<(Seq<u8>, SpecEntry)>) -> Seq<char> {
    "\ntree "@ + id + "\n"@ + entry_lines(t)
}

/// The text listing of the stored trees, in stored (identifier) order.
pub open spec fn tree_blocks(s: Seq<(Seq<char>, Seq<(Seq<u8>, SpecEntry)>)>) -> Seq<char>
    decreases s.len(),
{
    if s.len() == 0 {
        Seq::empty()
    } else {
        tree_block(s.first().0, s.first().1) + tree_blocks(s.skip(1))
    }
}

/// The full text listing of a snapshot.
pub open spec fn snapshot_listing(
    root: Seq<char>,
    trees: Seq<(Seq<char>, Seq<(Seq<u8>, SpecEntry)>)>,
) -> Seq<char> {
    "root "@ + root + "\n"@ + tree_blocks(trees)
}

/// The set of tree identifiers a snapshot's trees refer to: the root, and
/// every tree-kind entry of every stored tree.
pub open spec fn referenced_ids(
    root: Seq<char>,
    trees: Map<Seq<char>, Seq<(Seq<u8>, SpecEntry)>>,
) -> Set<Seq<char>> {
    Set::new(
        |x: Seq<char>|
            x == root || exists|t: Seq<char>, i: int|
                #![trigger trees[t][i]]
                trees.dom().contains(t) && 0 <= i < trees[t].len() && trees[t][i].1.kind
                    == EntryKind::Tree && trees[t][i].1.id == x,
    )
}

/// An immutable snapshot of code: a root identifier and the closed set of
/// trees reachable from it, stored sorted by identifier.
#[derive(Debug)]
pub struct Snapshot {
    id: ID,
    trees: Vec<(ID, Tree)>,
}

impl Snapshot {
    /// The root identifier.
    pub closed spec fn spec_id(&self) -> Seq<char> {
        self.id@
    }

    /// The stored trees as an identifier-keyed sequence, in stored order.
    pub closed spec fn trees_seq(&self) -> Seq<(Seq<char>, Seq<(Seq<u8>, SpecEntry)>)> {
        self.trees@.map_values(|p: (ID, Tree)| (p.0@, p.1@))
    }

    /// The identifier-to-tree mapping of this snapshot.
    pub open spec fn tree_map(&self) -> Map<Seq<char>, Seq<(Seq<u8>, SpecEntry)>> {
        assoc_map(self.trees_seq())
    }

    /// Trees are sorted by identifier, every tree is well formed, and the
    /// stored identifiers are exactly the referenced ones (the snapshot's
    /// closure invariant).
    pub open spec fn wf(&self) -> bool {
        &&& keys_sorted(self.trees_seq(), id_order())
        &&& forall|i: int|
            0 <= i < self.trees_seq().len() ==> keys_sorted(
                #[trigger] self.trees_seq()[i].1,
                byte_order(),
            )
        &&& self.tree_map().dom() == referenced_ids(self.spec_id(), self.tree_map())
    }

    /// Assembles a snapshot whose closure invariant has been established.
    pub(crate) fn from_parts(id: ID, trees: Vec<(ID, Tree)>) -> (r: Snapshot)
        requires
            keys_sorted(trees@.map_values(|p: (ID, Tree)| (p.0@, p.1@)), id_order()),
            forall|i: int| 0 <= i < trees@.len() ==> (#[trigger] trees@[i].1).wf(),
            assoc_map(trees@.map_values(|p: (ID, Tree)| (p.0@, p.1@))).dom() == referenced_ids(
                id@,
                assoc_map(trees@.map_values(|p: (ID, Tree)| (p.0@, p.1@))),
            ),
        ensures
            r.wf(),
            r.spec_id() == id@,
            r.trees_seq() == trees@.map_values(|p: (ID, Tree)| (p.0@, p.1@)),
    {
        let r = Snapshot { id, trees };
        proof {
            assert forall|i: int| 0 <= i < r.trees_seq().len() implies keys_sorted(
                #[trigger] r.trees_seq()[i].1,
                byte_order(),
            ) by {
                assert(r.trees_seq()[i].1 == r.trees@[i].1@);
            }
        }
        r
    }

    /// Returns the ID of this snapshot.
    pub fn id(&self) -> (r: &ID)
        ensures
            r@ == self.spec_id(),
    {
        &self.id
    }

    /// Returns the trees in this snapshot, sorted by their IDs.
    ///
    /// If two or more subdirectories have the same (recursive) contents,
    /// they are represented by the same tree, stored once and referenced
    /// from each parent.
    pub fn trees(&self) -> (r: &Vec<(ID, Tree)>)
        ensures
            r@.map_values(|p: (ID, Tree)| (p.0@, p.1@)) == self.trees_seq(),
    {
        &self.trees
    }

    /// Returns a renderer for a deterministic, human-readable listing of
    /// the contents of this snapshot, useful for test assertions.
    pub fn render<'a>(&'a self) -> (r: SnapshotRenderer<'a>)
        ensures
            r@ == *self,
    {
        SnapshotRenderer { snapshot: self }
    }
}

/// Renders a human-readable description of a snapshot's contents.
pub struct SnapshotRenderer<'a> {
    snapshot: &'a Snapshot,
}

impl<'a> View for SnapshotRenderer<'a> {
    type V = Snapshot;

    closed spec fn view(&self) -> Snapshot {
        *self.snapshot
    }
}

impl<'a> SnapshotRenderer<'a> {
    /// Renders the listing: a `root` header line, then one block per
    /// stored tree, in identifier order, each entry on a line of its own.
    pub fn to_string(&self) -> (r: String)
        ensures
            r@ == snapshot_listing(self@.spec_id(), self@.trees_seq()),
    {
        let snapshot = self.snapshot;
        let ghost target = snapshot_listing(snapshot.spec_id(), snapshot.trees_seq());
        let ghost ts = snapshot.trees_seq();
        let mut out = String::new();
        out.append("root ");
        out.append(snapshot.id.as_str());
        out.append("\n");
        proof {
            assert(ts.skip(0) =~= ts);
            assert(out@ + tree_blocks(ts) =~= target);
        }
        let n: usize = snapshot.trees.len();
        let mut i: usize = 0;
        while i < n
            invariant
                i <= n,
                n == snapshot.trees@.len(),
                snapshot == self.snapshot,
                ts == snapshot.trees_seq(),
                ts.len() == n,
                target == snapshot_listing(self@.spec_id(), self@.trees_seq()),
                out@ + tree_blocks(ts.skip(i as int)) == target,
            decreases n - i,
        {
            proof {
                let rest = ts.skip(i as int);
                assert(rest.first() == ts[i as int]);
                assert(rest.skip(1) =~= ts.skip(i + 1));
                assert(ts[i as int].0 == snapshot.trees@[i as int].0@);
                assert(ts[i as int].1 == snapshot.trees@[i as int].1@);
            }
            let tree_id = &snapshot.trees[i].0;
            let tree = &snapshot.trees[i].1;
            out.append("\ntree ");
            out.append(tree_id.as_str());
            out.append("\n");
            let ghost tv = tree@;
            let entries = tree.iter();
            let m: usize = entries.len();
            proof {
                assert(tv.skip(0) =~= tv);
                assert(out@ + entry_lines(tv) + tree_blocks(ts.skip(i + 1)) =~= target);
            }
            let mut j: usize = 0;
            while j < m
                invariant
                    j <= m,
                    m == entries@.len(),
                    tv == entries@.map_values(|p: (Vec<u8>, TreeEntry)| (p.0@, p.1@)),
                    tv.len() == m,
                    target == snapshot_listing(self@.spec_id(), self@.trees_seq()),
                    ts == self@.trees_seq(),
                    i < ts.len(),
                    out@ + entry_lines(tv.skip(j as int)) + tree_blocks(ts.skip(i + 1)) == target,
                decreases m - j,
            {
                proof {
                    let erest = tv.skip(j as int);
                    assert(erest.first() == tv[j as int]);
                    assert(erest.skip(1) =~= tv.skip(j + 1));
                    assert(tv[j as int].0 == entries@[j as int].0@);
                    assert(tv[j as int].1 == entries@[j as int].1@);
                }
                out.append("  ");
                push_display_name(&mut out, entries[j].0.as_slice());
                out.append(" ");
                out.append(entries[j].1.kind.as_str());
                out.append(" ");
                out.append(entries[j].1.id.as_str());
                out.append("\n");
                proof {
                    assert(out@ + entry_lines(tv.skip(j + 1)) + tree_blocks(ts.skip(i + 1))
                        =~= target);
                }
                j = j + 1;
            }
            proof {
                assert(tv.skip(m as int) =~= Seq::<(Seq<u8>, SpecEntry)>::empty());
                assert(out@ + tree_blocks(ts.skip(i + 1)) =~= target);
            }
            i = i + 1;
        }
        proof {
            assert(ts.skip(n as int) =~= Seq::<(Seq<char>, Seq<(Seq<u8>, SpecEntry)>)>::empty());
            assert(out@ =~= target);
        }
        out
    }
}


impl Clone for Tree {
    fn clone(&self) -> (r: Tree)
        ensures
            r@ == self@,
    {
        let n: usize = self.entries.len();
        let mut entries: Vec<(Vec<u8>, TreeEntry)> = Vec::new();
        let mut i: usize = 0;
        proof {
            assert(entries@.map_values(|p: (Vec<u8>, TreeEntry)| (p.0@, p.1@)) =~= self@.take(0));
        }
        while i < n
            invariant
                i <= n,
                n == self.entries@.len(),
                entries@.map_values(|p: (Vec<u8>, TreeEntry)| (p.0@, p.1@)) == self@.take(i as int),
            decreases n - i,
        {
            let name = crate::lex::copy_bytes(&self.entries[i].0);
            let entry = self.entries[i].1.clone();
            entries.push((name, entry));
            proof {
                assert(self@[i as int] == (self.entries@[i as int].0@, self.entries@[
                    i as int].1@));
                assert(self@.take(i + 1) =~= self@.take(i as int).push(self@[i as int]));
                assert(entries@.map_values(|p: (Vec<u8>, TreeEntry)| (p.0@, p.1@)) =~= self@.take(
                    i + 1,
                ));
            }
            i = i + 1;
        }
        proof {
            assert(self@.take(n as int) =~= self@);
        }
        Tree { entries }
    }
}

impl Clone for Snapshot {
    fn clone(&self) -> (r: Snapshot)
        ensures
            r.spec_id() == self.spec_id(),
            r.trees_seq() == self.trees_seq(),
    {
        let n: usize = self.trees.len();
        let mut trees: Vec<(ID, Tree)> = Vec::new();
        let mut i: usize = 0;
        proof {
            assert(trees@.map_values(|p: (ID, Tree)| (p.0@, p.1@)) =~= self.trees_seq().take(0));
        }
        while i < n
            invariant
                i <= n,
                n == self.trees@.len(),
                self.trees_seq().len() == n,
                trees@.map_values(|p: (ID, Tree)| (p.0@, p.1@)) == self.trees_seq().take(i as int),
            decreases n - i,
        {
            let id = self.trees[i].0.clone();
            let tree = self.trees[i].1.clone();
            trees.push((id, tree));
            proof {
                assert(self.trees_seq()[i as int] == (self.trees@[i as int].0@, self.trees@[
                    i as int].1@));
                assert(self.trees_seq().take(i + 1) =~= self.trees_seq().take(i as int).push(
                    self.trees_seq()[i as int],
                ));
                assert(trees@.map_values(|p: (ID, Tree)| (p.0@, p.1@)) =~= self.trees_seq().take(
                    i + 1,
                ));
            }
            i = i + 1;
        }
        proof {
            assert(self.trees_seq().take(n as int) =~= self.trees_seq());
        }
        Snapshot { id: self.id.clone(), trees }
    }
}

/// Law: the rendered listing is a function of the snapshot's content.
/// Two well-formed snapshots with the same root identifier and the same
/// identifier-to-tree mapping hold their trees in the same canonical
/// order and render to the same text, run after run.
pub proof fn lemma_listing_canonical(s1: Snapshot, s2: Snapshot)
    requires
        s1.wf(),
        s2.wf(),
        s1.spec_id() == s2.spec_id(),
        s1.tree_map() == s2.tree_map(),
    ensures
        s1.trees_seq() == s2.trees_seq(),
        snapshot_listing(s1.spec_id(), s1.trees_seq()) == snapshot_listing(
            s2.spec_id(),
            s2.trees_seq(),
        ),
{
    crate::lex::lemma_id_order_strict();
    crate::assoc::lemma_sorted_assoc_unique(
        s1.trees_seq(),
        s2.trees_seq(),
        crate::lex::id_order(),
    );
}
} // verus!
