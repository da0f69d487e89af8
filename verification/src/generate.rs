//! Generates identifiers for files and trees from their content.
//!
//! A generated identifier is the lowercase hexadecimal SHA-256 digest of
//! the content, prefixed with the algorithm-version tag `v0:`.  The tag
//! ensures that identifiers produced by different hashing schemes are
//! never equal to each other, so a cached result can never be reused
//! under a different algorithm.  For a tree, the hashed content is built
//! from the entries in their canonical (name-sorted) stored order; each
//! per-field length is mixed in as eight little-endian bytes, which the
//! `v0:` tag fixes as part of the scheme.

use vstd::prelude::*;
use vstd::bytes::{spec_u64_to_le_bytes, u64_to_le_bytes};
use vstd::utf8::encode_utf8;
use crate::text::hex_digit;
use crate::{EntryKind, ID, SpecEntry, Tree, TreeEntry};

verus! {

/// A SHA-256 hasher together with the bytes it has absorbed so far.
/// Holds the outside hasher opaquely; the named functions below say what
/// the crate relies on about it.
#[verifier::external_body]
pub struct Sha256State {
    inner: sha2::Sha256,
}

/// The bytes a hasher has absorbed since it was created.
pub uninterp spec fn sha_absorbed(h: Sha256State) -> Seq<u8>;

/// The SHA-256 digest of a byte sequence.  The digest is a pure function
/// of the bytes alone; nothing else is assumed about it.
pub uninterp spec fn sha256_of(bytes: Seq<u8>) -> Seq<u8>;

/// Relies on `sha2::Sha256::new` (through the `Digest` interface): a
/// fresh hasher has absorbed nothing.
#[verifier::external_body]
fn sha_new() -> (h: Sha256State)
    ensures
        sha_absorbed(h) == Seq::<u8>::empty(),
{
    Sha256State { inner: <sha2::Sha256 as sha2::Digest>::new() }
}

/// Relies on `sha2::Sha256::update`: absorbing appends the given bytes to
/// the absorbed content.
#[verifier::external_body]
fn sha_update(h: &mut Sha256State, bytes: &[u8])
    ensures
        sha_absorbed(*final(h)) == sha_absorbed(*old(h)) + bytes@,
{
    sha2::Digest::update(&mut h.inner, bytes);
}

/// Relies on `sha2::Sha256::finalize`: the digest depends on the absorbed
/// bytes alone, and is 32 bytes long.
#[verifier::external_body]
fn sha_finalize(h: Sha256State) -> (d: Vec<u8>)
    ensures
        d@ == sha256_of(sha_absorbed(h)),
        d@.len() == 32,
{
    sha2::Digest::finalize(h.inner).to_vec()
}

/// The lowercase hexadecimal encoding of a byte sequence: two digits per
/// byte, high nibble first.
pub open spec fn hex_of(bytes: Seq<u8>) -> Seq<char>
    decreases bytes.len(),
{
    if bytes.len() == 0 {
        Seq::empty()
    } else {
        seq![hex_digit(bytes.first() / 16), hex_digit(bytes.first() % 16)] + hex_of(bytes.skip(1))
    }
}

/// Relies on `base16ct::lower::encode_string`: encodes each byte as two
/// lowercase hexadecimal digits, high nibble first, in input order.  The
/// length bound keeps the doubled output length representable, which the
/// crate otherwise treats as a panic.
#[verifier::external_body]
fn hex_lower(bytes: &[u8]) -> (r: String)
    requires
        bytes@.len() <= usize::MAX / 2,
    ensures
        r@ == hex_of(bytes@),
{
    base16ct::lower::encode_string(bytes)
}

/// The identifier generated for file content: the versioned, hex-encoded
/// digest of the bytes.
pub open spec fn spec_file_id(content: Seq<u8>) -> Seq<char> {
    "v0:"@ + hex_of(sha256_of(content))
}

/// The one-byte discriminator mixed into a tree hash for an entry's kind.
pub open spec fn kind_byte(k: EntryKind) -> u8 {
    match k {
        EntryKind::File => 70,
        EntryKind::Tree => 84,
    }
}

/// The bytes one entry contributes to its tree's hashed content: the name
/// length (eight little-endian bytes), the name, the kind discriminator,
/// the identifier length (eight little-endian bytes), and the identifier
/// bytes.
pub open spec fn entry_hash_bytes(name: Seq<u8>, e: SpecEntry) -> Seq<u8> {
    spec_u64_to_le_bytes(name.len() as u64) + name + seq![kind_byte(e.kind)]
        + spec_u64_to_le_bytes(encode_utf8(e.id).len() as u64) + encode_utf8(e.id)
}

/// The bytes a tree's entry list hashes to form its identifier, in stored
/// (name-sorted) order.
pub open spec fn tree_hash_input(entries: Seq<(Seq<u8>, SpecEntry)>) -> Seq<u8>
    decreases entries.len(),
{
    if entries.len() == 0 {
        Seq::empty()
    } else {
        entry_hash_bytes(entries.first().0, entries.first().1) + tree_hash_input(entries.skip(1))
    }
}

/// The identifier generated for a tree: the versioned, hex-encoded digest
/// of its entries' hashed content.
pub open spec fn spec_tree_id(entries: Seq<(Seq<u8>, SpecEntry)>) -> Seq<char> {
    "v0:"@ + hex_of(sha256_of(tree_hash_input(entries)))
}

/// Turns a finished hasher into a versioned identifier.
fn finish_id(h: Sha256State) -> (r: ID)
    ensures
        r@ == spec_file_id(sha_absorbed(h)),
{
    let digest = sha_finalize(h);
    let hex = hex_lower(digest.as_slice());
    let mut text = String::from_str("v0:");
    text.append(hex.as_str());
    ID::new(text)
}

/// Hashes file content incrementally, so that an identifier can be
/// computed from a stream without buffering the whole input.  Feed the
/// content in chunks with [`update`][Self::update], in order; the
/// resulting identifier depends only on the concatenation of the chunks.
pub struct FileIdHasher {
    state: Sha256State,
    content: Ghost<Seq<u8>>,
}

impl FileIdHasher {
    /// The hasher's bookkeeping matches the hasher state.
    pub closed spec fn wf(&self) -> bool {
        self.content@ == sha_absorbed(self.state)
    }

    /// The content absorbed so far.
    pub closed spec fn absorbed(&self) -> Seq<u8> {
        self.content@
    }

    /// Creates a hasher that has absorbed nothing.
    pub fn new() -> (h: FileIdHasher)
        ensures
            h.wf(),
            h.absorbed() == Seq::<u8>::empty(),
    {
        FileIdHasher { state: sha_new(), content: Ghost(Seq::empty()) }
    }

    /// Absorbs the next chunk of the content.
    pub fn update(&mut self, chunk: &[u8])
        requires
            old(self).wf(),
        ensures
            final(self).wf(),
            final(self).absorbed() == old(self).absorbed() + chunk@,
    {
        sha_update(&mut self.state, chunk);
        proof {
            self.content@ = self.content@ + chunk@;
        }
    }

    /// Returns the identifier of the absorbed content: the same
    /// identifier [`ID::generate_file_id`] gives for the concatenation of
    /// the chunks.
    pub fn finish(self) -> (r: ID)
        requires
            self.wf(),
        ensures
            r@ == spec_file_id(self.absorbed()),
    {
        finish_id(self.state)
    }
}

impl ID {
    /// Generates a file ID from the contents of a file that is fully
    /// available in memory.  Files with the same content are guaranteed
    /// to have the same ID.
    ///
    /// The algorithm behind generated IDs may change in future versions,
    /// but a generated ID always carries a version prefix, so IDs
    /// generated by different algorithms are never equal.
    pub fn generate_file_id(content: &[u8]) -> (r: ID)
        ensures
            r@ == spec_file_id(content@),
    {
        let mut h = sha_new();
        sha_update(&mut h, content);
        proof {
            assert(Seq::<u8>::empty() + content@ =~= content@);
        }
        finish_id(h)
    }

    /// Generates a tree ID from the contents of a [`Tree`].  Trees with
    /// the same content (the same named entries, by kind and identifier)
    /// are guaranteed to have the same ID.
    ///
    /// The algorithm behind generated IDs may change in future versions,
    /// but a generated ID always carries a version prefix, so IDs
    /// generated by different algorithms are never equal.
    pub fn generate_tree_id(tree: &Tree) -> (r: ID)
        ensures
            r@ == spec_tree_id(tree@),
    {
        let ghost tv = tree@;
        let entries = tree.iter();
        let n: usize = entries.len();
        let mut h = sha_new();
        proof {
            assert(tv.skip(0) =~= tv);
            assert(Seq::<u8>::empty() + tree_hash_input(tv) =~= tree_hash_input(tv));
        }
        let mut i: usize = 0;
        while i < n
            invariant
                i <= n,
                n == entries@.len(),
                tv == entries@.map_values(|p: (Vec<u8>, TreeEntry)| (p.0@, p.1@)),
                tv.len() == n,
                sha_absorbed(h) + tree_hash_input(tv.skip(i as int)) == tree_hash_input(tv),
            decreases n - i,
        {
            proof {
                let rest = tv.skip(i as int);
                assert(rest.first() == tv[i as int]);
                assert(rest.skip(1) =~= tv.skip(i + 1));
                assert(tv[i as int].0 == entries@[i as int].0@);
                assert(tv[i as int].1 == entries@[i as int].1@);
            }
            let name = &entries[i].0;
            let entry = &entries[i].1;
            let name_len = u64_to_le_bytes(name.len() as u64);
            sha_update(&mut h, name_len.as_slice());
            sha_update(&mut h, name.as_slice());
            let discriminator: Vec<u8> = match entry.kind {
                EntryKind::File => vec![70],
                EntryKind::Tree => vec![84],
            };
            sha_update(&mut h, discriminator.as_slice());
            let id_bytes = entry.id.as_str().as_bytes();
            let id_len = u64_to_le_bytes(id_bytes.len() as u64);
            sha_update(&mut h, id_len.as_slice());
            sha_update(&mut h, id_bytes);
            proof {
                assert(discriminator@ =~= seq![kind_byte(tv[i as int].1.kind)]);
                assert(id_bytes@ == encode_utf8(tv[i as int].1.id));
                assert(sha_absorbed(h) + tree_hash_input(tv.skip(i + 1)) =~= tree_hash_input(tv));
            }
            i = i + 1;
        }
        proof {
            assert(tv.skip(n as int) =~= Seq::<(Seq<u8>, SpecEntry)>::empty());
            assert(sha_absorbed(h) =~= tree_hash_input(tv));
        }
        finish_id(h)
    }
}

/// Law: the identifier of a tree is canonical.  Two well-formed trees
/// that stand for the same name-to-entry mapping — however their entries
/// were inserted — hold equal entry lists and generate equal identifiers.
pub proof fn lemma_tree_id_canonical(t1: Tree, t2: Tree)
    requires
        t1.wf(),
        t2.wf(),
        t1.entry_map() == t2.entry_map(),
    ensures
        t1@ == t2@,
        spec_tree_id(t1@) == spec_tree_id(t2@),
{
    crate::lex::lemma_byte_order_strict();
    crate::assoc::lemma_sorted_assoc_unique(t1@, t2@, crate::lex::byte_order());
}

/// Law: an empty tree generates the same identifier as empty file
/// content; both reduce to the digest of no bytes.
pub proof fn lemma_empty_tree_id_matches_empty_file_id()
    ensures
        spec_tree_id(Seq::<(Seq<u8>, SpecEntry)>::empty()) == spec_file_id(Seq::<u8>::empty()),
{
    assert(tree_hash_input(Seq::<(Seq<u8>, SpecEntry)>::empty()) == Seq::<u8>::empty());
}

} // verus!
