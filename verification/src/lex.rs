//! Lexicographic ordering over byte strings.
//!
//! Tree entries are ordered by name and snapshot trees by identifier, in
//! both cases lexicographically over the raw bytes.  This module defines
//! the order, proves that it is a strict total order, and provides an
//! executable three-way comparison.

use vstd::prelude::*;
use vstd::utf8::{encode_utf8, decode_utf8};
use crate::assoc::strict_order;

verus! {

/// `a` comes strictly before `b` in lexicographic byte order.
pub open spec fn bytes_lt(a: Seq<u8>, b: Seq<u8>) -> bool
    decreases a.len(),
{
    if b.len() == 0 {
        false
    } else if a.len() == 0 {
        true
    } else if a[0] != b[0] {
        a[0] < b[0]
    } else {
        bytes_lt(a.skip(1), b.skip(1))
    }
}

/// The order is irreflexive.
pub proof fn lemma_bytes_lt_irreflexive(a: Seq<u8>)
    ensures
        !bytes_lt(a, a),
    decreases a.len(),
{
    if a.len() > 0 {
        lemma_bytes_lt_irreflexive(a.skip(1));
    }
}

/// Two byte strings that neither precede nor follow each other are equal.
pub proof fn lemma_bytes_lt_connected(a: Seq<u8>, b: Seq<u8>)
    requires
        !bytes_lt(a, b),
        !bytes_lt(b, a),
    ensures
        a == b,
    decreases a.len(),
{
    if a.len() == 0 || b.len() == 0 {
        assert(a =~= b);
    } else {
        lemma_bytes_lt_connected(a.skip(1), b.skip(1));
        assert(a =~= seq![a[0]] + a.skip(1));
        assert(b =~= seq![b[0]] + b.skip(1));
    }
}

/// The order is transitive.
pub proof fn lemma_bytes_lt_transitive(a: Seq<u8>, b: Seq<u8>, c: Seq<u8>)
    requires
        bytes_lt(a, b),
        bytes_lt(b, c),
    ensures
        bytes_lt(a, c),
    decreases a.len(),
{
    if a.len() != 0 && b.len() != 0 && c.len() != 0 {
        if a[0] == b[0] && b[0] == c[0] {
            lemma_bytes_lt_transitive(a.skip(1), b.skip(1), c.skip(1));
        }
    }
}

/// Strictly ordered byte strings are distinct.
pub proof fn lemma_bytes_lt_ne(a: Seq<u8>, b: Seq<u8>)
    requires
        bytes_lt(a, b),
    ensures
        a != b,
{
    lemma_bytes_lt_irreflexive(a);
}

/// Compares two byte strings lexicographically.
pub fn compare_bytes(a: &[u8], b: &[u8]) -> (o: core::cmp::Ordering)
    ensures
        o is Less <==> bytes_lt(a@, b@),
        o is Greater <==> bytes_lt(b@, a@),
        o is Equal <==> a@ == b@,
{
    proof {
        lemma_bytes_lt_irreflexive(a@);
        lemma_bytes_lt_irreflexive(b@);
        assert(a@.skip(0) =~= a@);
        assert(b@.skip(0) =~= b@);
        assert(a@.subrange(0, 0) =~= b@.subrange(0, 0));
    }
    let a_len: usize = a.len();
    let b_len: usize = b.len();
    let mut i: usize = 0;
    loop
        invariant
            i <= a_len <= a@.len(),
            i <= b_len <= b@.len(),
            a_len == a@.len(),
            b_len == b@.len(),
            a@.subrange(0, i as int) == b@.subrange(0, i as int),
            bytes_lt(a@, b@) <==> bytes_lt(a@.skip(i as int), b@.skip(i as int)),
            bytes_lt(b@, a@) <==> bytes_lt(b@.skip(i as int), a@.skip(i as int)),
            (a@ == b@) <==> (a@.skip(i as int) == b@.skip(i as int)),
        decreases a_len - i,
    {
        if i == a_len {
            if i == b_len {
                proof {
                    assert(a@.skip(i as int) =~= b@.skip(i as int));
                }
                return core::cmp::Ordering::Equal;
            }
            proof {
                lemma_bytes_lt_ne(a@.skip(i as int), b@.skip(i as int));
            }
            return core::cmp::Ordering::Less;
        }
        if i == b_len {
            proof {
                lemma_bytes_lt_ne(b@.skip(i as int), a@.skip(i as int));
            }
            return core::cmp::Ordering::Greater;
        }
        if a[i] != b[i] {
            proof {
                let sa = a@.skip(i as int);
                let sb = b@.skip(i as int);
                assert(sa[0] == a@[i as int] && sb[0] == b@[i as int]);
                if a@[i as int] < b@[i as int] {
                    lemma_bytes_lt_ne(sa, sb);
                } else {
                    lemma_bytes_lt_ne(sb, sa);
                }
            }
            if a[i] < b[i] {
                return core::cmp::Ordering::Less;
            } else {
                return core::cmp::Ordering::Greater;
            }
        }
        proof {
            let sa = a@.skip(i as int);
            let sb = b@.skip(i as int);
            assert(sa.skip(1) =~= a@.skip(i + 1));
            assert(sb.skip(1) =~= b@.skip(i + 1));
            assert(sa[0] == sb[0]);
            assert(sa =~= seq![sa[0]] + sa.skip(1));
            assert(sb =~= seq![sb[0]] + sb.skip(1));
            assert((sa == sb) ==> (sa.skip(1) == sb.skip(1))) by {
                if sa == sb {
                    assert(sa.skip(1) =~= sb.skip(1));
                }
            }
            assert((sa.skip(1) == sb.skip(1)) ==> sa == sb);
            assert(a@.subrange(0, i + 1) =~= a@.subrange(0, i as int) + seq![a@[i as int]]);
            assert(b@.subrange(0, i + 1) =~= b@.subrange(0, i as int) + seq![b@[i as int]]);
        }
        i = i + 1;
    }
}

/// The byte order as a closure, for sortedness statements.
pub open spec fn byte_order() -> spec_fn(Seq<u8>, Seq<u8>) -> bool {
    |a: Seq<u8>, b: Seq<u8>| bytes_lt(a, b)
}

pub proof fn lemma_byte_order_strict()
    ensures
        strict_order(byte_order()),
{
    let lt = byte_order();
    assert forall|a: Seq<u8>| !#[trigger] lt(a, a) by {
        lemma_bytes_lt_irreflexive(a);
    }
    assert forall|a: Seq<u8>, b: Seq<u8>, c: Seq<u8>|
        #[trigger] lt(a, b) && #[trigger] lt(b, c) implies lt(a, c) by {
        lemma_bytes_lt_transitive(a, b, c);
    }
}

/// Identifiers are ordered lexicographically over their encoded (UTF-8)
/// form, so hash-based and order-based containers agree on identity.
pub open spec fn id_lt(a: Seq<char>, b: Seq<char>) -> bool {
    bytes_lt(encode_utf8(a), encode_utf8(b))
}

/// The identifier order as a closure, for sortedness statements.
pub open spec fn id_order() -> spec_fn(Seq<char>, Seq<char>) -> bool {
    |a: Seq<char>, b: Seq<char>| id_lt(a, b)
}

pub proof fn lemma_id_order_strict()
    ensures
        strict_order(id_order()),
{
    let lt = id_order();
    assert forall|a: Seq<char>| !#[trigger] lt(a, a) by {
        lemma_bytes_lt_irreflexive(encode_utf8(a));
    }
    assert forall|a: Seq<char>, b: Seq<char>, c: Seq<char>|
        #[trigger] lt(a, b) && #[trigger] lt(b, c) implies lt(a, c) by {
        lemma_bytes_lt_transitive(encode_utf8(a), encode_utf8(b), encode_utf8(c));
    }
}

/// Two identifiers that neither precede nor follow each other are equal.
pub proof fn lemma_id_lt_connected(a: Seq<char>, b: Seq<char>)
    requires
        !id_lt(a, b),
        !id_lt(b, a),
    ensures
        a == b,
{
    broadcast use vstd::utf8::encode_utf8_decode_utf8;

    lemma_bytes_lt_connected(encode_utf8(a), encode_utf8(b));
    assert(decode_utf8(encode_utf8(a)) == decode_utf8(encode_utf8(b)));
}


/// Copies a byte string.
pub fn copy_bytes(v: &Vec<u8>) -> (r: Vec<u8>)
    ensures
        r@ == v@,
{
    let r = v.clone();
    proof {
        assert forall|i: int| 0 <= i < r@.len() implies r@[i] == v@[i] by {
            assert(vstd::pervasive::cloned::<u8>(v@[i], r@[i]));
        }
        assert(r@ =~= v@);
    }
    r
}
} // verus!
