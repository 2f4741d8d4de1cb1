//! The hash utility: node commitments and key-derived priorities.
use vstd::prelude::*;
use core::cmp::Ordering;
use sha2::Digest;
use crate::bytes::{compare_bytes, lex_lt, lemma_lex_asymmetric, lemma_lex_total};
use crate::{Key, Priority};

verus! {

/// The SHA-256 digest of a byte string.
pub uninterp spec fn sha256_of(data: Seq<u8>) -> Seq<u8>;

/// Relies on sha2::Sha256::digest: the 32-byte SHA-256 digest of `data`.
#[verifier::external_body]
fn sha256(data: &[u8]) -> (r: Vec<u8>)
    ensures
        r@ == sha256_of(data@),
        r@.len() == 32,
{
    sha2::Sha256::digest(data).to_vec()
}

/// A hash primitive that the tree commits with.
pub trait Hasher {
    /// The digest of `data`, as a function of its bytes alone.
    spec fn digest(data: Seq<u8>) -> Seq<u8>;

    /// The length of every digest, at least 16 bytes: priorities are read
    /// from the first 16.
    spec fn digest_len() -> nat;

    fn hash(data: &[u8]) -> (r: crate::Hash)
        ensures
            r@ == Self::digest(data@),
            r@.len() == Self::digest_len(),
            Self::digest_len() >= 16,
    ;
}

/// SHA-256 with its 32-byte digest, the primitive that trees commit with
/// unless another is chosen.
pub struct Sha256Hasher;

impl Hasher for Sha256Hasher {
    open spec fn digest(data: Seq<u8>) -> Seq<u8> {
        sha256_of(data)
    }

    open spec fn digest_len() -> nat {
        32
    }

    fn hash(data: &[u8]) -> (r: crate::Hash) {
        sha256(data)
    }
}

/// The two child hashes concatenated in ascending byte order.
pub open spec fn sorted_concat(a: Seq<u8>, b: Seq<u8>) -> Seq<u8> {
    if lex_lt(a, b) {
        a + b
    } else {
        b + a
    }
}

/// The commitment of a node with key `key` whose children commit to `a` and `b`.
pub open spec fn node_hash<H: Hasher>(key: Seq<u8>, a: Seq<u8>, b: Seq<u8>) -> Seq<u8> {
    H::digest(key + sorted_concat(a, b))
}

/// A node's commitment does not depend on which side each child hash stands.
pub proof fn lemma_node_hash_commutes<H: Hasher>(key: Seq<u8>, a: Seq<u8>, b: Seq<u8>)
    ensures
        node_hash::<H>(key, a, b) == node_hash::<H>(key, b, a),
{
    if a != b {
        lemma_lex_total(a, b);
        if lex_lt(a, b) {
            lemma_lex_asymmetric(a, b);
        } else {
            lemma_lex_asymmetric(b, a);
        }
    }
}

fn append_bytes(buf: &mut Vec<u8>, data: &[u8])
    ensures
        final(buf)@ == old(buf)@ + data@,
{
    let mut i: usize = 0;
    while i < data.len()
        invariant
            0 <= i <= data@.len(),
            buf@ == old(buf)@ + data@.subrange(0, i as int),
        decreases data@.len() - i,
    {
        buf.push(data[i]);
        assert(data@.subrange(0, i + 1) =~= data@.subrange(0, i as int).push(data@[i as int]));
        i = i + 1;
    }
    assert(data@.subrange(0, i as int) =~= data@);
}

/// The commitment of a node: the digest of its key followed by the two child
/// hashes in ascending byte order.
pub fn calculate_merkle_hash<H: Hasher>(key: &[u8], left_child_hash: &[u8], right_child_hash: &[u8]) -> (r: crate::Hash)
    ensures
        r@ == node_hash::<H>(key@, left_child_hash@, right_child_hash@),
        r@.len() == H::digest_len(),
{
    let mut buf: Vec<u8> = Vec::new();
    append_bytes(&mut buf, key);
    match compare_bytes(left_child_hash, right_child_hash) {
        Ordering::Less => {
            append_bytes(&mut buf, left_child_hash);
            append_bytes(&mut buf, right_child_hash);
        },
        _ => {
            append_bytes(&mut buf, right_child_hash);
            append_bytes(&mut buf, left_child_hash);
        },
    }
    assert(buf@ =~= key@ + sorted_concat(left_child_hash@, right_child_hash@));
    H::hash(buf.as_slice())
}

/// The unsigned number that a byte string spells in big-endian order.
pub open spec fn be_value(s: Seq<u8>) -> nat
    decreases s.len(),
{
    if s.len() == 0 {
        0
    } else {
        (be_value(s.drop_last()) * 256 + s.last()) as nat
    }
}

pub open spec fn pow256(n: nat) -> nat
    decreases n,
{
    if n == 0 {
        1
    } else {
        256 * pow256((n - 1) as nat)
    }
}

/// Two's complement reading of a 128-bit unsigned number.
pub open spec fn as_signed128(u: nat) -> int {
    if u >= 0x8000_0000_0000_0000_0000_0000_0000_0000 {
        u - 0x1_0000_0000_0000_0000_0000_0000_0000_0000
    } else {
        u as int
    }
}

/// The priority of a key: the first 16 bytes of its digest, read as a
/// big-endian signed 128-bit integer.
pub open spec fn priority_of<H: Hasher>(key: Seq<u8>) -> int {
    as_signed128(be_value(H::digest(key).subrange(0, 16)))
}

/// Derives a key's priority from its digest.
pub fn find_priority<H: Hasher>(key: &Key) -> (p: Priority)
    ensures
        p == priority_of::<H>(key@),
{
    let digest = H::hash(key.as_slice());
    let mut acc: u128 = 0;
    let mut i: usize = 0;
    assert(pow256(0) == 1);
    while i < 16
        invariant
            0 <= i <= 16,
            digest@.len() >= 16,
            digest@ == H::digest(key@),
            acc == be_value(digest@.subrange(0, i as int)),
            acc < pow256(i as nat),
        decreases 16 - i,
    {
        let ghost prev = acc;
        let b = digest[i];
        assert(pow256((i + 1) as nat) == 256 * pow256(i as nat));
        assert(pow256(i as nat) <= pow256(15)) by {
            lemma_pow256_mono(i as nat, 15);
        }
        assert(pow256(15) == 0x100_0000_0000_0000_0000_0000_0000_0000) by {
            reveal_with_fuel(pow256, 16);
        }
        assert(prev * 256 + b < 256 * pow256(i as nat)) by (nonlinear_arith)
            requires
                prev < pow256(i as nat),
                b < 256,
        ;
        acc = acc * 256 + b as u128;
        assert(digest@.subrange(0, i + 1).drop_last() =~= digest@.subrange(0, i as int));
        i = i + 1;
    }
    if acc >= 0x8000_0000_0000_0000_0000_0000_0000_0000 {
        let low = (acc - 0x8000_0000_0000_0000_0000_0000_0000_0000) as i128;
        i128::MIN + low
    } else {
        acc as i128
    }
}

proof fn lemma_pow256_mono(a: nat, b: nat)
    requires
        a <= b,
    ensures
        pow256(a) <= pow256(b),
    decreases b,
{
    if a < b {
        lemma_pow256_mono(a, (b - 1) as nat);
    }
}

} // verus!
