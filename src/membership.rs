//! Membership and non-membership proofs, and their verification against a
//! root hash alone.
use vstd::prelude::*;
use core::cmp::Ordering;
use crate::bytes::compare_bytes;
use crate::hashing::{calculate_merkle_hash, node_hash, Hasher};
use crate::Key;

verus! {

/// A proof for one key. The search for the key ends at a node: the one
/// holding the key, or the one beside whose empty slot the key would go.
/// `prefix` holds, root first, each node above it with the commitment of its
/// child off the search path; `suffix` the two child commitments of the node
/// where the search ended; `existence` whether that node holds the key, and
/// `nonexistence_key` its key where it does not. The empty tree gives no
/// path, empty commitments and no witness.
pub struct Proof {
    pub prefix: Vec<(Key, crate::Hash)>,
    pub suffix: [crate::Hash; 2],
    pub existence: bool,
    pub nonexistence_key: Option<Key>,
}

/// The content of a proof, as byte strings.
pub ghost struct ProofView {
    pub prefix: Seq<(Seq<u8>, Seq<u8>)>,
    pub suffix: (Seq<u8>, Seq<u8>),
    pub existence: bool,
    pub nonexistence_key: Option<Seq<u8>>,
}

pub open spec fn pair_view(e: (Key, crate::Hash)) -> (Seq<u8>, Seq<u8>) {
    (e.0@, e.1@)
}

pub open spec fn key_view(k: Option<Key>) -> Option<Seq<u8>> {
    match k {
        None => None,
        Some(k) => Some(k@),
    }
}

impl View for Proof {
    type V = ProofView;

    open spec fn view(&self) -> ProofView {
        ProofView {
            prefix: self.prefix@.map_values(|e: (Key, crate::Hash)| pair_view(e)),
            suffix: (self.suffix[0]@, self.suffix[1]@),
            existence: self.existence,
            nonexistence_key: key_view(self.nonexistence_key),
        }
    }
}

/// Folds the path into the accumulator, nearest node first:
/// each step hashes the node's key with the accumulator and the stored hash.
pub open spec fn fold_path<H: Hasher>(prefix: Seq<(Seq<u8>, Seq<u8>)>, acc: Seq<u8>) -> Seq<u8>
    decreases prefix.len(),
{
    if prefix.len() == 0 {
        acc
    } else {
        fold_path::<H>(prefix.drop_last(), node_hash::<H>(prefix.last().0, acc, prefix.last().1))
    }
}

impl ProofView {
    /// Whether the proof, replayed for `key`, rebuilds `root`. A proof of
    /// absence without a witness key stands only for the empty tree: no
    /// path, empty child hashes, and an empty root hash.
    pub open spec fn accepts<H: Hasher>(self, key: Seq<u8>, root: Seq<u8>) -> bool {
        if self.existence {
            fold_path::<H>(self.prefix, node_hash::<H>(key, self.suffix.0, self.suffix.1)) == root
        } else {
            match self.nonexistence_key {
                Some(w) => fold_path::<H>(self.prefix, node_hash::<H>(w, self.suffix.0, self.suffix.1)) == root,
                None => {
                    &&& self.prefix.len() == 0
                    &&& self.suffix.0.len() == 0
                    &&& self.suffix.1.len() == 0
                    &&& root.len() == 0
                },
            }
        }
    }
}

/// Checks a proof for `key` against a trusted root hash, without the tree.
/// A malformed proof is rejected, never a cause of failure.
pub fn verify_proof<H: Hasher>(proof: Proof, key: Key, root_hash: crate::Hash) -> (r: bool)
    ensures
        r == proof@.accepts::<H>(key@, root_hash@),
{
    let ghost pv = proof@;
    let start: Key = if proof.existence {
        key
    } else {
        match proof.nonexistence_key {
            Some(w) => w,
            None => {
                return proof.prefix.len() == 0 && proof.suffix[0].len() == 0 && proof.suffix[1].len() == 0
                    && root_hash.len() == 0;
            },
        }
    };
    let mut acc = calculate_merkle_hash::<H>(start.as_slice(), proof.suffix[0].as_slice(), proof.suffix[1].as_slice());
    let ghost acc0 = acc@;
    let mut i: usize = proof.prefix.len();
    assert(pv.prefix.subrange(0, i as int) =~= pv.prefix);
    while i > 0
        invariant
            i <= proof.prefix@.len(),
            pv == proof@,
            fold_path::<H>(pv.prefix.subrange(0, i as int), acc@) == fold_path::<H>(pv.prefix, acc0),
        decreases i,
    {
        i = i - 1;
        let ghost before = acc@;
        acc = calculate_merkle_hash::<H>(proof.prefix[i].0.as_slice(), acc.as_slice(), proof.prefix[i].1.as_slice());
        assert(pv.prefix.subrange(0, i + 1).drop_last() =~= pv.prefix.subrange(0, i as int));
        assert(pv.prefix[i as int] == pair_view(proof.prefix@[i as int]));
    }
    assert(pv.prefix.subrange(0, 0) =~= Seq::<(Seq<u8>, Seq<u8>)>::empty());
    match compare_bytes(acc.as_slice(), root_hash.as_slice()) {
        Ordering::Equal => true,
        _ => false,
    }
}

} // verus!
