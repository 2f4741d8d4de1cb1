//! Properties of the tree that relate several operations.
use vstd::prelude::*;
use crate::bytes::lemma_lex_asymmetric;
use crate::hashing::{priority_of, Hasher};
use crate::node::{same_shape, hash_of, keys, lemma_entries_at, lemma_keys_entries, lemma_priority_bound, wf, Link};
use crate::tree::{lemma_path_rebuilds, lemma_target, CartesianMerkleTree};

verus! {

broadcast use lemma_keys_entries;

/// No two keys of the set share a priority.
pub open spec fn distinct_priorities<H: Hasher>(s: Set<Seq<u8>>) -> bool {
    forall|x: Seq<u8>, y: Seq<u8>|
        #![trigger s.contains(x), s.contains(y)]
        s.contains(x) && s.contains(y) && x != y ==> priority_of::<H>(x) != priority_of::<H>(y)
}

/// Two well-formed subtrees over the same keys, no two of which share a
/// priority, have the same shape and the same commitment.
proof fn lemma_shape_canonical<H: Hasher>(a: Link, b: Link)
    requires
        wf::<H>(a),
        wf::<H>(b),
        keys(a) == keys(b),
        distinct_priorities::<H>(keys(a)),
    ensures
        hash_of(a) == hash_of(b),
        same_shape(a, b),
    decreases a,
{
    match a {
        None => {
            if b.is_some() {
                assert(keys(b).contains(b.unwrap().key@));
            }
        },
        Some(na) => {
            let nb = b.unwrap();
            assert(keys(a).contains(na.key@));
            assert(keys(b).contains(nb.key@));
            lemma_priority_bound::<H>(a);
            lemma_priority_bound::<H>(b);
            assert(na.key@ == nb.key@);
            let k = na.key@;
            assert forall|x: Seq<u8>| keys(na.left).contains(x) == keys(nb.left).contains(x) by {
                lemma_entries_at(*na, x);
                lemma_entries_at(*nb, x);
                if keys(na.left).contains(x) && keys(nb.right).contains(x) {
                    lemma_lex_asymmetric(x, k);
                }
                if keys(nb.left).contains(x) && keys(na.right).contains(x) {
                    lemma_lex_asymmetric(x, k);
                }
            }
            assert forall|x: Seq<u8>| keys(na.right).contains(x) == keys(nb.right).contains(x) by {
                lemma_entries_at(*na, x);
                lemma_entries_at(*nb, x);
                if keys(na.left).contains(x) && keys(nb.right).contains(x) {
                    lemma_lex_asymmetric(x, k);
                }
                if keys(nb.left).contains(x) && keys(na.right).contains(x) {
                    lemma_lex_asymmetric(x, k);
                }
            }
            assert(keys(na.left) =~= keys(nb.left));
            assert(keys(na.right) =~= keys(nb.right));
            assert forall|x: Seq<u8>, y: Seq<u8>|
                #![trigger keys(na.left).contains(x), keys(na.left).contains(y)]
                keys(na.left).contains(x) && keys(na.left).contains(y) && x != y implies priority_of::<H>(x) != priority_of::<H>(y) by {
                assert(keys(a).contains(x));
                assert(keys(a).contains(y));
            }
            assert forall|x: Seq<u8>, y: Seq<u8>|
                #![trigger keys(na.right).contains(x), keys(na.right).contains(y)]
                keys(na.right).contains(x) && keys(na.right).contains(y) && x != y implies priority_of::<H>(x) != priority_of::<H>(y) by {
                assert(keys(a).contains(x));
                assert(keys(a).contains(y));
            }
            lemma_shape_canonical::<H>(na.left, nb.left);
            lemma_shape_canonical::<H>(na.right, nb.right);
        },
    }
}

/// The root hash commits to the key set alone: two trees that hold the same
/// keys, no two of which share a priority, have the same shape and the same
/// root hash, whatever the order in which the keys were inserted or removed
/// and whatever values they carry. Keys of equal priority may take either order in the tree.
pub proof fn lemma_root_hash_canonical<H: Hasher>(t1: CartesianMerkleTree<H>, t2: CartesianMerkleTree<H>)
    requires
        t1.well_formed(),
        t2.well_formed(),
        t1@.dom() == t2@.dom(),
        distinct_priorities::<H>(t1@.dom()),
    ensures
        t1.spec_root_hash() == t2.spec_root_hash(),
        same_shape(t1.root_link(), t2.root_link()),
{
    lemma_shape_canonical::<H>(t1.root_link(), t2.root_link());
}

/// Every proof the tree gives replays to its root hash: for a key in the
/// tree it is a proof of membership, for any other key a proof of absence
/// (for the empty tree, one without a witness, accepted against the empty
/// root hash).
pub proof fn lemma_proof_round_trip<H: Hasher>(t: CartesianMerkleTree<H>, k: Seq<u8>)
    requires
        t.well_formed(),
    ensures
        t.spec_proof(k).existence == t@.contains_key(k),
        t.spec_proof(k).accepts::<H>(k, t.spec_root_hash()),
{
    lemma_target::<H>(t.root_link(), k);
    if t.root_link().is_some() {
        lemma_path_rebuilds::<H>(t.root_link(), k);
    }
}

} // verus!
