//! The thread-safe engine: one tree behind a reader-writer lock. Writers hold
//! the lock for a whole insertion or removal and put the rebuilt tree back at
//! once, so readers never see a tree in the middle of a change.
use vstd::prelude::*;
use parking_lot::RwLock;
use crate::membership::{self, Proof};
use crate::hashing::{Hasher, Sha256Hasher};
use crate::tree;
use crate::Key;

verus! {

/// parking_lot's reader-writer lock, carried as an opaque value.
#[verifier::external_type_specification]
#[verifier::external_body]
#[verifier::reject_recursive_types(R)]
#[verifier::reject_recursive_types(T)]
pub struct ExRwLock<R, T: ?Sized>(parking_lot::lock_api::RwLock<R, T>);

/// The raw lock underneath parking_lot's `RwLock`, carried as an opaque value.
#[verifier::external_type_specification]
#[verifier::external_body]
pub struct ExRawRwLock(parking_lot::RawRwLock);

/// What the lock holds: the tree, or nothing while a writer has taken it
/// out. A slot found empty reads as the empty tree.
pub type Slot<H> = Option<tree::CartesianMerkleTree<H>>;

/// Relies on parking_lot::RwLock::new: a lock that holds `s`.
#[verifier::external_body]
fn new_lock<H: Hasher>(s: Slot<H>) -> (r: RwLock<Slot<H>>) {
    RwLock::new(s)
}

/// Relies on parking_lot::RwLock::read: `f` runs once, under a shared lock,
/// on the slot that the lock holds, and its result is handed back.
#[verifier::external_body]
fn read_with<H: Hasher, B, F: FnOnce(&Slot<H>) -> B>(lock: &RwLock<Slot<H>>, f: F) -> (r: B)
    requires
        forall|s: &Slot<H>| f.requires((s,)),
    ensures
        exists|s: &Slot<H>| f.ensures((s,), r),
{
    let guard = lock.read();
    f(&*guard)
}

/// Relies on parking_lot::RwLock::write: under the exclusive lock, the slot's
/// content is taken out, `f` runs once on it, and the lock then holds its
/// result.
#[verifier::external_body]
fn write_with<H: Hasher, F: FnOnce(Slot<H>) -> Slot<H>>(lock: &RwLock<Slot<H>>, f: F)
    requires
        forall|s: Slot<H>| f.requires((s,)),
{
    let mut guard = lock.write();
    let s = guard.take();
    *guard = f(s);
}

/// The key-value map that a slot stands for.
pub open spec fn slot_entries<H: Hasher>(s: Slot<H>) -> Map<Seq<u8>, Seq<u8>> {
    match s {
        Some(t) => t@,
        None => Map::empty(),
    }
}

/// The tree that a slot stands for.
fn into_tree<H: Hasher>(s: Slot<H>) -> (t: tree::CartesianMerkleTree<H>)
    ensures
        t@ == slot_entries(s),
{
    match s {
        Some(t) => t,
        None => tree::CartesianMerkleTree::new(),
    }
}

/// A tree that many threads may share: lookups and proofs run side by side,
/// insertions and removals one at a time.
#[verifier::reject_recursive_types(H)]
pub struct CartesianMerkleTree<H: Hasher = Sha256Hasher> {
    root: RwLock<Slot<H>>,
}

impl<H: Hasher> CartesianMerkleTree<H> {
    /// An empty shared tree.
    pub fn new() -> (r: Self) {
        CartesianMerkleTree { root: new_lock(Some(tree::CartesianMerkleTree::<H>::new())) }
    }

    /// Whether `key` is in the tree as it stands while the shared lock is held.
    pub fn contains_key(&self, key: &Key) -> (r: bool)
        ensures
            exists|t: tree::CartesianMerkleTree<H>| t.well_formed() && r == t@.contains_key(key@),
    {
        let k = key.clone();
        assert(k@ =~= key@);
        read_with(
            &self.root,
            (move |s: &Slot<H>| -> (b: bool)
                ensures
                    exists|t: tree::CartesianMerkleTree<H>| t.well_formed() && b == t@.contains_key(k@),
                {
                    match s {
                        Some(t) => t.contains_key(&k),
                        None => {
                            let t = tree::CartesianMerkleTree::<H>::new();
                            t.contains_key(&k)
                        },
                    }
                }),
        )
    }

    /// Inserts `key` with `value`, or replaces its value, under the exclusive lock.
    pub fn insert(&self, key: Key, value: crate::Value) {
        write_with(
            &self.root,
            (move |s: Slot<H>| -> (r: Slot<H>)
                ensures
                    r.is_some() && r.unwrap()@ == slot_entries(s).insert(key@, value@),
                {
                    let mut t = into_tree(s);
                    t.insert_with(key, value, true);
                    Some(t)
                }),
        );
    }

    /// Removes `key`, if it is there, under the exclusive lock.
    pub fn remove(&self, key: &Key) {
        let k = key.clone();
        assert(k@ =~= key@);
        write_with(
            &self.root,
            (move |s: Slot<H>| -> (r: Slot<H>)
                ensures
                    r.is_some() && r.unwrap()@ == slot_entries(s).remove(k@),
                {
                    let mut t = into_tree(s);
                    t.remove_with(&k, true);
                    Some(t)
                }),
        );
    }

    /// The proof for `key` that the tree gives while the shared lock is held.
    pub fn generate_proof(&self, key: &Key) -> (r: Proof)
        ensures
            exists|t: tree::CartesianMerkleTree<H>|
                t.well_formed() && r@ == t.spec_proof(key@) && r.existence == t@.contains_key(key@),
    {
        let k = key.clone();
        assert(k@ =~= key@);
        read_with(
            &self.root,
            (move |s: &Slot<H>| -> (p: Proof)
                ensures
                    exists|t: tree::CartesianMerkleTree<H>|
                        t.well_formed() && p@ == t.spec_proof(k@) && p.existence == t@.contains_key(k@),
                {
                    match s {
                        Some(t) => t.generate_proof(&k),
                        None => {
                            let t = tree::CartesianMerkleTree::<H>::new();
                            t.generate_proof(&k)
                        },
                    }
                }),
        )
    }

    /// The root hash of the tree as it stands while the shared lock is held.
    pub fn root_hash(&self) -> (r: crate::Hash)
        ensures
            exists|t: tree::CartesianMerkleTree<H>| t.well_formed() && r@ == t.spec_root_hash(),
    {
        read_with(
            &self.root,
            (|s: &Slot<H>| -> (h: crate::Hash)
                ensures
                    exists|t: tree::CartesianMerkleTree<H>| t.well_formed() && h@ == t.spec_root_hash(),
                {
                    match s {
                        Some(t) => t.root_hash(),
                        None => {
                            let t = tree::CartesianMerkleTree::<H>::new();
                            t.root_hash()
                        },
                    }
                }),
        )
    }

    /// Checks a proof for `key` against a trusted root hash, without the tree.
    pub fn verify_proof(proof: Proof, key: Key, root_hash: crate::Hash) -> (r: bool)
        ensures
            r == proof@.accepts::<H>(key@, root_hash@),
    {
        membership::verify_proof::<H>(proof, key, root_hash)
    }
}

} // verus!
