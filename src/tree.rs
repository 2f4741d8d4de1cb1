//! The single-threaded engine: an exclusively owned tree.
use vstd::prelude::*;
use core::cmp::Ordering;
use crate::bytes::{
    compare_bytes, lex_lt, lemma_lex_asymmetric, lemma_lex_irreflexive, lemma_lex_total, lemma_lex_transitive,
};
use core::marker::PhantomData;
use crate::hashing::{find_priority, lemma_node_hash_commutes, node_hash, priority_of, Hasher, Sha256Hasher};
use crate::node::{
    child_hash, entries, hash_of, keys, lemma_entries_at, lemma_keys_entries, lemma_priority_bound, ordered_at, refresh, rehash,
    lemma_hash_len, lemma_same_shape_refl, rotate_left, rotate_right, same_shape, size, wf, Link, TreeNode,
};
use crate::membership::{fold_path, pair_view, Proof, ProofView};
use crate::{Key, Priority, Value};

verus! {

broadcast use {lemma_lex_transitive, lemma_keys_entries};

/// An authenticated key-value dictionary: a treap ordered by key and by the
/// key-derived priority, whose root hash commits to its key set.
pub struct CartesianMerkleTree<H: Hasher = Sha256Hasher> {
    root: Option<Box<TreeNode>>,
    hasher: PhantomData<H>,
}

/// A fresh leaf holding `key`.
fn new_leaf<H: Hasher>(key: Key, value: Value, priority: Priority) -> (r: Box<TreeNode>)
    requires
        priority == priority_of::<H>(key@),
    ensures
        r.key == key && r.value == value && r.priority == priority,
        r.left.is_none() && r.right.is_none(),
        wf::<H>(Some(r)),
{
    let mut n = Box::new(TreeNode { key, priority, value, hash: Vec::new(), left: None, right: None });
    rehash::<H>(&mut *n);
    assert(wf::<H>(None));
    assert(keys(None) =~= Set::<Seq<u8>>::empty());
    n
}

/// A node keeps the entry and priority of another.
pub open spec fn keeps_entry(a: TreeNode, b: TreeNode) -> bool {
    a.key == b.key && a.value == b.value && a.priority == b.priority
}

/// How a subtree is parted around `key`: each node on the search path for
/// `key` goes to the side of its key with its entry, its priority and its
/// child away from `key`; every subtree off the path moves whole.
pub open spec fn split_shape(l: Link, r: Link, node: Link, key: Seq<u8>) -> bool
    decreases node,
{
    match node {
        None => l.is_none() && r.is_none(),
        Some(n) => if lex_lt(n.key@, key) {
            &&& l.is_some()
            &&& keeps_entry(*l.unwrap(), *n)
            &&& l.unwrap().left == n.left
            &&& split_shape(l.unwrap().right, r, n.right, key)
        } else {
            &&& r.is_some()
            &&& keeps_entry(*r.unwrap(), *n)
            &&& r.unwrap().right == n.right
            &&& split_shape(l, r.unwrap().left, n.left, key)
        },
    }
}

/// What sinking a node to a leaf leaves of its two subtrees `l` and `r`:
/// the child of higher priority (the left one only when strictly higher)
/// rises with its outer subtree, and the sinking goes on beneath it.
pub open spec fn sink_shape(res: Link, l: Link, r: Link) -> bool
    decreases size(l) + size(r),
{
    if l.is_none() && r.is_none() {
        res.is_none()
    } else if l.is_some() && (r.is_none() || l.unwrap().priority > r.unwrap().priority) {
        &&& res.is_some()
        &&& keeps_entry(*res.unwrap(), *l.unwrap())
        &&& res.unwrap().left == l.unwrap().left
        &&& sink_shape(res.unwrap().right, l.unwrap().right, r)
    } else {
        &&& res.is_some()
        &&& keeps_entry(*res.unwrap(), *r.unwrap())
        &&& res.unwrap().right == r.unwrap().right
        &&& sink_shape(res.unwrap().left, l, r.unwrap().left)
    }
}

/// What removing `k` leaves of a subtree: the nodes above the one holding
/// `k` keep their entries, priorities, places and children off the path;
/// the place of the node holding `k` goes to what sinking it leaves.
pub open spec fn removal_shape(res: Link, node: Link, k: Seq<u8>) -> bool
    decreases node,
{
    match node {
        None => res.is_none(),
        Some(n) => if n.key@ == k {
            sink_shape(res, n.left, n.right)
        } else {
            &&& res.is_some()
            &&& keeps_entry(*res.unwrap(), *n)
            &&& if lex_lt(k, n.key@) {
                res.unwrap().right == n.right && removal_shape(res.unwrap().left, n.left, k)
            } else {
                res.unwrap().left == n.left && removal_shape(res.unwrap().right, n.right, k)
            }
        },
    }
}

/// Parts a subtree into the keys below `key` and the keys above it, moving
/// nodes rather than copying them; only nodes on the search path for `key`
/// are rehashed.
fn split<H: Hasher>(node: Link, key: &Key, parallel: bool) -> (r: (Link, Link))
    requires
        wf::<H>(node),
        !keys(node).contains(key@),
    ensures
        wf::<H>(r.0),
        wf::<H>(r.1),
        forall|x: Seq<u8>| #[trigger] keys(r.0).contains(x) == (keys(node).contains(x) && lex_lt(x, key@)),
        forall|x: Seq<u8>| #[trigger] keys(r.1).contains(x) == (keys(node).contains(x) && lex_lt(key@, x)),
        forall|x: Seq<u8>| #[trigger] keys(r.0).contains(x) ==> entries(r.0)[x] == entries(node)[x],
        forall|x: Seq<u8>| #[trigger] keys(r.1).contains(x) ==> entries(r.1)[x] == entries(node)[x],
        split_shape(r.0, r.1, node, key@),
        node.is_some() && lex_lt(node.unwrap().key@, key@) ==> {
            &&& r.0.is_some()
            &&& r.0.unwrap().key == node.unwrap().key
            &&& r.0.unwrap().left == node.unwrap().left
        },
        node.is_some() && lex_lt(key@, node.unwrap().key@) ==> {
            &&& r.1.is_some()
            &&& r.1.unwrap().key == node.unwrap().key
            &&& r.1.unwrap().right == node.unwrap().right
        },
    decreases node,
{
    match node {
        None => {
            assert(keys(None) =~= Set::<Seq<u8>>::empty());
            (None, None)
        },
        Some(mut n) => {
            let ghost old_n = *n;
            proof {
                lemma_priority_bound::<H>(n.left);
                lemma_priority_bound::<H>(n.right);
            }
            match compare_bytes(n.key.as_slice(), key.as_slice()) {
                Ordering::Less => {
                    let (l, r) = split::<H>(n.right.take(), key, parallel);
                    n.right = l;
                    refresh::<H>(&mut *n, parallel);
                    proof {
                        if n.right.is_some() {
                            assert(keys(n.right).contains(n.right.unwrap().key@));
                        }
                        assert(ordered_at(*n));
                        assert(wf::<H>(Some(n)));
                        assert forall|x: Seq<u8>| #[trigger] keys(Some(n)).contains(x) == (keys(node).contains(x) && lex_lt(x, key@)) by {
                            lemma_entries_at(old_n, x);
                            lemma_entries_at(*n, x);
                            if keys(old_n.left).contains(x) {
                                lemma_lex_transitive(x, n.key@, key@);
                            }
                            if keys(old_n.right).contains(x) && lex_lt(x, key@) {
                                assert(keys(n.right).contains(x));
                            }
                        }
                        assert forall|x: Seq<u8>| #[trigger] keys(r).contains(x) == (keys(node).contains(x) && lex_lt(key@, x)) by {
                            lemma_entries_at(old_n, x);
                            if keys(node).contains(x) && lex_lt(key@, x) && !keys(old_n.right).contains(x) {
                                if x == n.key@ {
                                    lemma_lex_asymmetric(x, key@);
                                } else {
                                    lemma_lex_transitive(x, n.key@, key@);
                                    lemma_lex_asymmetric(x, key@);
                                }
                            }
                        }
                        assert forall|x: Seq<u8>| #[trigger] keys(Some(n)).contains(x) implies entries(Some(n))[x] == entries(node)[x] by {
                            lemma_entries_at(old_n, x);
                            lemma_entries_at(*n, x);
                        }
                        assert forall|x: Seq<u8>| #[trigger] keys(r).contains(x) implies entries(r)[x] == entries(node)[x] by {
                            lemma_entries_at(old_n, x);
                        }
                    }
                    (Some(n), r)
                },
                _ => {
                    proof {
                        if n.key@ == key@ {
                            assert(keys(node).contains(key@));
                        }
                    }
                    let (l, r) = split::<H>(n.left.take(), key, parallel);
                    n.left = r;
                    refresh::<H>(&mut *n, parallel);
                    proof {
                        if n.left.is_some() {
                            assert(keys(n.left).contains(n.left.unwrap().key@));
                        }
                        assert(ordered_at(*n));
                        assert(wf::<H>(Some(n)));
                        assert forall|x: Seq<u8>| #[trigger] keys(Some(n)).contains(x) == (keys(node).contains(x) && lex_lt(key@, x)) by {
                            lemma_entries_at(old_n, x);
                            lemma_entries_at(*n, x);
                            if keys(old_n.right).contains(x) {
                                lemma_lex_transitive(key@, n.key@, x);
                            }
                            if keys(old_n.left).contains(x) && lex_lt(key@, x) {
                                assert(keys(n.left).contains(x));
                            }
                        }
                        assert forall|x: Seq<u8>| #[trigger] keys(l).contains(x) == (keys(node).contains(x) && lex_lt(x, key@)) by {
                            lemma_entries_at(old_n, x);
                            if keys(node).contains(x) && lex_lt(x, key@) && !keys(old_n.left).contains(x) {
                                if x == n.key@ {
                                    lemma_lex_asymmetric(x, key@);
                                } else {
                                    lemma_lex_transitive(key@, n.key@, x);
                                    lemma_lex_asymmetric(x, key@);
                                }
                            }
                        }
                        assert forall|x: Seq<u8>| #[trigger] keys(Some(n)).contains(x) implies entries(Some(n))[x] == entries(node)[x] by {
                            lemma_entries_at(old_n, x);
                            lemma_entries_at(*n, x);
                        }
                        assert forall|x: Seq<u8>| #[trigger] keys(l).contains(x) implies entries(l)[x] == entries(node)[x] by {
                            lemma_entries_at(old_n, x);
                        }
                    }
                    (l, Some(n))
                },
            }
        },
    }
}

/// Inserts `key` below `node`, or replaces its value; rehashes on the way up.
fn insert_recursive<H: Hasher>(node: Link, key: Key, value: Value, priority: Priority, parallel: bool) -> (r: Link)
    requires
        wf::<H>(node),
        priority == priority_of::<H>(key@),
    ensures
        wf::<H>(r),
        r.is_some(),
        entries(r) == entries(node).insert(key@, value@),
        r.unwrap().priority == priority || (node.is_some() && r.unwrap().priority == node.unwrap().priority),
        keys(node).contains(key@) ==> hash_of(r) == hash_of(node),
        node.is_some() && priority <= node.unwrap().priority ==> {
            &&& r.unwrap().key == node.unwrap().key
            &&& r.unwrap().priority == node.unwrap().priority
            &&& lex_lt(key@, node.unwrap().key@) ==> r.unwrap().right == node.unwrap().right
            &&& lex_lt(node.unwrap().key@, key@) ==> r.unwrap().left == node.unwrap().left
            &&& key@ == node.unwrap().key@ ==> r.unwrap().left == node.unwrap().left
                && r.unwrap().right == node.unwrap().right
        },
        keys(node).contains(key@) ==> same_shape(r, node),
    decreases node,
{
    let mut current = match node {
        Some(n) => n,
        None => {
            let leaf = new_leaf::<H>(key, value, priority);
            assert(entries(Some(leaf)) =~= entries(node).insert(key@, value@));
            return Some(leaf);
        },
    };
    let ghost old_c = *current;
    proof {
        lemma_priority_bound::<H>(node);
        lemma_lex_irreflexive(key@);
    }
    if priority > current.priority {
        let (l, r) = split::<H>(Some(current), &key, parallel);
        let mut fresh = new_leaf::<H>(key, value, priority);
        fresh.left = l;
        fresh.right = r;
        refresh::<H>(&mut *fresh, parallel);
        proof {
            if l.is_some() {
                assert(keys(l).contains(l.unwrap().key@));
            }
            if r.is_some() {
                assert(keys(r).contains(r.unwrap().key@));
            }
            assert(ordered_at(*fresh));
            assert(wf::<H>(Some(fresh)));
            assert forall|x: Seq<u8>| #[trigger] entries(Some(fresh)).contains_key(x) == entries(node).insert(key@, value@).contains_key(x) by {
                lemma_entries_at(*fresh, x);
                if keys(node).contains(x) && x != key@ {
                    lemma_lex_total(x, key@);
                }
            }
            assert forall|x: Seq<u8>| #[trigger] entries(Some(fresh)).contains_key(x) implies entries(Some(fresh))[x] == entries(node).insert(key@, value@)[x] by {
                lemma_entries_at(*fresh, x);
            }
            assert(entries(Some(fresh)) =~= entries(node).insert(key@, value@));
        }
        return Some(fresh);
    }
    let order = compare_bytes(key.as_slice(), current.key.as_slice());
    match order {
        Ordering::Less => {
            current.left = insert_recursive::<H>(current.left.take(), key, value, priority, parallel);
        },
        Ordering::Greater => {
            current.right = insert_recursive::<H>(current.right.take(), key, value, priority, parallel);
        },
        Ordering::Equal => {
            current.value = value;
        },
    }
    refresh::<H>(&mut *current, parallel);
    proof {
        if current.left.is_some() {
            assert(keys(current.left).contains(current.left.unwrap().key@));
        }
        if current.right.is_some() {
            assert(keys(current.right).contains(current.right.unwrap().key@));
        }
        assert forall|x: Seq<u8>| #[trigger] keys(current.left).contains(x) implies lex_lt(x, current.key@) by {
            lemma_entries_at(old_c, x);
            if order == Ordering::Less {
                assert(entries(current.left).dom().contains(x));
                assert(entries(old_c.left).insert(key@, value@).dom().contains(x));
            }
        }
        assert forall|x: Seq<u8>| #[trigger] keys(current.right).contains(x) implies lex_lt(current.key@, x) by {
            lemma_entries_at(old_c, x);
            if order == Ordering::Greater {
                assert(entries(current.right).dom().contains(x));
                assert(entries(old_c.right).insert(key@, value@).dom().contains(x));
            }
        }
        assert(ordered_at(*current));
        assert(wf::<H>(Some(current)));
        assert forall|x: Seq<u8>| #[trigger] entries(Some(current)).contains_key(x) == entries(node).insert(key@, value@).contains_key(x) by {
            lemma_entries_at(old_c, x);
            lemma_entries_at(*current, x);
        }
        assert forall|x: Seq<u8>| #[trigger] entries(Some(current)).contains_key(x) implies entries(Some(current))[x] == entries(node).insert(key@, value@)[x] by {
            lemma_entries_at(old_c, x);
            lemma_entries_at(*current, x);
            if x == key@ && key@ != current.key@ {
                lemma_lex_total(x, current.key@);
            }
        }
        assert(entries(Some(current)) =~= entries(node).insert(key@, value@));
        lemma_same_shape_refl(old_c.left);
        lemma_same_shape_refl(old_c.right);
        if keys(node).contains(key@) {
            lemma_entries_at(old_c, key@);
            if key@ != current.key@ {
                lemma_lex_total(key@, current.key@);
                if lex_lt(key@, current.key@) {
                    lemma_lex_asymmetric(key@, current.key@);
                } else {
                    lemma_lex_asymmetric(current.key@, key@);
                }
            }
        }
    }
    Some(current)
}

/// Sinks `node` to a leaf by rotations, always lifting the child of higher
/// priority, and drops it there; the subtrees below it stay well formed.
fn heapify<H: Hasher>(node: Box<TreeNode>, parallel: bool) -> (r: Link)
    requires
        wf::<H>(node.left),
        wf::<H>(node.right),
        ordered_at(*node),
    ensures
        wf::<H>(r),
        keys(r) == keys(node.left).union(keys(node.right)),
        forall|x: Seq<u8>| #[trigger] keys(r).contains(x) ==> entries(r)[x] == (if keys(node.left).contains(x) {
            entries(node.left)[x]
        } else {
            entries(node.right)[x]
        }),
        sink_shape(r, node.left, node.right),
    decreases size(node.left) + size(node.right),
{
    let ghost g = *node;
    if node.left.is_none() && node.right.is_none() {
        assert(keys(None).union(keys(None)) =~= keys(None));
        return None;
    }
    let lift_left = match &node.left {
        None => false,
        Some(l) => match &node.right {
            None => true,
            Some(r) => l.priority > r.priority,
        },
    };
    proof {
        lemma_priority_bound::<H>(g.left);
        lemma_priority_bound::<H>(g.right);
    }
    if lift_left {
        let ghost x = *g.left.unwrap();
        proof {
            lemma_priority_bound::<H>(x.left);
            lemma_priority_bound::<H>(x.right);
            assert forall|z: Seq<u8>| #[trigger] keys(x.right).contains(z) implies lex_lt(z, g.key@) by {
                lemma_entries_at(x, z);
            }
        }
        let mut top = rotate_right::<H>(node);
        let sunk = top.right.take().unwrap();
        top.right = heapify::<H>(sunk, parallel);
        refresh::<H>(&mut *top, parallel);
        proof {
            let h = top.right;
            if h.is_some() {
                assert(keys(h).contains(h.unwrap().key@));
            }
            assert forall|z: Seq<u8>| #[trigger] keys(h).contains(z) implies lex_lt(x.key@, z) by {
                lemma_entries_at(x, z);
                lemma_entries_at(g, x.key@);
                if keys(g.right).contains(z) {
                    lemma_lex_transitive(x.key@, g.key@, z);
                }
            }
            assert(ordered_at(*top));
            assert(wf::<H>(Some(top)));
            assert forall|z: Seq<u8>| #[trigger] keys(Some(top)).contains(z) == keys(g.left).union(keys(g.right)).contains(z) by {
                lemma_entries_at(x, z);
                lemma_entries_at(*top, z);
            }
            assert(keys(Some(top)) =~= keys(g.left).union(keys(g.right)));
            assert forall|z: Seq<u8>| #[trigger] keys(Some(top)).contains(z) implies entries(Some(top))[z] == (if keys(g.left).contains(z) {
                entries(g.left)[z]
            } else {
                entries(g.right)[z]
            }) by {
                lemma_entries_at(x, z);
                lemma_entries_at(*top, z);
                lemma_entries_at(g, z);
            }
        }
        Some(top)
    } else {
        let ghost y = *g.right.unwrap();
        proof {
            lemma_priority_bound::<H>(y.left);
            lemma_priority_bound::<H>(y.right);
            assert forall|z: Seq<u8>| #[trigger] keys(y.left).contains(z) implies lex_lt(g.key@, z) by {
                lemma_entries_at(y, z);
            }
        }
        let mut top = rotate_left::<H>(node);
        let sunk = top.left.take().unwrap();
        top.left = heapify::<H>(sunk, parallel);
        refresh::<H>(&mut *top, parallel);
        proof {
            let h = top.left;
            if h.is_some() {
                assert(keys(h).contains(h.unwrap().key@));
            }
            assert forall|z: Seq<u8>| #[trigger] keys(h).contains(z) implies lex_lt(z, y.key@) by {
                lemma_entries_at(y, z);
                lemma_entries_at(g, y.key@);
                if keys(g.left).contains(z) {
                    lemma_lex_transitive(z, g.key@, y.key@);
                }
            }
            assert(ordered_at(*top));
            assert(wf::<H>(Some(top)));
            assert forall|z: Seq<u8>| #[trigger] keys(Some(top)).contains(z) == keys(g.left).union(keys(g.right)).contains(z) by {
                lemma_entries_at(y, z);
                lemma_entries_at(*top, z);
            }
            assert(keys(Some(top)) =~= keys(g.left).union(keys(g.right)));
            assert forall|z: Seq<u8>| #[trigger] keys(Some(top)).contains(z) implies entries(Some(top))[z] == (if keys(g.left).contains(z) {
                entries(g.left)[z]
            } else {
                entries(g.right)[z]
            }) by {
                lemma_entries_at(y, z);
                lemma_entries_at(*top, z);
                lemma_entries_at(g, z);
            }
        }
        Some(top)
    }
}

/// Removes `key` from below `node`, if it is there; rehashes on the way up.
fn remove_recursive<H: Hasher>(node: Link, key: &Key, parallel: bool) -> (r: Link)
    requires
        wf::<H>(node),
    ensures
        wf::<H>(r),
        entries(r) == entries(node).remove(key@),
        r.is_some() ==> node.is_some() && r.unwrap().priority <= node.unwrap().priority,
        node.is_some() && node.unwrap().key@ != key@ ==> {
            &&& r.is_some()
            &&& r.unwrap().key == node.unwrap().key
            &&& r.unwrap().value == node.unwrap().value
            &&& r.unwrap().priority == node.unwrap().priority
            &&& lex_lt(key@, node.unwrap().key@) ==> r.unwrap().right == node.unwrap().right
            &&& !lex_lt(key@, node.unwrap().key@) ==> r.unwrap().left == node.unwrap().left
        },
        !keys(node).contains(key@) ==> same_shape(r, node) && hash_of(r) == hash_of(node),
        removal_shape(r, node, key@),
    decreases node,
{
    match node {
        None => {
            assert(entries(None).remove(key@) =~= entries(None));
            None
        },
        Some(mut current) => {
            let ghost old_c = *current;
            proof {
                lemma_priority_bound::<H>(node);
            }
            let order = compare_bytes(key.as_slice(), current.key.as_slice());
            match order {
                Ordering::Less => {
                    current.left = remove_recursive::<H>(current.left.take(), key, parallel);
                },
                Ordering::Greater => {
                    current.right = remove_recursive::<H>(current.right.take(), key, parallel);
                },
                Ordering::Equal => {
                    current.priority = i128::MIN;
                    let r = heapify::<H>(current, parallel);
                    proof {
                        if r.is_some() {
                            assert(keys(r).contains(r.unwrap().key@));
                        }
                        assert forall|x: Seq<u8>| #[trigger] entries(r).contains_key(x) == entries(node).remove(key@).contains_key(x) by {
                            lemma_entries_at(old_c, x);
                        }
                        assert forall|x: Seq<u8>| #[trigger] entries(r).contains_key(x) implies entries(r)[x] == entries(node).remove(key@)[x] by {
                            lemma_entries_at(old_c, x);
                        }
                        assert(entries(r) =~= entries(node).remove(key@));
                    }
                    return r;
                },
            }
            refresh::<H>(&mut *current, parallel);
            proof {
                if current.left.is_some() {
                    assert(keys(current.left).contains(current.left.unwrap().key@));
                }
                if current.right.is_some() {
                    assert(keys(current.right).contains(current.right.unwrap().key@));
                }
                assert forall|x: Seq<u8>| #[trigger] keys(current.left).contains(x) implies lex_lt(x, current.key@) by {
                    lemma_entries_at(old_c, x);
                    if order == Ordering::Less {
                        assert(entries(current.left).dom().contains(x));
                    }
                }
                assert forall|x: Seq<u8>| #[trigger] keys(current.right).contains(x) implies lex_lt(current.key@, x) by {
                    lemma_entries_at(old_c, x);
                    if order == Ordering::Greater {
                        assert(entries(current.right).dom().contains(x));
                    }
                }
                assert(ordered_at(*current));
                assert(wf::<H>(Some(current)));
                assert forall|x: Seq<u8>| #[trigger] entries(Some(current)).contains_key(x) == entries(node).remove(key@).contains_key(x) by {
                    lemma_entries_at(old_c, x);
                    lemma_entries_at(*current, x);
                    lemma_lex_irreflexive(key@);
                }
                assert forall|x: Seq<u8>| #[trigger] entries(Some(current)).contains_key(x) implies entries(Some(current))[x] == entries(node).remove(key@)[x] by {
                    lemma_entries_at(old_c, x);
                    lemma_entries_at(*current, x);
                }
                assert(entries(Some(current)) =~= entries(node).remove(key@));
                lemma_same_shape_refl(old_c.left);
                lemma_same_shape_refl(old_c.right);
                if !keys(node).contains(key@) {
                    assert(!keys(old_c.left).contains(key@));
                    assert(!keys(old_c.right).contains(key@));
                }
            }
            Some(current)
        },
    }
}

/// The child of `n` on the search path for `k`.
pub open spec fn step(n: TreeNode, k: Seq<u8>) -> Link {
    if lex_lt(k, n.key@) {
        n.left
    } else {
        n.right
    }
}

/// The commitment of the child of `n` off the search path for `k`.
pub open spec fn sibling(n: TreeNode, k: Seq<u8>) -> Seq<u8> {
    if lex_lt(k, n.key@) {
        hash_of(n.right)
    } else {
        hash_of(n.left)
    }
}

/// Whether the search for `k` ends at `n`: `n` holds `k`, or the child slot
/// where `k` would go is empty.
pub open spec fn ends_at(n: TreeNode, k: Seq<u8>) -> bool {
    n.key@ == k || step(n, k).is_none()
}

/// The subtree rooted at the last node of the search path for `k`: the node
/// holding `k`, or the node beside whose empty slot `k` would be inserted.
pub open spec fn target(t: Link, k: Seq<u8>) -> Link
    decreases t,
{
    match t {
        None => None,
        Some(n) => if ends_at(*n, k) {
            t
        } else {
            target(step(*n, k), k)
        },
    }
}

/// For each node above the target, root first: its key and the commitment
/// of its child off the search path.
pub open spec fn search_path(t: Link, k: Seq<u8>) -> Seq<(Seq<u8>, Seq<u8>)>
    decreases t,
{
    match t {
        None => Seq::empty(),
        Some(n) => if ends_at(*n, k) {
            Seq::empty()
        } else {
            seq![(n.key@, sibling(*n, k))] + search_path(step(*n, k), k)
        },
    }
}

/// The proof that the tree rooted at `t` gives for `k`: the path above the
/// target, the target's child commitments, and, where the target does not
/// hold `k`, the target's key as witness.
pub open spec fn proof_for(t: Link, k: Seq<u8>) -> ProofView {
    match target(t, k) {
        None => ProofView {
            prefix: Seq::empty(),
            suffix: (Seq::empty(), Seq::empty()),
            existence: false,
            nonexistence_key: None,
        },
        Some(m) => ProofView {
            prefix: search_path(t, k),
            suffix: (hash_of(m.left), hash_of(m.right)),
            existence: m.key@ == k,
            nonexistence_key: if m.key@ == k {
                None
            } else {
                Some(m.key@)
            },
        },
    }
}

/// Folding one more entry in front folds it last.
proof fn lemma_fold_prepend<H: Hasher>(e: (Seq<u8>, Seq<u8>), q: Seq<(Seq<u8>, Seq<u8>)>, acc: Seq<u8>)
    ensures
        fold_path::<H>(seq![e] + q, acc) == node_hash::<H>(e.0, fold_path::<H>(q, acc), e.1),
    decreases q.len(),
{
    if q.len() == 0 {
        assert(seq![e] + q =~= seq![e]);
        assert(seq![e].drop_last() =~= Seq::<(Seq<u8>, Seq<u8>)>::empty());
        assert(fold_path::<H>(q, acc) == acc);
        let x = node_hash::<H>(e.0, acc, e.1);
        assert(fold_path::<H>(Seq::<(Seq<u8>, Seq<u8>)>::empty(), x) == x);
    } else {
        assert((seq![e] + q).drop_last() =~= seq![e] + q.drop_last());
        assert((seq![e] + q).last() == q.last());
        let nh = node_hash::<H>(q.last().0, acc, q.last().1);
        lemma_fold_prepend::<H>(e, q.drop_last(), nh);
        assert(fold_path::<H>(q, acc) == fold_path::<H>(q.drop_last(), nh));
        assert(fold_path::<H>(seq![e] + q, acc) == fold_path::<H>(seq![e] + q.drop_last(), nh));
    }
}

/// Folding the path above the target into the target's commitment gives
/// the commitment of the whole subtree.
pub proof fn lemma_path_rebuilds<H: Hasher>(t: Link, k: Seq<u8>)
    requires
        wf::<H>(t),
        t.is_some(),
    ensures
        target(t, k).is_some(),
        fold_path::<H>(
            search_path(t, k),
            node_hash::<H>(target(t, k).unwrap().key@, hash_of(target(t, k).unwrap().left), hash_of(target(t, k).unwrap().right)),
        ) == hash_of(t),
    decreases t,
{
    let n = t.unwrap();
    let m = target(t, k).unwrap();
    let start = node_hash::<H>(m.key@, hash_of(m.left), hash_of(m.right));
    if !ends_at(*n, k) {
        let c = step(*n, k);
        lemma_path_rebuilds::<H>(c, k);
        lemma_fold_prepend::<H>((n.key@, sibling(*n, k)), search_path(c, k), start);
        lemma_node_hash_commutes::<H>(n.key@, hash_of(n.left), hash_of(n.right));
    }
}

/// A commitment as a proof carries it: one digest, or empty for a missing
/// subtree.
pub open spec fn digest_or_empty<H: Hasher>(h: Seq<u8>) -> bool {
    h.len() == 0 || h.len() == H::digest_len()
}

/// Every commitment on the search path is a digest or empty.
proof fn lemma_path_digests<H: Hasher>(t: Link, k: Seq<u8>)
    requires
        wf::<H>(t),
    ensures
        forall|i: int| 0 <= i < search_path(t, k).len() ==> digest_or_empty::<H>(#[trigger] search_path(t, k)[i].1),
    decreases t,
{
    if let Some(n) = t {
        if !ends_at(*n, k) {
            let c = step(*n, k);
            lemma_path_digests::<H>(c, k);
            let p = search_path(t, k);
            assert forall|i: int| 0 <= i < p.len() implies digest_or_empty::<H>(#[trigger] p[i].1) by {
                if i > 0 {
                    assert(p[i] == search_path(c, k)[i - 1]);
                } else {
                    assert(p[0] == (n.key@, sibling(*n, k)));
                    lemma_hash_len::<H>(n.left);
                    lemma_hash_len::<H>(n.right);
                }
            }
        }
    }
}

/// In a well-formed subtree the search ends at a node holding `k` exactly
/// when `k` is there.
pub proof fn lemma_target<H: Hasher>(t: Link, k: Seq<u8>)
    requires
        wf::<H>(t),
    ensures
        t.is_some() == target(t, k).is_some(),
        (target(t, k).is_some() && target(t, k).unwrap().key@ == k) == keys(t).contains(k),
        target(t, k).is_some() ==> wf::<H>(target(t, k)),
    decreases t,
{
    if let Some(n) = t {
        lemma_entries_at(*n, k);
        if !lex_lt(k, n.key@) && keys(n.left).contains(k) {
            lemma_lex_total(k, n.key@);
        }
        if lex_lt(k, n.key@) && keys(n.right).contains(k) {
            lemma_lex_asymmetric(k, n.key@);
        }
        if !ends_at(*n, k) {
            lemma_target::<H>(step(*n, k), k);
        } else if n.key@ != k {
            assert(keys(step(*n, k)) =~= Set::empty());
        }
    }
}

impl<H: Hasher> CartesianMerkleTree<H> {
    /// Search order, heap order and the commitment invariant hold at every node.
    #[verifier::type_invariant]
    pub(crate) closed spec fn inv(self) -> bool {
        wf::<H>(self.root)
    }

    /// The root of the tree.
    pub closed spec fn root_link(self) -> Link {
        self.root
    }

    /// The commitment to the whole tree; empty for the empty tree.
    pub open spec fn spec_root_hash(self) -> Seq<u8> {
        hash_of(self.root_link())
    }

    /// Search order, heap order and the commitment invariant, at every node.
    pub open spec fn well_formed(self) -> bool {
        wf::<H>(self.root_link())
    }

    /// An empty tree.
    pub fn new() -> (t: Self)
        ensures
            t@ == Map::<Seq<u8>, Seq<u8>>::empty(),
            t.root_link().is_none(),
            t.well_formed(),
    {
        CartesianMerkleTree { root: None, hasher: PhantomData }
    }

    /// The commitment to the whole tree: the root's hash, or the empty string.
    pub fn root_hash(&self) -> (r: crate::Hash)
        ensures
            r@ == self.spec_root_hash(),
            self.well_formed(),
    {
        proof {
            use_type_invariant(self);
        }
        match &self.root {
            None => Vec::new(),
            Some(n) => {
                let h = n.hash.clone();
                assert(h@ =~= n.hash@);
                h
            },
        }
    }

    /// Whether `key` is in the tree.
    pub fn contains_key(&self, key: &Key) -> (r: bool)
        ensures
            r == self@.contains_key(key@),
            self.well_formed(),
    {
        proof {
            use_type_invariant(self);
        }
        let mut cur: &Link = &self.root;
        loop
            invariant
                wf::<H>(*cur),
                wf::<H>(self.root),
                keys(self.root).contains(key@) == keys(*cur).contains(key@),
            decreases size(*cur),
        {
            match cur {
                None => {
                    return false;
                },
                Some(n) => {
                    proof {
                        lemma_entries_at(**n, key@);
                    }
                    match compare_bytes(key.as_slice(), n.key.as_slice()) {
                        Ordering::Equal => {
                            return true;
                        },
                        Ordering::Less => {
                            cur = &n.left;
                        },
                        Ordering::Greater => {
                            cur = &n.right;
                        },
                    }
                },
            }
        }
    }

    /// The proof that the tree gives for `k`.
    pub open spec fn spec_proof(self, k: Seq<u8>) -> ProofView {
        proof_for(self.root_link(), k)
    }

    /// Walks the search path for `key` to its last node, recording for each
    /// node above it the key and the commitment of the child off the path;
    /// then the last node's two child commitments, whether it holds `key`, and
    /// else its key as witness. Every such proof replays to the root hash.
    pub fn generate_proof(&self, key: &Key) -> (r: Proof)
        ensures
            r@ == self.spec_proof(key@),
            r.existence == self@.contains_key(key@),
            r@.accepts::<H>(key@, self.spec_root_hash()),
            forall|i: int| 0 <= i < r@.prefix.len() ==> digest_or_empty::<H>(#[trigger] r@.prefix[i].1),
            digest_or_empty::<H>(r@.suffix.0),
            digest_or_empty::<H>(r@.suffix.1),
            self.well_formed(),
    {
        proof {
            use_type_invariant(self);
            lemma_path_digests::<H>(self.root, key@);
            lemma_target::<H>(self.root, key@);
            if self.root.is_some() {
                lemma_path_rebuilds::<H>(self.root, key@);
            }
        }
        let mut prefix: Vec<(Key, crate::Hash)> = Vec::new();
        let mut cur: &Link = &self.root;
        let ghost path = search_path(self.root, key@);
        loop
            invariant
                prefix@.map_values(|e: (Key, crate::Hash)| pair_view(e)) + search_path(*cur, key@) == path,
                path == search_path(self.root, key@),
                target(*cur, key@) == target(self.root, key@),
            ensures
                prefix@.map_values(|e: (Key, crate::Hash)| pair_view(e)) + search_path(*cur, key@) == path,
                target(*cur, key@) == target(self.root, key@),
                cur.is_some() ==> ends_at(*cur.unwrap(), key@),
            decreases size(*cur),
        {
            match cur {
                None => {
                    break;
                },
                Some(n) => {
                    let order = compare_bytes(key.as_slice(), n.key.as_slice());
                    if let Ordering::Equal = order {
                        break;
                    }
                    let next: &Link = if let Ordering::Less = order {
                        &n.left
                    } else {
                        &n.right
                    };
                    if next.is_none() {
                        break;
                    }
                    let sib = if let Ordering::Less = order {
                        child_hash(&n.right)
                    } else {
                        child_hash(&n.left)
                    };
                    let ghost before = prefix@.map_values(|e: (Key, crate::Hash)| pair_view(e));
                    let k = n.key.clone();
                    assert(k@ =~= n.key@);
                    prefix.push((k, sib));
                    assert(prefix@.map_values(|e: (Key, crate::Hash)| pair_view(e)) =~= before.push((n.key@, sibling(**n, key@))));
                    cur = next;
                    assert(before + search_path(Some(*n), key@) =~= before.push((n.key@, sibling(**n, key@))) + search_path(*cur, key@));
                },
            }
        }
        match cur {
            None => {
                let r = Proof { prefix: Vec::new(), suffix: [Vec::new(), Vec::new()], existence: false, nonexistence_key: None };
                assert(r@.prefix =~= Seq::empty());
                assert(r.suffix[0]@.len() == 0 && r.suffix[1]@.len() == 0);
                r
            },
            Some(n) => {
                let l = child_hash(&n.left);
                let rr = child_hash(&n.right);
                proof {
                    lemma_hash_len::<H>(n.left);
                    lemma_hash_len::<H>(n.right);
                    assert(search_path(*cur, key@) =~= Seq::empty());
                    assert(prefix@.map_values(|e: (Key, crate::Hash)| pair_view(e)) =~= path);
                }
                if let Ordering::Equal = compare_bytes(key.as_slice(), n.key.as_slice()) {
                    Proof { prefix, suffix: [l, rr], existence: true, nonexistence_key: None }
                } else {
                    let w = n.key.clone();
                    assert(w@ =~= n.key@);
                    Proof { prefix, suffix: [l, rr], existence: false, nonexistence_key: Some(w) }
                }
            },
        }
    }

    /// Inserts `key` with `value`, or replaces the value stored under `key`.
    /// The commitment depends on the keys alone, so replacing a value leaves
    /// the shape, every priority and every hash as they were.
    pub fn insert(&mut self, key: Key, value: Value)
        ensures
            final(self).well_formed(),
            final(self)@ == old(self)@.insert(key@, value@),
            old(self)@.contains_key(key@) ==> final(self).spec_root_hash() == old(self).spec_root_hash(),
            old(self)@.contains_key(key@) ==> same_shape(final(self).root_link(), old(self).root_link()),
    {
        self.insert_with(key, value, false);
    }

    /// Inserts as `insert` does; with `parallel`, the two child hashes of each
    /// node on the way up are read on the thread pool.
    pub(crate) fn insert_with(&mut self, key: Key, value: Value, parallel: bool)
        ensures
            final(self).well_formed(),
            final(self)@ == old(self)@.insert(key@, value@),
            old(self)@.contains_key(key@) ==> final(self).spec_root_hash() == old(self).spec_root_hash(),
            old(self)@.contains_key(key@) ==> same_shape(final(self).root_link(), old(self).root_link()),
    {
        proof {
            use_type_invariant(&*self);
        }
        let priority = find_priority::<H>(&key);
        let mut root: Link = None;
        std::mem::swap(&mut root, &mut self.root);
        self.root = insert_recursive::<H>(root, key, value, priority, parallel);
    }

    /// Removes `key`; for a key that is not in the tree this changes nothing.
    pub fn remove(&mut self, key: &Key)
        ensures
            final(self).well_formed(),
            final(self)@ == old(self)@.remove(key@),
            !old(self)@.contains_key(key@) ==> same_shape(final(self).root_link(), old(self).root_link()),
            !old(self)@.contains_key(key@) ==> final(self).spec_root_hash() == old(self).spec_root_hash(),
    {
        self.remove_with(key, false);
    }

    /// Removes as `remove` does; with `parallel`, the two child hashes of each
    /// node on the way up are read on the thread pool.
    pub(crate) fn remove_with(&mut self, key: &Key, parallel: bool)
        ensures
            final(self).well_formed(),
            final(self)@ == old(self)@.remove(key@),
            !old(self)@.contains_key(key@) ==> same_shape(final(self).root_link(), old(self).root_link()),
            !old(self)@.contains_key(key@) ==> final(self).spec_root_hash() == old(self).spec_root_hash(),
    {
        proof {
            use_type_invariant(&*self);
        }
        let mut root: Link = None;
        std::mem::swap(&mut root, &mut self.root);
        self.root = remove_recursive::<H>(root, key, parallel);
    }
}

impl<H: Hasher> View for CartesianMerkleTree<H> {
    type V = Map<Seq<u8>, Seq<u8>>;

    /// The key-value map that the tree holds.
    open spec fn view(&self) -> Map<Seq<u8>, Seq<u8>> {
        entries(self.root_link())
    }
}

} // verus!
