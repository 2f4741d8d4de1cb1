//! Tree nodes, their mathematical model, and the two rotations.
use vstd::prelude::*;
use core::cmp::Ordering;
use crate::bytes::{compare_bytes, lex_lt, lemma_lex_irreflexive, lemma_lex_transitive};
use crate::hashing::{calculate_merkle_hash, node_hash, priority_of, Hasher};
use crate::{Key, Priority, Value};

verus! {

/// A node of the tree. It owns its two subtrees: the left one holds smaller
/// keys, the right one larger keys.
pub struct TreeNode {
    pub key: Key,
    pub priority: Priority,
    pub value: Value,
    pub hash: crate::Hash,
    pub left: Option<Box<TreeNode>>,
    pub right: Option<Box<TreeNode>>,
}

/// Nodes are the same node when their keys are equal.
impl PartialEq for TreeNode {
    fn eq(&self, other: &TreeNode) -> bool {
        match compare_bytes(self.key.as_slice(), other.key.as_slice()) {
            Ordering::Equal => true,
            _ => false,
        }
    }
}

impl vstd::std_specs::cmp::PartialEqSpecImpl for TreeNode {
    open spec fn obeys_eq_spec() -> bool {
        true
    }

    open spec fn eq_spec(&self, other: &TreeNode) -> bool {
        self.key@ == other.key@
    }
}

impl Eq for TreeNode {}

/// A possibly empty subtree.
pub type Link = Option<Box<TreeNode>>;

/// The key-value map that a subtree holds.
pub open spec fn entries(t: Link) -> Map<Seq<u8>, Seq<u8>>
    decreases t,
{
    match t {
        None => Map::empty(),
        Some(n) => entries(n.left).union_prefer_right(entries(n.right)).insert(n.key@, n.value@),
    }
}

/// The keys of a subtree.
pub open spec fn keys(t: Link) -> Set<Seq<u8>>
    decreases t,
{
    match t {
        None => Set::empty(),
        Some(n) => keys(n.left).union(keys(n.right)).insert(n.key@),
    }
}

/// The keys of a subtree are those of its map.
pub broadcast proof fn lemma_keys_entries(t: Link)
    ensures
        #[trigger] entries(t).dom() == keys(t),
    decreases t,
{
    if let Some(n) = t {
        lemma_keys_entries(n.left);
        lemma_keys_entries(n.right);
        assert(entries(t).dom() =~= keys(t));
    }
}

/// The commitment of a subtree: its root's hash, or the empty string.
pub open spec fn hash_of(t: Link) -> Seq<u8> {
    match t {
        None => Seq::empty(),
        Some(n) => n.hash@,
    }
}

/// A child's priority does not exceed `p`.
pub open spec fn below(t: Link, p: int) -> bool {
    match t {
        None => true,
        Some(c) => c.priority <= p,
    }
}

/// The local conditions of a node: keys ordered around it, the heap order,
/// its priority derived from its key, and its commitment over its children.
pub open spec fn node_ok<H: Hasher>(n: TreeNode) -> bool {
    &&& forall|x: Seq<u8>| #[trigger] keys(n.left).contains(x) ==> lex_lt(x, n.key@)
    &&& forall|x: Seq<u8>| #[trigger] keys(n.right).contains(x) ==> lex_lt(n.key@, x)
    &&& n.priority == priority_of::<H>(n.key@)
    &&& below(n.left, n.priority as int)
    &&& below(n.right, n.priority as int)
    &&& n.hash@ == node_hash::<H>(n.key@, hash_of(n.left), hash_of(n.right))
    &&& n.hash@.len() == H::digest_len()
}

/// Search order, heap order and the commitment invariant, at every node.
pub open spec fn wf<H: Hasher>(t: Link) -> bool
    decreases t,
{
    match t {
        None => true,
        Some(n) => wf::<H>(n.left) && wf::<H>(n.right) && node_ok::<H>(*n),
    }
}

/// Search order around a node's key, which is all that lookups need.
pub open spec fn ordered_at(n: TreeNode) -> bool {
    &&& forall|x: Seq<u8>| #[trigger] keys(n.left).contains(x) ==> lex_lt(x, n.key@)
    &&& forall|x: Seq<u8>| #[trigger] keys(n.right).contains(x) ==> lex_lt(n.key@, x)
}

/// Where a key's value comes from in a node ordered around its key.
pub proof fn lemma_entries_at(n: TreeNode, x: Seq<u8>)
    requires
        ordered_at(n),
    ensures
        entries(Some(Box::new(n))).contains_key(x) == (x == n.key@ || keys(n.left).contains(x) || keys(n.right).contains(x)),
        x == n.key@ ==> entries(Some(Box::new(n)))[x] == n.value@,
        keys(n.left).contains(x) ==> !keys(n.right).contains(x) && x != n.key@ && entries(Some(Box::new(n)))[x] == entries(n.left)[x],
        keys(n.right).contains(x) ==> !keys(n.left).contains(x) && x != n.key@ && entries(Some(Box::new(n)))[x] == entries(n.right)[x],
{
    lemma_keys_entries(n.left);
    lemma_keys_entries(n.right);
    lemma_keys_entries(Some(Box::new(n)));
    lemma_lex_irreflexive(x);
    if keys(n.left).contains(x) && keys(n.right).contains(x) {
        lemma_lex_transitive(x, n.key@, x);
    }
}

/// The commitment of a well-formed subtree is one digest, or empty.
pub proof fn lemma_hash_len<H: Hasher>(t: Link)
    requires
        wf::<H>(t),
    ensures
        hash_of(t).len() == 0 || hash_of(t).len() == H::digest_len(),
{
}

/// In a well-formed subtree no key has a higher priority than the root.
pub proof fn lemma_priority_bound<H: Hasher>(t: Link)
    requires
        wf::<H>(t),
    ensures
        forall|x: Seq<u8>| #[trigger] keys(t).contains(x) ==> priority_of::<H>(x) <= t.unwrap().priority,
    decreases t,
{
    if let Some(n) = t {
        lemma_priority_bound::<H>(n.left);
        lemma_priority_bound::<H>(n.right);
        assert forall|x: Seq<u8>| #[trigger] keys(t).contains(x) implies priority_of::<H>(x) <= n.priority by {
            if keys(n.left).contains(x) {
                assert(n.left.is_some());
            }
            if keys(n.right).contains(x) {
                assert(n.right.is_some());
            }
        }
    }
}

/// Two subtrees of the same shape, with the same keys, priorities and
/// hashes at every position; values may differ.
pub open spec fn same_shape(a: Link, b: Link) -> bool
    decreases a,
{
    match a {
        None => b.is_none(),
        Some(x) => {
            &&& b.is_some()
            &&& x.key@ == b.unwrap().key@
            &&& x.priority == b.unwrap().priority
            &&& x.hash@ == b.unwrap().hash@
            &&& same_shape(x.left, b.unwrap().left)
            &&& same_shape(x.right, b.unwrap().right)
        },
    }
}

/// Every subtree has its own shape.
pub proof fn lemma_same_shape_refl(t: Link)
    ensures
        same_shape(t, t),
    decreases t,
{
    if let Some(n) = t {
        lemma_same_shape_refl(n.left);
        lemma_same_shape_refl(n.right);
    }
}

/// The number of nodes of a subtree.
pub open spec fn size(t: Link) -> nat
    decreases t,
{
    match t {
        None => 0,
        Some(n) => 1 + size(n.left) + size(n.right),
    }
}

/// Recomputes a node's commitment from its children.
pub(crate) fn rehash<H: Hasher>(n: &mut TreeNode)
    ensures
        final(n).hash@ == node_hash::<H>(old(n).key@, hash_of(old(n).left), hash_of(old(n).right)),
        final(n).hash@.len() == H::digest_len(),
        final(n).key == old(n).key,
        final(n).priority == old(n).priority,
        final(n).value == old(n).value,
        final(n).left == old(n).left,
        final(n).right == old(n).right,
{
    let empty: Vec<u8> = Vec::new();
    let h = {
        let l: &[u8] = match &n.left {
            Some(c) => c.hash.as_slice(),
            None => empty.as_slice(),
        };
        let r: &[u8] = match &n.right {
            Some(c) => c.hash.as_slice(),
            None => empty.as_slice(),
        };
        calculate_merkle_hash::<H>(n.key.as_slice(), l, r)
    };
    n.hash = h;
}

/// Relies on rayon::join: both closures run, perhaps on two threads, and
/// their results come back in order.
#[verifier::external_body]
fn join<A, B, RA, RB>(a: A, b: B) -> (r: (RA, RB))
    where
        A: FnOnce() -> RA + Send,
        B: FnOnce() -> RB + Send,
        RA: Send,
        RB: Send,
    requires
        a.requires(()),
        b.requires(()),
    ensures
        a.ensures((), r.0),
        b.ensures((), r.1),
{
    rayon::join(a, b)
}

/// A copy of a subtree's commitment.
pub(crate) fn child_hash(t: &Link) -> (h: crate::Hash)
    ensures
        h@ == hash_of(*t),
{
    match t {
        None => Vec::new(),
        Some(c) => {
            let h = c.hash.clone();
            assert(h@ =~= c.hash@);
            h
        },
    }
}

/// Recomputes a node's commitment as `rehash` does, after reading the two
/// child hashes side by side on the thread pool.
pub(crate) fn rehash_joined<H: Hasher>(n: &mut TreeNode)
    ensures
        final(n).hash@ == node_hash::<H>(old(n).key@, hash_of(old(n).left), hash_of(old(n).right)),
        final(n).hash@.len() == H::digest_len(),
        final(n).key == old(n).key,
        final(n).priority == old(n).priority,
        final(n).value == old(n).value,
        final(n).left == old(n).left,
        final(n).right == old(n).right,
{
    let (l, r) = {
        let left = &n.left;
        let right = &n.right;
        join(
            (|| -> (h: crate::Hash)
                ensures
                    h@ == hash_of(*left),
                { child_hash(left) }),
            (|| -> (h: crate::Hash)
                ensures
                    h@ == hash_of(*right),
                { child_hash(right) }),
        )
    };
    n.hash = calculate_merkle_hash::<H>(n.key.as_slice(), l.as_slice(), r.as_slice());
}

/// Recomputes a node's commitment, reading the child hashes on the thread
/// pool where `parallel` asks for it.
pub(crate) fn refresh<H: Hasher>(n: &mut TreeNode, parallel: bool)
    ensures
        final(n).hash@ == node_hash::<H>(old(n).key@, hash_of(old(n).left), hash_of(old(n).right)),
        final(n).hash@.len() == H::digest_len(),
        final(n).key == old(n).key,
        final(n).priority == old(n).priority,
        final(n).value == old(n).value,
        final(n).left == old(n).left,
        final(n).right == old(n).right,
{
    if parallel {
        rehash_joined::<H>(n);
    } else {
        rehash::<H>(n);
    }
}

/// Rotates left: the right child `y` of `x` becomes the local root, `x` its
/// left child, and the former left subtree of `y` the right subtree of `x`.
/// Both commitments are recomputed, `x` first.
pub fn rotate_left<H: Hasher>(x: Box<TreeNode>) -> (r: Box<TreeNode>)
    requires
        x.right.is_some(),
    ensures
        ({
            let y = x.right.unwrap();
            let nx = r.left.unwrap();
            &&& r.left.is_some()
            &&& r.key == y.key && r.priority == y.priority && r.value == y.value
            &&& r.right == y.right
            &&& nx.key == x.key && nx.priority == x.priority && nx.value == x.value
            &&& nx.left == x.left && nx.right == y.left
            &&& nx.hash@ == node_hash::<H>(x.key@, hash_of(x.left), hash_of(y.left))
            &&& r.hash@ == node_hash::<H>(y.key@, nx.hash@, hash_of(y.right))
            &&& nx.hash@.len() == H::digest_len() && r.hash@.len() == H::digest_len()
        }),
{
    let mut x = x;
    let mut y = x.right.take().unwrap();
    x.right = y.left.take();
    rehash::<H>(&mut *x);
    y.left = Some(x);
    rehash::<H>(&mut *y);
    y
}

/// Rotates right: the left child `x` of `y` becomes the local root, `y` its
/// right child, and the former right subtree of `x` the left subtree of `y`.
/// Both commitments are recomputed, `y` first.
pub fn rotate_right<H: Hasher>(y: Box<TreeNode>) -> (r: Box<TreeNode>)
    requires
        y.left.is_some(),
    ensures
        ({
            let x = y.left.unwrap();
            let ny = r.right.unwrap();
            &&& r.right.is_some()
            &&& r.key == x.key && r.priority == x.priority && r.value == x.value
            &&& r.left == x.left
            &&& ny.key == y.key && ny.priority == y.priority && ny.value == y.value
            &&& ny.left == x.right && ny.right == y.right
            &&& ny.hash@ == node_hash::<H>(y.key@, hash_of(x.right), hash_of(y.right))
            &&& r.hash@ == node_hash::<H>(x.key@, hash_of(x.left), ny.hash@)
            &&& ny.hash@.len() == H::digest_len() && r.hash@.len() == H::digest_len()
        }),
{
    let mut y = y;
    let mut x = y.left.take().unwrap();
    y.left = x.right.take();
    rehash::<H>(&mut *y);
    x.right = Some(y);
    rehash::<H>(&mut *x);
    x
}

} // verus!
