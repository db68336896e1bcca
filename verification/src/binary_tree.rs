//! Ordered binary search tree over `u64` keys.
//!
//! The tree rejects duplicate keys (`TreeError::DuplicateKey`), repairs its
//! structure on removal (splicing for nodes with at most one child, in-order
//! successor promotion for nodes with two), and offers depth computation and
//! a breadth-first layout for diagnostics. No rebalancing is performed:
//! `rebalance` reports `TreeError::Unsupported`, and the height is unbounded
//! relative to the key count.

use vstd::prelude::*;

verus! {

/// Errors reported by tree operations. Absence of a key is not an error:
/// `search` and `remove` encode it as `None`.
#[derive(Debug, Clone, Copy, PartialEq, Eq, Structural)]
pub enum TreeError {
    /// The key handed to `insert` is already present; the tree is unchanged.
    DuplicateKey,
    /// The requested structural operation (rebalancing) is not provided.
    Unsupported,
}

/// Relation of a key to the anchor node that `traverse` stops at.
#[derive(Debug, Clone, Copy, PartialEq, Eq, Structural)]
pub enum Direction {
    /// The key is smaller than the anchor's key and would hang off its left.
    Left,
    /// The key is greater than the anchor's key and would hang off its right.
    Right,
    /// The anchor itself holds the key.
    Equal,
}

/// One tree node: a key and the owned left/right subtrees. Ownership is
/// exclusive down each edge, so cycles are structurally impossible and no
/// parent back-reference is needed: removal repairs the tree on the way back
/// up the recursive descent.
#[derive(Debug)]
pub struct Node {
    pub key: u64,
    pub left: Option<Box<Node>>,
    pub right: Option<Box<Node>>,
}

/// The tree: an optional root plus the number of live nodes.
#[derive(Debug)]
pub struct BinaryTree {
    root: Option<Box<Node>>,
    n: usize,
}

/// Set of keys held in an optional subtree.
pub open spec fn opt_keys(o: Option<Box<Node>>) -> Set<u64>
    decreases o,
{
    match o {
        Option::None => Set::empty(),
        Option::Some(node) => node.keys(),
    }
}

/// In-order key sequence of an optional subtree.
pub open spec fn opt_in_order(o: Option<Box<Node>>) -> Seq<u64>
    decreases o,
{
    match o {
        Option::None => Seq::empty(),
        Option::Some(node) => node.in_order(),
    }
}

/// Well-formedness (the BST ordering property) of an optional subtree.
pub open spec fn opt_wf(o: Option<Box<Node>>) -> bool
    decreases o,
{
    match o {
        Option::None => true,
        Option::Some(node) => node.wf(),
    }
}

/// Height in nodes of an optional subtree: 0 for an empty one.
pub open spec fn opt_height(o: Option<Box<Node>>) -> nat
    decreases o,
{
    match o {
        Option::None => 0,
        Option::Some(node) => node.height(),
    }
}

impl Node {
    /// Set of keys in the subtree rooted at this node.
    pub open spec fn keys(self) -> Set<u64>
        decreases self,
    {
        opt_keys(self.left).union(opt_keys(self.right)).insert(self.key)
    }

    /// In-order key sequence of the subtree rooted at this node.
    pub open spec fn in_order(self) -> Seq<u64>
        decreases self,
    {
        opt_in_order(self.left) + seq![self.key] + opt_in_order(self.right)
    }

    /// BST ordering property: everything left is strictly smaller, everything
    /// right strictly greater, recursively. Strict on both sides, so no
    /// duplicate key can exist in a well-formed tree.
    pub open spec fn wf(self) -> bool
        decreases self,
    {
        &&& (forall|k: u64| opt_keys(self.left).contains(k) ==> k < self.key)
        &&& (forall|k: u64| opt_keys(self.right).contains(k) ==> k > self.key)
        &&& opt_wf(self.left)
        &&& opt_wf(self.right)
    }

    /// Height in nodes: a lone node has height 1.
    pub open spec fn height(self) -> nat
        decreases self,
    {
        1 + if opt_height(self.left) >= opt_height(self.right) {
            opt_height(self.left)
        } else {
            opt_height(self.right)
        }
    }

    /// A fresh leaf node holding `v`.
    pub fn new(v: u64) -> (r: Node)
        ensures
            r.wf(),
            r.key == v,
            r.keys() == Set::<u64>::empty().insert(v),
            r.in_order() == seq![v],
            r.height() == 1,
    {
        let r = Node { key: v, left: None, right: None };
        proof {
            assert(r.keys() =~= Set::<u64>::empty().insert(v));
            assert(r.in_order() =~= seq![v]);
        }
        r
    }
}

/// Where a key belongs relative to the subtree rooted at `node`: descend left
/// on smaller, right on greater, while such a child exists; the answer is the
/// last key visited (the anchor) and the relation of `target` to it.
pub open spec fn locate_spec(node: Node, target: u64) -> (u64, Direction)
    decreases node,
{
    if target < node.key {
        match node.left {
            Option::Some(l) => locate_spec(*l, target),
            Option::None => (node.key, Direction::Left),
        }
    } else if target > node.key {
        match node.right {
            Option::Some(r) => locate_spec(*r, target),
            Option::None => (node.key, Direction::Right),
        }
    } else {
        (node.key, Direction::Equal)
    }
}

/// Inserts `key` into the optional subtree, keeping the BST property.
/// Returns whether a node was added (false exactly when the key was present,
/// in which case nothing changed).
fn insert_opt(o: &mut Option<Box<Node>>, key: u64) -> (added: bool)
    requires
        opt_wf(*old(o)),
    ensures
        opt_wf(*final(o)),
        added == !opt_keys(*old(o)).contains(key),
        opt_keys(*final(o)) =~= opt_keys(*old(o)).insert(key),
        added ==> opt_in_order(*final(o)).len() == opt_in_order(*old(o)).len() + 1,
        !added ==> *final(o) == *old(o),
    decreases *old(o),
{
    match o.take() {
        None => {
            *o = Some(Box::new(Node { key, left: None, right: None }));
            true
        }
        Some(mut boxed) => {
            if key < boxed.key {
                proof {
                    assert(!opt_keys(boxed.right).contains(key));
                }
                let added = insert_opt(&mut boxed.left, key);
                *o = Some(boxed);
                added
            } else if key > boxed.key {
                proof {
                    assert(!opt_keys(boxed.left).contains(key));
                }
                let added = insert_opt(&mut boxed.right, key);
                *o = Some(boxed);
                added
            } else {
                *o = Some(boxed);
                false
            }
        }
    }
}

impl BinaryTree {
    /// Keys currently stored, as a mathematical set.
    pub closed spec fn keys(self) -> Set<u64> {
        opt_keys(self.root)
    }

    /// In-order key sequence; strictly ascending whenever the tree is
    /// well-formed (see `lemma_in_order_ascending`).
    pub closed spec fn in_order(self) -> Seq<u64> {
        opt_in_order(self.root)
    }

    /// The tree invariant: the BST ordering property holds below the root and
    /// the stored count equals the number of live nodes. Established by `new`
    /// and preserved by every operation.
    pub closed spec fn wf(self) -> bool {
        opt_wf(self.root) && self.n == opt_in_order(self.root).len()
    }

    /// Number of edges on the longest root-to-leaf path; 0 both for the
    /// empty tree (documented policy) and for a single-node tree.
    pub closed spec fn depth_spec(self) -> nat {
        if self.root is None {
            0
        } else {
            (opt_height(self.root) - 1) as nat
        }
    }

    /// An empty tree.
    pub fn new() -> (t: BinaryTree)
        ensures
            t.wf(),
            t.keys() == Set::<u64>::empty(),
            t.in_order() == Seq::<u64>::empty(),
    {
        let t = BinaryTree { root: None, n: 0 };
        proof {
            assert(t.keys() =~= Set::<u64>::empty());
            assert(t.in_order() =~= Seq::<u64>::empty());
        }
        t
    }

    /// Number of keys stored.
    pub fn len(&self) -> (r: usize)
        requires
            self.wf(),
        ensures
            r == self.in_order().len(),
    {
        self.n
    }

    /// Inserts `key`. Fails with `DuplicateKey`, leaving the tree untouched,
    /// exactly when the key is already present; otherwise adds one node.
    pub fn insert(&mut self, key: u64) -> (r: Result<(), TreeError>)
        requires
            old(self).wf(),
            old(self).in_order().len() < usize::MAX,
        ensures
            final(self).wf(),
            old(self).keys().contains(key) ==> r == Err::<(), TreeError>(TreeError::DuplicateKey)
                && *final(self) == *old(self),
            !old(self).keys().contains(key) ==> r == Ok::<(), TreeError>(())
                && final(self).keys() == old(self).keys().insert(key)
                && final(self).in_order().len() == old(self).in_order().len() + 1,
    {
        let added = insert_opt(&mut self.root, key);
        if added {
            self.n = self.n + 1;
            Ok(())
        } else {
            Err(TreeError::DuplicateKey)
        }
    }

    /// Walks from `current` towards `target` and returns the last node
    /// visited (the anchor) together with the relation of `target` to it:
    /// `Equal` exactly when the subtree holds `target`, otherwise the side of
    /// the anchor where `target` would be attached. Shared positional lookup
    /// for searching; iterative on purpose, so that a degenerate, near-linear
    /// tree cannot exhaust the call stack.
    pub fn traverse(target: u64, current: &Node) -> (r: (u64, Direction))
        requires
            current.wf(),
        ensures
            r == locate_spec(*current, target),
            (r.1 == Direction::Equal) == current.keys().contains(target),
            r.1 == Direction::Equal ==> r.0 == target,
            current.keys().contains(r.0),
    {
        let mut cur: &Node = current;
        loop
            invariant
                cur.wf(),
                locate_spec(*current, target) == locate_spec(*cur, target),
                current.keys().contains(target) == cur.keys().contains(target),
                forall|k: u64| cur.keys().contains(k) ==> current.keys().contains(k),
            decreases cur.height(),
        {
            if target < cur.key {
                proof {
                    assert(!opt_keys(cur.right).contains(target));
                }
                match &cur.left {
                    Some(next) => {
                        cur = next;
                    }
                    None => {
                        return (cur.key, Direction::Left);
                    }
                }
            } else if target > cur.key {
                proof {
                    assert(!opt_keys(cur.left).contains(target));
                }
                match &cur.right {
                    Some(next) => {
                        cur = next;
                    }
                    None => {
                        return (cur.key, Direction::Right);
                    }
                }
            } else {
                return (cur.key, Direction::Equal);
            }
        }
    }

    /// Exact-key lookup: returns `Some(key)` exactly when the key is stored,
    /// `None` otherwise. Read-only: no mutation, no allocation.
    pub fn search(&self, key: u64) -> (r: Option<u64>)
        requires
            self.wf(),
        ensures
            r == if self.keys().contains(key) {
                Some(key)
            } else {
                None::<u64>
            },
    {
        match &self.root {
            None => None,
            Some(root) => {
                let (anchor, dir) = BinaryTree::traverse(key, root);
                match dir {
                    Direction::Equal => Some(anchor),
                    Direction::Left => None,
                    Direction::Right => None,
                }
            }
        }
    }
}

/// Detaches the smallest key of a non-empty optional subtree and returns it.
/// The leftmost node has no left child, so it is removed by splicing its
/// right child (if any) into its place.
fn remove_leftmost(o: &mut Option<Box<Node>>) -> (min: u64)
    requires
        (*old(o)) is Some,
        opt_wf(*old(o)),
    ensures
        opt_wf(*final(o)),
        opt_keys(*old(o)).contains(min),
        forall|k: u64| opt_keys(*old(o)).contains(k) ==> min <= k,
        opt_keys(*final(o)) =~= opt_keys(*old(o)).remove(min),
        opt_in_order(*final(o)).len() == opt_in_order(*old(o)).len() - 1,
    decreases *old(o),
{
    let mut boxed = o.take().unwrap();
    match &boxed.left {
        None => {
            proof {
                assert(opt_keys(boxed.left) =~= Set::<u64>::empty());
                assert(!opt_keys(boxed.right).contains(boxed.key));
                assert(opt_in_order(boxed.left) =~= Seq::<u64>::empty());
                assert(boxed.in_order().len() == 1 + opt_in_order(boxed.right).len());
            }
            let min = boxed.key;
            *o = boxed.right;
            min
        }
        Some(_) => {
            let min = remove_leftmost(&mut boxed.left);
            proof {
                assert(!opt_keys(boxed.right).contains(min));
                assert(boxed.in_order().len() == opt_in_order(boxed.left).len() + 1
                    + opt_in_order(boxed.right).len());
            }
            *o = Some(boxed);
            min
        }
    }
}

/// Removes `key` from the optional subtree, repairing the structure: a leaf
/// is detached, a node with one child is spliced over, and a node with two
/// children receives its in-order successor's key (the leftmost key of the
/// right subtree), which is then unhooked from its old place. Returns whether
/// a node was removed (false exactly when the key was absent, in which case
/// nothing changed).
fn remove_opt(o: &mut Option<Box<Node>>, key: u64) -> (removed: bool)
    requires
        opt_wf(*old(o)),
    ensures
        opt_wf(*final(o)),
        removed == opt_keys(*old(o)).contains(key),
        opt_keys(*final(o)) =~= opt_keys(*old(o)).remove(key),
        removed ==> opt_in_order(*final(o)).len() == opt_in_order(*old(o)).len() - 1,
        !removed ==> *final(o) == *old(o),
    decreases *old(o),
{
    match o.take() {
        None => false,
        Some(mut boxed) => {
            if key < boxed.key {
                proof {
                    assert(!opt_keys(boxed.right).contains(key));
                }
                let removed = remove_opt(&mut boxed.left, key);
                proof {
                    assert(boxed.in_order().len() == opt_in_order(boxed.left).len() + 1
                        + opt_in_order(boxed.right).len());
                }
                *o = Some(boxed);
                removed
            } else if key > boxed.key {
                proof {
                    assert(!opt_keys(boxed.left).contains(key));
                }
                let removed = remove_opt(&mut boxed.right, key);
                proof {
                    assert(boxed.in_order().len() == opt_in_order(boxed.left).len() + 1
                        + opt_in_order(boxed.right).len());
                }
                *o = Some(boxed);
                removed
            } else {
                proof {
                    assert(!opt_keys(boxed.left).contains(key));
                    assert(!opt_keys(boxed.right).contains(key));
                    assert(boxed.in_order().len() == opt_in_order(boxed.left).len() + 1
                        + opt_in_order(boxed.right).len());
                }
                if boxed.left.is_none() {
                    proof {
                        assert(opt_keys(boxed.left) =~= Set::<u64>::empty());
                        assert(opt_in_order(boxed.left) =~= Seq::<u64>::empty());
                    }
                    *o = boxed.right;
                    true
                } else if boxed.right.is_none() {
                    proof {
                        assert(opt_keys(boxed.right) =~= Set::<u64>::empty());
                        assert(opt_in_order(boxed.right) =~= Seq::<u64>::empty());
                    }
                    *o = boxed.left;
                    true
                } else {
                    let successor = remove_leftmost(&mut boxed.right);
                    proof {
                        assert(successor > boxed.key);
                        assert(!opt_keys(boxed.left).contains(successor));
                    }
                    boxed.key = successor;
                    proof {
                        assert(boxed.in_order().len() == opt_in_order(boxed.left).len() + 1
                            + opt_in_order(boxed.right).len());
                    }
                    *o = Some(boxed);
                    true
                }
            }
        }
    }
}

impl BinaryTree {
    /// Removes `key` and returns it, or returns `None`, leaving the tree
    /// untouched, exactly when the key is absent. The ordering property is
    /// preserved over the remaining keys.
    pub fn remove(&mut self, key: u64) -> (r: Option<u64>)
        requires
            old(self).wf(),
        ensures
            final(self).wf(),
            old(self).keys().contains(key) ==> r == Some(key)
                && final(self).keys() == old(self).keys().remove(key)
                && final(self).in_order().len() == old(self).in_order().len() - 1,
            !old(self).keys().contains(key) ==> r == None::<u64> && *final(self) == *old(self),
    {
        let removed = remove_opt(&mut self.root, key);
        if removed {
            self.n = self.n - 1;
            Some(key)
        } else {
            None
        }
    }

    /// Rebalancing is deliberately not provided (the height stays unbounded
    /// relative to the key count); the request is surfaced rather than
    /// silently approximated.
    pub fn rebalance() -> (r: Result<(), TreeError>)
        ensures
            r == Err::<(), TreeError>(TreeError::Unsupported),
    {
        Err(TreeError::Unsupported)
    }
}

/// Induction over the tree shape: in a well-formed subtree the in-order
/// sequence visits exactly the key set and is strictly ascending.
proof fn lemma_opt_in_order_props(o: Option<Box<Node>>)
    requires
        opt_wf(o),
    ensures
        forall|i: int| 0 <= i < opt_in_order(o).len() ==> opt_keys(o).contains(
            #[trigger] opt_in_order(o)[i],
        ),
        forall|k: u64| opt_keys(o).contains(k) ==> opt_in_order(o).contains(k),
        forall|i: int, j: int| 0 <= i < j < opt_in_order(o).len() ==> opt_in_order(o)[i]
            < opt_in_order(o)[j],
    decreases o,
{
    match o {
        Option::None => {
        }
        Option::Some(node) => {
            lemma_opt_in_order_props(node.left);
            lemma_opt_in_order_props(node.right);
            let s = opt_in_order(o);
            let ls = opt_in_order(node.left);
            let rs = opt_in_order(node.right);
            assert(s == ls + seq![node.key] + rs);
            assert forall|k: u64| opt_keys(o).contains(k) implies s.contains(k) by {
                if k == node.key {
                    assert(s[ls.len() as int] == k);
                } else if opt_keys(node.left).contains(k) {
                    assert(ls.contains(k));
                    let i = choose|i: int| 0 <= i < ls.len() && ls[i] == k;
                    assert(s[i] == k);
                } else {
                    assert(opt_keys(node.right).contains(k));
                    assert(rs.contains(k));
                    let i = choose|i: int| 0 <= i < rs.len() && rs[i] == k;
                    assert(s[ls.len() + 1 + i] == rs[i]);
                    assert(s[ls.len() + 1 + i] == k);
                }
            }
            assert forall|i: int, j: int| 0 <= i < j < s.len() implies s[i] < s[j] by {
                if j < ls.len() {
                    assert(s[i] == ls[i] && s[j] == ls[j]);
                } else if i < ls.len() && j == ls.len() {
                    assert(opt_keys(node.left).contains(ls[i]));
                } else if i < ls.len() {
                    assert(opt_keys(node.left).contains(ls[i]));
                    assert(opt_keys(node.right).contains(rs[j - ls.len() - 1]));
                } else if i == ls.len() {
                    assert(opt_keys(node.right).contains(rs[j - ls.len() - 1]));
                } else {
                    assert(opt_keys(node.right).contains(rs[i - ls.len() - 1]));
                    assert(opt_keys(node.right).contains(rs[j - ls.len() - 1]));
                }
            }
        }
    }
}

/// The height of a subtree never exceeds the number of its nodes.
proof fn lemma_opt_height_le_size(o: Option<Box<Node>>)
    ensures
        opt_height(o) <= opt_in_order(o).len(),
    decreases o,
{
    match o {
        Option::None => {
        }
        Option::Some(node) => {
            lemma_opt_height_le_size(node.left);
            lemma_opt_height_le_size(node.right);
        }
    }
}

/// Ordering invariant: whatever sequence of insertions and removals built a
/// well-formed tree, its in-order traversal is strictly ascending, it visits
/// exactly the stored key set, and its length — what `len` returns — is the
/// number of stored keys.
pub proof fn lemma_in_order_ascending(t: BinaryTree)
    requires
        t.wf(),
    ensures
        forall|i: int, j: int| 0 <= i < j < t.in_order().len() ==> t.in_order()[i]
            < t.in_order()[j],
        forall|k: u64| t.keys().contains(k) <==> t.in_order().contains(k),
        t.keys().finite(),
        t.keys().len() == t.in_order().len(),
{
    lemma_opt_in_order_props(t.root);
    let s = t.in_order();
    assert forall|k: u64| s.contains(k) implies t.keys().contains(k) by {
        let i = choose|i: int| 0 <= i < s.len() && s[i] == k;
    }
    assert(s.no_duplicates());
    s.unique_seq_to_set();
    vstd::seq_lib::seq_to_set_is_finite(s);
    assert(s.to_set() =~= t.keys());
}

/// Round-trip law: a key just inserted is found again. `insert` reports the
/// new key set as the old one with `k` added, and `search` answers `Some(k)`
/// exactly on membership in the key set, so searching for `k` right after a
/// successful insertion, before any removal of `k`, yields `Some(k)`.
pub proof fn lemma_insert_search_round_trip(pre: BinaryTree, post: BinaryTree, k: u64)
    requires
        post.keys() == pre.keys().insert(k),
    ensures
        post.keys().contains(k),
{
}

/// Removal completeness: once `remove(k)` succeeds the key set is the old one
/// without `k`, so a search for `k` answers `None`; the ordering invariant
/// over the remaining keys is `wf`, which `remove` preserves (see
/// `lemma_in_order_ascending`).
pub proof fn lemma_remove_search_none(pre: BinaryTree, post: BinaryTree, k: u64)
    requires
        post.keys() == pre.keys().remove(k),
    ensures
        !post.keys().contains(k),
{
}

/// Appends the in-order key sequence of the subtree to `out`.
fn collect_in_order(o: &Option<Box<Node>>, out: &mut Vec<u64>)
    ensures
        final(out)@ == old(out)@ + opt_in_order(*o),
    decreases *o,
{
    match o {
        None => {
            proof {
                assert(old(out)@ + opt_in_order(*o) =~= old(out)@);
            }
        }
        Some(node) => {
            collect_in_order(&node.left, out);
            out.push(node.key);
            collect_in_order(&node.right, out);
            proof {
                assert(final(out)@ =~= old(out)@ + opt_in_order(*o));
            }
        }
    }
}

impl BinaryTree {
    /// The keys in ascending order, as a vector: the in-order traversal.
    pub fn in_order_vec(&self) -> (r: Vec<u64>)
        ensures
            r@ == self.in_order(),
    {
        let mut out: Vec<u64> = Vec::new();
        collect_in_order(&self.root, &mut out);
        proof {
            assert(out@ =~= self.in_order());
        }
        out
    }
}

/// Largest edge depth still reachable from the pending worklist entries: a
/// pair `(node, d)` of a node and its edge depth can still yield a leaf at
/// edge depth `d + height(node) - 1`. Zero for an empty worklist.
spec fn stack_peak<'a>(s: Seq<(&'a Node, usize)>) -> int
    decreases s.len(),
{
    if s.len() == 0 {
        0
    } else {
        let c = s.last().1 + s.last().0.height() - 1;
        let rest = stack_peak(s.drop_last());
        if c > rest {
            c
        } else {
            rest
        }
    }
}

/// Total number of nodes below the pending worklist entries; the measure that
/// shrinks on every iteration of the depth loop.
spec fn stack_size<'a>(s: Seq<(&'a Node, usize)>) -> nat
    decreases s.len(),
{
    if s.len() == 0 {
        0
    } else {
        s.last().0.in_order().len() + stack_size(s.drop_last())
    }
}

/// How one pushed entry changes the worklist measures.
proof fn lemma_stack_push<'a>(s: Seq<(&'a Node, usize)>, x: (&'a Node, usize))
    ensures
        stack_peak(s.push(x)) == if x.1 + x.0.height() - 1 > stack_peak(s) {
            x.1 + x.0.height() - 1
        } else {
            stack_peak(s)
        },
        stack_size(s.push(x)) == stack_size(s) + x.0.in_order().len(),
{
    assert(s.push(x).drop_last() =~= s);
    assert(s.push(x).last() == x);
}

/// The worklist peak never goes below zero.
proof fn lemma_stack_peak_nonneg<'a>(s: Seq<(&'a Node, usize)>)
    ensures
        stack_peak(s) >= 0,
    decreases s.len(),
{
    if s.len() > 0 {
        lemma_stack_peak_nonneg(s.drop_last());
    }
}

impl BinaryTree {
    /// Number of edges on the longest root-to-leaf path: 0 for the empty
    /// tree (the documented empty-tree policy) as well as for a single node;
    /// edges are counted, not nodes. Every node is visited, since without
    /// balancing any leaf may be the deepest; the walk is iterative with an
    /// explicit worklist, so that a degenerate, near-linear tree cannot
    /// exhaust the call stack.
    pub fn depth(&self) -> (r: usize)
        requires
            self.wf(),
        ensures
            r == self.depth_spec(),
    {
        match &self.root {
            None => 0,
            Some(root) => {
                proof {
                    lemma_opt_height_le_size(self.root);
                }
                let rootref: &Node = root;
                let mut stack: Vec<(&Node, usize)> = Vec::new();
                proof {
                    lemma_stack_push(Seq::empty(), (rootref, 0usize));
                }
                stack.push((rootref, 0));
                let mut best: usize = 0;
                while stack.len() > 0
                    invariant
                        self.root is Some,
                        opt_height(self.root) <= self.n,
                        forall|i: int| 0 <= i < stack@.len() ==> (#[trigger] stack@[i]).1
                            + stack@[i].0.height() <= opt_height(self.root),
                        best + 1 <= opt_height(self.root),
                        (if best >= stack_peak(stack@) {
                            best as int
                        } else {
                            stack_peak(stack@)
                        }) == opt_height(self.root) - 1,
                    decreases stack_size(stack@),
                {
                    let ghost s0 = stack@;
                    let (node, d) = stack.pop().unwrap();
                    proof {
                        assert(s0 =~= stack@.push((node, d)));
                        assert(s0[s0.len() - 1] == (node, d));
                        lemma_stack_push(stack@, (node, d));
                        lemma_stack_peak_nonneg(stack@);
                    }
                    if d > best {
                        best = d;
                    }
                    match &node.left {
                        Some(l) => {
                            let lr: &Node = l;
                            proof {
                                lemma_stack_push(stack@, (lr, (d + 1) as usize));
                            }
                            stack.push((lr, d + 1));
                        }
                        None => {
                        }
                    }
                    match &node.right {
                        Some(rn) => {
                            let rr: &Node = rn;
                            proof {
                                lemma_stack_push(stack@, (rr, (d + 1) as usize));
                            }
                            stack.push((rr, d + 1));
                        }
                        None => {
                        }
                    }
                }
                best
            }
        }
    }
}

/// Horizontal spacing between a node and each of its children in the layout.
pub const LAYOUT_SPACING: usize = 5;

/// Column of a left child: the parent's column minus the fixed spacing,
/// clamped at zero so that a deep left spine cannot underflow.
pub open spec fn shift_left(off: usize) -> usize {
    if off >= LAYOUT_SPACING {
        (off - LAYOUT_SPACING) as usize
    } else {
        0
    }
}

/// Column of a right child: the parent's column plus the fixed spacing,
/// clamped at the largest representable column.
pub open spec fn shift_right(off: usize) -> usize {
    if off <= usize::MAX - LAYOUT_SPACING {
        (off + LAYOUT_SPACING) as usize
    } else {
        usize::MAX
    }
}

fn off_left(off: usize) -> (r: usize)
    ensures
        r == shift_left(off),
{
    if off >= LAYOUT_SPACING {
        off - LAYOUT_SPACING
    } else {
        0
    }
}

fn off_right(off: usize) -> (r: usize)
    ensures
        r == shift_right(off),
{
    if off <= usize::MAX - LAYOUT_SPACING {
        off + LAYOUT_SPACING
    } else {
        usize::MAX
    }
}

/// The cells `(key, column)` of one layout line: the keys of the subtree
/// rooted `level` levels below `o`, left to right, each at the column the
/// parent's column shifted by the fixed spacing dictates.
pub open spec fn opt_row(o: Option<Box<Node>>, level: nat, off: usize) -> Seq<(u64, usize)>
    decreases level, o,
{
    match o {
        Option::None => Seq::empty(),
        Option::Some(node) => {
            if level == 0 {
                seq![(node.key, off)]
            } else {
                opt_row(node.left, (level - 1) as nat, shift_left(off)) + opt_row(
                    node.right,
                    (level - 1) as nat,
                    shift_right(off),
                )
            }
        }
    }
}

/// Every key placed on a layout line is a key of the subtree.
proof fn lemma_opt_row_keys(o: Option<Box<Node>>, level: nat, off: usize)
    ensures
        forall|c: int| 0 <= c < opt_row(o, level, off).len() ==> opt_keys(o).contains(
            (#[trigger] opt_row(o, level, off)[c]).0,
        ),
    decreases level, o,
{
    match o {
        Option::None => {
        }
        Option::Some(node) => {
            if level > 0 {
                lemma_opt_row_keys(node.left, (level - 1) as nat, shift_left(off));
                lemma_opt_row_keys(node.right, (level - 1) as nat, shift_right(off));
                let ls = opt_row(node.left, (level - 1) as nat, shift_left(off));
                let rs = opt_row(node.right, (level - 1) as nat, shift_right(off));
                assert forall|c: int|
                    0 <= c < opt_row(o, level, off).len() implies opt_keys(o).contains(
                    (#[trigger] opt_row(o, level, off)[c]).0,
                ) by {
                    if c < ls.len() {
                        assert(opt_row(o, level, off)[c] == ls[c]);
                    } else {
                        assert(opt_row(o, level, off)[c] == rs[c - ls.len()]);
                    }
                }
            }
        }
    }
}

/// Appends one layout line of the subtree to `out`.
fn collect_row(o: &Option<Box<Node>>, level: usize, off: usize, out: &mut Vec<(u64, usize)>)
    ensures
        final(out)@ == old(out)@ + opt_row(*o, level as nat, off),
    decreases level, *o,
{
    match o {
        None => {
            proof {
                assert(old(out)@ + opt_row(*o, level as nat, off) =~= old(out)@);
            }
        }
        Some(node) => {
            if level == 0 {
                out.push((node.key, off));
                proof {
                    assert(final(out)@ =~= old(out)@ + opt_row(*o, level as nat, off));
                }
            } else {
                collect_row(&node.left, level - 1, off_left(off), out);
                collect_row(&node.right, level - 1, off_right(off), out);
                proof {
                    assert(final(out)@ =~= old(out)@ + opt_row(*o, level as nat, off));
                }
            }
        }
    }
}

impl BinaryTree {
    /// The cells of layout line `level` when the root sits at column `start`.
    pub closed spec fn row_spec(self, level: nat, start: usize) -> Seq<(u64, usize)> {
        opt_row(self.root, level, start)
    }

    /// Breadth-first layout for diagnostics: one line per tree level, each
    /// cell a `(key, column)` pair, the root at column `start` and every
    /// child shifted a fixed spacing left or right of its parent. Purely
    /// diagnostic and recomputed from scratch on every call. The line count
    /// is the level count (depth plus one for a non-empty tree), line 0 holds
    /// exactly the root, and every placed key is a stored key.
    pub fn layout(&self, start: usize) -> (r: Vec<Vec<(u64, usize)>>)
        requires
            self.wf(),
        ensures
            r@.len() == if self.in_order().len() == 0 {
                0int
            } else {
                self.depth_spec() + 1int
            },
            forall|l: int| 0 <= l < r@.len() ==> r@[l]@ == self.row_spec(l as nat, start),
            self.in_order().len() > 0 ==> r@[0]@ =~= seq![(r@[0]@[0].0, start)]
                && self.keys().contains(r@[0]@[0].0),
            forall|l: int, c: int| 0 <= l < r@.len() && 0 <= c < r@[l]@.len()
                ==> self.keys().contains((#[trigger] r@[l]@[c]).0),
    {
        let levels: usize = match &self.root {
            None => 0,
            Some(_) => {
                proof {
                    lemma_opt_height_le_size(self.root);
                }
                self.depth() + 1
            }
        };
        let mut rows: Vec<Vec<(u64, usize)>> = Vec::new();
        let mut l: usize = 0;
        while l < levels
            invariant
                self.wf(),
                l <= levels,
                levels == opt_height(self.root),
                rows@.len() == l,
                forall|i: int| 0 <= i < l ==> rows@[i]@ == opt_row(self.root, i as nat, start),
            decreases levels - l,
        {
            let mut row: Vec<(u64, usize)> = Vec::new();
            collect_row(&self.root, l, start, &mut row);
            proof {
                assert(row@ =~= opt_row(self.root, l as nat, start));
            }
            rows.push(row);
            l = l + 1;
        }
        proof {
            assert forall|li: int, c: int|
                0 <= li < rows@.len() && 0 <= c < rows@[li]@.len() implies self.keys().contains(
                (#[trigger] rows@[li]@[c]).0,
            ) by {
                lemma_opt_row_keys(self.root, li as nat, start);
            }
        }
        rows
    }
}

} // verus!
