//! A binary decision tree stored as parallel arrays, the core data structure of
//! Bayesian Additive Regression Trees.
//!
//! Node `i` is described by the `i`-th element of every array; node 0 is the root.
//! Split thresholds and leaf values are doubles, held here by their IEEE-754 bit
//! patterns (`f64::to_bits`), so that the structure and its encoding are plain
//! integer data.
use vstd::prelude::*;

verus! {

broadcast use vstd::string::group_string_axioms;

/// Feature `f` is marked in the mask; features past the mask's end are not.
pub open spec fn excludes(mask: Seq<bool>, f: usize) -> bool {
    f < mask.len() && mask[f as int]
}

/// The abstract contents of a [`DecisionTree`]: each parallel array as a sequence.
#[verifier::ext_equal]
pub struct TreeModel {
    pub feature: Seq<usize>,
    pub threshold: Seq<u64>,
    pub value: Seq<u64>,
    pub left_child: Seq<i32>,
    pub right_child: Seq<i32>,
    pub parent: Seq<i32>,
    pub n_left: Seq<i32>,
    pub n_right: Seq<i32>,
    pub leaf_id: Seq<i32>,
    pub next_leaf_id: i32,
}

impl TreeModel {
    /// The number of nodes (the length of the value array).
    pub open spec fn num_nodes(self) -> nat {
        self.value.len()
    }

    /// Every parallel array has one entry per node.
    pub open spec fn same_shape(self) -> bool {
        let n = self.value.len();
        &&& self.feature.len() == n
        &&& self.threshold.len() == n
        &&& self.left_child.len() == n
        &&& self.right_child.len() == n
        &&& self.parent.len() == n
        &&& self.n_left.len() == n
        &&& self.n_right.len() == n
        &&& self.leaf_id.len() == n
    }

    /// Node `i` is a leaf: both of its potential children lie outside the valid
    /// node indices.
    pub open spec fn is_leaf(self, i: int) -> bool {
        let n = self.num_nodes();
        !(0 <= self.left_child[i] < n) && !(0 <= self.right_child[i] < n)
    }

    /// The structural leaves (no child links) are exactly the nodes whose leaf id
    /// is non-negative.
    pub open spec fn leaves_consistent(self) -> bool {
        forall|i: int|
            0 <= i < self.num_nodes() ==> (#[trigger] self.leaf_id[i] >= 0 <==> self.is_leaf(i))
    }

    /// Following at most `steps` parent links from `i`, each read inside the parent
    /// array, reaches a non-positive index.
    pub open spec fn reaches_root(self, i: int, steps: nat) -> bool
        decreases steps,
    {
        if i <= 0 {
            true
        } else if steps == 0 || i >= self.parent.len() {
            false
        } else {
            self.reaches_root(self.parent[i] as int, (steps - 1) as nat)
        }
    }

    /// The number of parent links followed from `i`, at most `steps` of them, until
    /// a non-positive index.
    pub open spec fn depth_within(self, i: int, steps: nat) -> nat
        decreases steps,
    {
        if i <= 0 || steps == 0 || i >= self.parent.len() {
            0
        } else {
            1 + self.depth_within(self.parent[i] as int, (steps - 1) as nat)
        }
    }

    /// Every node but the root has its parent link pointing to an earlier node.
    pub open spec fn parents_precede(self) -> bool {
        forall|i: int| 0 < i < self.parent.len() ==> #[trigger] self.parent[i] < i
    }

    /// The local conditions that every node of a well-formed tree meets.
    pub open spec fn node_ok(self, i: int) -> bool {
        let n = self.num_nodes();
        let l = self.left_child[i];
        let r = self.right_child[i];
        &&& (l < 0) == (r < 0)
        &&& l >= 0 ==> {
            &&& i < l < n
            &&& i < r < n
            &&& l != r
            &&& self.parent[l as int] == i
            &&& self.parent[r as int] == i
        }
        &&& (self.leaf_id[i] >= 0) == (l < 0)
        &&& -1 <= self.leaf_id[i] < self.next_leaf_id
        &&& -1 <= self.parent[i] < i
    }

    /// No two nodes carry the same non-negative leaf id.
    pub open spec fn leaf_ids_distinct(self) -> bool {
        forall|i: int, j: int|
            #![trigger self.leaf_id[i], self.leaf_id[j]]
            0 <= i < self.num_nodes() && 0 <= j < self.num_nodes() && i != j && self.leaf_id[i]
                >= 0 ==> self.leaf_id[i] != self.leaf_id[j]
    }

    /// The invariant that trees built by `new`, `add_node` and `split_node` keep:
    /// parallel arrays of one length with a root; every internal node has two
    /// distinct children that come after it and point back to it; leaves are exactly
    /// the nodes with a leaf id, leaf ids are distinct and below `next_leaf_id`;
    /// every parent link points to an earlier node.
    pub open spec fn wf(self) -> bool {
        &&& self.same_shape()
        &&& self.num_nodes() >= 1
        &&& forall|i: int| 0 <= i < self.num_nodes() ==> #[trigger] self.node_ok(i)
        &&& self.leaf_ids_distinct()
    }

    /// There is a root, and every node that is not a leaf has both children, each
    /// after it: following child links always ends at a leaf.
    pub open spec fn links_forward(self) -> bool {
        let n = self.num_nodes();
        &&& n >= 1
        &&& self.feature.len() == n
        &&& self.left_child.len() == n
        &&& self.right_child.len() == n
        &&& forall|i: int|
            0 <= i < n && !#[trigger] self.is_leaf(i) ==> i < self.left_child[i] < n && i
                < self.right_child[i] < n
    }

    /// A tree of a single root leaf with the given value.
    pub open spec fn root(init_value: u64) -> TreeModel {
        TreeModel {
            feature: seq![0usize],
            threshold: seq![0u64],
            value: seq![init_value],
            left_child: seq![-1i32],
            right_child: seq![-1i32],
            parent: seq![-1i32],
            n_left: seq![0i32],
            n_right: seq![0i32],
            leaf_id: seq![0i32],
            next_leaf_id: 1,
        }
    }

    /// The tree with one more node appended: a childless, parentless node with the
    /// given split data and value, carrying the next leaf id.
    pub open spec fn add_node(self, feature: usize, threshold: u64, value: u64) -> TreeModel {
        TreeModel {
            feature: self.feature.push(feature),
            threshold: self.threshold.push(threshold),
            value: self.value.push(value),
            left_child: self.left_child.push(-1i32),
            right_child: self.right_child.push(-1i32),
            parent: self.parent.push(-1i32),
            n_left: self.n_left.push(0i32),
            n_right: self.n_right.push(0i32),
            leaf_id: self.leaf_id.push(self.next_leaf_id),
            next_leaf_id: (self.next_leaf_id + 1) as i32,
        }
    }

    /// The tree after leaf `node` becomes an internal node splitting on `feature`
    /// at `threshold`, with two new leaves appended as its left and right children.
    pub open spec fn split(
        self,
        node: int,
        feature: usize,
        threshold: u64,
        left_value: u64,
        right_value: u64,
        left_count: usize,
        right_count: usize,
    ) -> TreeModel {
        let n = self.num_nodes();
        TreeModel {
            feature: self.feature.update(node, feature).push(0usize).push(0usize),
            threshold: self.threshold.update(node, threshold).push(0u64).push(0u64),
            value: self.value.push(left_value).push(right_value),
            left_child: self.left_child.update(node, n as i32).push(-1i32).push(-1i32),
            right_child: self.right_child.update(node, (n + 1) as i32).push(-1i32).push(-1i32),
            parent: self.parent.push(node as i32).push(node as i32),
            n_left: self.n_left.update(node, left_count as i32).push(0i32).push(0i32),
            n_right: self.n_right.update(node, right_count as i32).push(0i32).push(0i32),
            leaf_id: self.leaf_id.update(node, -1i32).push(self.next_leaf_id).push(
                (self.next_leaf_id + 1) as i32,
            ),
            next_leaf_id: (self.next_leaf_id + 2) as i32,
        }
    }

    /// The number of parent links followed from node `i` until a non-positive index
    /// (a chain without repeats has fewer links than there are parent entries).
    pub open spec fn depth(self, i: int) -> nat {
        self.depth_within(i, self.parent.len())
    }

    /// The child of split node `k` on the given side.
    pub open spec fn child(self, k: int, right: bool) -> int {
        if right {
            self.right_child[k] as int
        } else {
            self.left_child[k] as int
        }
    }

    /// `p` goes down the tree: each step leaves a split node for one of its two
    /// children, and at a split whose feature `mask` does not exclude it takes the
    /// child on the side that `go_right` gives for that node.
    pub open spec fn guided_path(self, go_right: Seq<bool>, mask: Seq<bool>, p: Seq<int>) -> bool {
        &&& p.len() >= 1
        &&& forall|j: int|
            #![trigger p[j]]
            0 <= j < p.len() - 1 ==> {
                &&& 0 <= p[j] < self.num_nodes()
                &&& !self.is_leaf(p[j])
                &&& (p[j + 1] == self.child(p[j], true) || p[j + 1] == self.child(p[j], false))
                &&& !excludes(mask, self.feature[p[j]]) ==> p[j + 1] == self.child(
                    p[j],
                    go_right[p[j]],
                )
            }
    }

    /// Some path that goes down as `guided_path` says leads from `a` to `x`.
    pub open spec fn guided_from(self, go_right: Seq<bool>, mask: Seq<bool>, a: int, x: int) -> bool {
        exists|p: Seq<int>|
            #[trigger] self.guided_path(go_right, mask, p) && p[0] == a && p.last() == x
    }

    /// What an entry (leaf, excluded splits crossed) of an excluded-variable
    /// traversal from `node` with recorded splits `prefix` must be: a leaf reached
    /// from `node` by a guided path, recorded after `prefix`, and each further
    /// recorded split (k, went right) is a split on an excluded feature whose child
    /// on that side leads to the leaf.
    pub open spec fn masked_entry_ok(
        self,
        go_right: Seq<bool>,
        mask: Seq<bool>,
        node: int,
        prefix: Seq<(usize, bool)>,
        e: (usize, Seq<(usize, bool)>),
    ) -> bool {
        &&& e.0 < self.num_nodes()
        &&& self.is_leaf(e.0 as int)
        &&& prefix.len() <= e.1.len()
        &&& e.1.subrange(0, prefix.len() as int) == prefix
        &&& self.guided_from(go_right, mask, node, e.0 as int)
        &&& forall|j: int|
            #![trigger e.1[j]]
            prefix.len() <= j < e.1.len() ==> {
                &&& e.1[j].0 < self.num_nodes()
                &&& !self.is_leaf(e.1[j].0 as int)
                &&& excludes(mask, self.feature[e.1[j].0 as int])
                &&& self.guided_from(
                    go_right,
                    mask,
                    self.child(e.1[j].0 as int, e.1[j].1),
                    e.0 as int,
                )
            }
    }

    /// The leaf reached from `node` when each internal node `k` is left to the
    /// right child if `go_right[k]` holds and to the left child otherwise.
    pub open spec fn leaf_from(self, go_right: Seq<bool>, node: int) -> int
        decreases self.num_nodes() - node,
    {
        if 0 <= node < self.num_nodes() && !self.is_leaf(node) {
            let next = if go_right[node] {
                self.right_child[node] as int
            } else {
                self.left_child[node] as int
            };
            if node < next < self.num_nodes() {
                self.leaf_from(go_right, next)
            } else {
                node
            }
        } else {
            node
        }
    }

    /// The leaves reached from `node`, in the order in which a last-in first-out
    /// traversal visits them, when nodes whose feature is excluded send the
    /// traversal down both children (right first) and the other internal nodes
    /// follow `go_right`. Each leaf comes with `path` extended by the excluded
    /// splits crossed to reach it, as (node, went right) pairs.
    pub open spec fn masked_leaves(
        self,
        go_right: Seq<bool>,
        excluded: Seq<bool>,
        node: int,
        path: Seq<(usize, bool)>,
    ) -> Seq<(usize, Seq<(usize, bool)>)>
        decreases self.num_nodes() - node,
    {
        if !(0 <= node < self.num_nodes()) {
            Seq::empty()
        } else if self.is_leaf(node) {
            seq![(node as usize, path)]
        } else {
            let l = self.left_child[node] as int;
            let r = self.right_child[node] as int;
            let f = self.feature[node];
            if !(node < l < self.num_nodes() && node < r < self.num_nodes()) {
                Seq::empty()
            } else if excludes(excluded, f) {
                self.masked_leaves(go_right, excluded, r, path.push((node as usize, true)))
                    + self.masked_leaves(go_right, excluded, l, path.push((node as usize, false)))
            } else if go_right[node] {
                self.masked_leaves(go_right, excluded, r, path)
            } else {
                self.masked_leaves(go_right, excluded, l, path)
            }
        }
    }
}

/// Errors of decision-tree operations.
#[derive(Debug, Clone, Copy, PartialEq, Eq, Structural)]
pub enum TreeError {
    /// When attempting to split a leaf node, if the node is not a leaf.
    NonLeafSplit,
    /// When attempting to split a leaf node, if the index is not a node.
    InvalidNodeIndex,
}

impl TreeError {
    /// The human-readable description of the error.
    pub fn message(&self) -> (s: &'static str)
        ensures
            s@ == (match self {
                TreeError::NonLeafSplit => "Cannot split a non-leaf node"@,
                TreeError::InvalidNodeIndex => "Node index does not exist"@,
            }),
    {
        match self {
            TreeError::NonLeafSplit => "Cannot split a non-leaf node",
            TreeError::InvalidNodeIndex => "Node index does not exist",
        }
    }
}

/// An array-based binary decision tree. Thresholds and values are the bit
/// patterns of doubles.
#[derive(Debug, Clone, PartialEq)]
pub struct DecisionTree {
    pub feature: Vec<usize>,
    pub threshold: Vec<u64>,
    pub value: Vec<u64>,
    pub left_child: Vec<i32>,
    pub right_child: Vec<i32>,
    pub parent: Vec<i32>,
    /// Training observations sent left by each split (for excluded-variable weighting).
    pub n_left: Vec<i32>,
    /// Training observations sent right by each split.
    pub n_right: Vec<i32>,
    /// Leaf nodes: >= 0, internal nodes: -1.
    pub leaf_id: Vec<i32>,
    /// Monotonically increasing source of leaf ids.
    pub next_leaf_id: i32,
}

impl View for DecisionTree {
    type V = TreeModel;

    open spec fn view(&self) -> TreeModel {
        TreeModel {
            feature: self.feature@,
            threshold: self.threshold@,
            value: self.value@,
            left_child: self.left_child@,
            right_child: self.right_child@,
            parent: self.parent@,
            n_left: self.n_left@,
            n_right: self.n_right@,
            leaf_id: self.leaf_id@,
            next_leaf_id: self.next_leaf_id,
        }
    }
}

/// A leaf reached by an excluded-variable traversal, with the excluded splits
/// crossed on the way to it as (node, went right) pairs, from the root down.
pub struct ReachedLeaf {
    pub leaf: usize,
    pub path: Vec<(usize, bool)>,
}

impl View for ReachedLeaf {
    type V = (usize, Seq<(usize, bool)>);

    open spec fn view(&self) -> (usize, Seq<(usize, bool)>) {
        (self.leaf, self.path@)
    }
}

/// The arrays of a tree laid out for export: split features and values, with the
/// entries of leaves replaced by -1 and the bits of 0.0.
pub struct TreeDumpParts {
    pub split_feature: Vec<i32>,
    pub split_value: Vec<u64>,
    pub left_child: Vec<i32>,
    pub right_child: Vec<i32>,
    pub leaf_value: Vec<u64>,
    pub n_left: Vec<i32>,
    pub n_right: Vec<i32>,
    pub root_index: i32,
}

/// A fresh copy of a path.
fn copy_path(path: &Vec<(usize, bool)>) -> (out: Vec<(usize, bool)>)
    ensures
        out@ == path@,
{
    let mut out: Vec<(usize, bool)> = Vec::new();
    let mut i: usize = 0;
    while i < path.len()
        invariant
            i <= path@.len(),
            out@ == path@.take(i as int),
        decreases path@.len() - i,
    {
        out.push(path[i]);
        i += 1;
        assert(out@ =~= path@.take(i as int));
    }
    assert(path@.take(i as int) =~= path@);
    out
}

/// A copy of an array of `i32`.
fn copy_i32s(values: &Vec<i32>) -> (out: Vec<i32>)
    ensures
        out@ == values@,
{
    let mut out: Vec<i32> = Vec::new();
    let mut i: usize = 0;
    while i < values.len()
        invariant
            i <= values@.len(),
            out@ == values@.take(i as int),
        decreases values@.len() - i,
    {
        out.push(values[i]);
        i += 1;
        assert(out@ =~= values@.take(i as int));
    }
    assert(values@.take(i as int) =~= values@);
    out
}

/// A copy of an array of 64-bit patterns.
fn copy_u64s(values: &Vec<u64>) -> (out: Vec<u64>)
    ensures
        out@ == values@,
{
    let mut out: Vec<u64> = Vec::new();
    let mut i: usize = 0;
    while i < values.len()
        invariant
            i <= values@.len(),
            out@ == values@.take(i as int),
        decreases values@.len() - i,
    {
        out.push(values[i]);
        i += 1;
        assert(out@ =~= values@.take(i as int));
    }
    assert(values@.take(i as int) =~= values@);
    out
}

/// Adding a childless node to a well-formed tree keeps it well-formed.
pub proof fn lemma_add_node_keeps_wf(m: TreeModel, feature: usize, threshold: u64, value: u64)
    requires
        m.wf(),
        m.next_leaf_id < i32::MAX,
    ensures
        m.add_node(feature, threshold, value).wf(),
{
    let m2 = m.add_node(feature, threshold, value);
    let n = m.num_nodes() as int;
    assert(m.node_ok(n - 1));
    assert(m.next_leaf_id > 0);
    assert forall|i: int| 0 <= i < m2.num_nodes() implies #[trigger] m2.node_ok(i) by {
        if i < n {
            assert(m.node_ok(i));
            let l = m.left_child[i];
            if l >= 0 {
                assert(m2.parent[l as int] == m.parent[l as int]);
                assert(m2.parent[m.right_child[i] as int] == m.parent[m.right_child[i] as int]);
            }
        }
    }
    assert forall|i: int, j: int|
        0 <= i < m2.num_nodes() && 0 <= j < m2.num_nodes() && i != j && m2.leaf_id[i]
            >= 0 implies #[trigger] m2.leaf_id[i] != #[trigger] m2.leaf_id[j] by {
        if i < n && j < n {
            assert(m.leaf_id[i] != m.leaf_id[j]);
        } else if i < n {
            assert(m.node_ok(i));
        } else {
            assert(m.node_ok(j));
        }
    }
}

/// Splitting a leaf of a well-formed tree keeps it well-formed.
pub proof fn lemma_split_keeps_wf(
    m: TreeModel,
    node: int,
    feature: usize,
    threshold: u64,
    left_value: u64,
    right_value: u64,
    left_count: usize,
    right_count: usize,
)
    requires
        m.wf(),
        0 <= node < m.num_nodes(),
        m.is_leaf(node),
        0 <= m.next_leaf_id <= i32::MAX - 2,
        m.num_nodes() + 1 <= i32::MAX,
    ensures
        m.split(node, feature, threshold, left_value, right_value, left_count, right_count).wf(),
{
    let m2 = m.split(node, feature, threshold, left_value, right_value, left_count, right_count);
    let n = m.num_nodes() as int;
    assert(m.node_ok(node));
    assert forall|i: int| 0 <= i < m2.num_nodes() implies #[trigger] m2.node_ok(i) by {
        if i < n && i != node {
            assert(m.node_ok(i));
            let l = m.left_child[i];
            if l >= 0 {
                assert(m2.parent[l as int] == m.parent[l as int]);
                assert(m2.parent[m.right_child[i] as int] == m.parent[m.right_child[i] as int]);
            }
        }
    }
    assert forall|i: int, j: int|
        0 <= i < m2.num_nodes() && 0 <= j < m2.num_nodes() && i != j && m2.leaf_id[i]
            >= 0 implies #[trigger] m2.leaf_id[i] != #[trigger] m2.leaf_id[j] by {
        if i < n && j < n {
            assert(m.leaf_id[i] != m.leaf_id[j]);
        } else if i < n {
            assert(m.node_ok(i));
        } else if j < n {
            assert(m.node_ok(j));
        }
    }
}

/// When every parent link points to an earlier node, the parent chain of node `i`
/// reaches the root within `i` links.
pub proof fn lemma_parents_precede_chain(m: TreeModel, i: int, steps: nat)
    requires
        m.parents_precede(),
        i < m.parent.len(),
        i <= steps,
    ensures
        m.reaches_root(i, steps),
    decreases i,
{
    if i > 0 {
        assert(m.parent[i] < i);
        let p = m.parent[i] as int;
        if p > 0 {
            lemma_parents_precede_chain(m, p, (steps - 1) as nat);
        }
        assert(m.reaches_root(p, (steps - 1) as nat));
        assert(m.reaches_root(i, steps) == m.reaches_root(p, (steps - 1) as nat));
    }
}

/// When every parent link points to an earlier node, the depth of node `i` does not
/// depend on how many links past `i` may be followed.
pub proof fn lemma_depth_within_stable(m: TreeModel, i: int, s1: nat, s2: nat)
    requires
        m.parents_precede(),
        i < m.parent.len(),
        i <= s1,
        i <= s2,
    ensures
        m.depth_within(i, s1) == m.depth_within(i, s2),
    decreases i,
{
    if i > 0 {
        assert(m.parent[i] < i);
        let p = m.parent[i] as int;
        if p > 0 {
            lemma_depth_within_stable(m, p, (s1 - 1) as nat, (s2 - 1) as nat);
        }
        assert(m.depth_within(p, (s1 - 1) as nat) == m.depth_within(p, (s2 - 1) as nat));
        assert(m.depth_within(i, s1) == 1 + m.depth_within(p, (s1 - 1) as nat));
        assert(m.depth_within(i, s2) == 1 + m.depth_within(p, (s2 - 1) as nat));
    }
}

/// In a well-formed tree the leaf marks agree with the child links, so
/// `validate_invariants` holds of every tree that `new`, `add_node` and
/// `split_node` build.
pub proof fn lemma_wf_leaves_consistent(m: TreeModel)
    requires
        m.wf(),
    ensures
        m.leaves_consistent(),
        m.parents_precede(),
{
    assert forall|i: int| 0 <= i < m.num_nodes() implies (#[trigger] m.leaf_id[i] >= 0
        <==> m.is_leaf(i)) by {
        assert(m.node_ok(i));
    }
    assert forall|i: int| 0 < i < m.parent.len() implies #[trigger] m.parent[i] < i by {
        assert(m.node_ok(i));
    }
}

/// Following child links in a well-formed tree always ends at a leaf.
pub proof fn lemma_wf_links_forward(m: TreeModel)
    requires
        m.wf(),
    ensures
        m.links_forward(),
{
    assert forall|i: int| 0 <= i < m.num_nodes() && !#[trigger] m.is_leaf(i) implies i
        < m.left_child[i] < m.num_nodes() && i < m.right_child[i] < m.num_nodes() by {
        assert(m.node_ok(i));
    }
}

/// In a well-formed tree both children of a split node lie one level deeper than it.
pub proof fn lemma_child_depth(m: TreeModel, i: int)
    requires
        m.wf(),
        0 <= i < m.num_nodes(),
        !m.is_leaf(i),
    ensures
        m.depth(m.left_child[i] as int) == m.depth(i) + 1,
        m.depth(m.right_child[i] as int) == m.depth(i) + 1,
{
    assert(m.node_ok(i));
    lemma_wf_leaves_consistent(m);
    let n = m.parent.len();
    lemma_depth_within_stable(m, i, (n - 1) as nat, n);
}

/// When no split node splits on an excluded feature, the excluded-variable
/// traversal reaches exactly the leaf of the deterministic traversal, with no
/// excluded split on its path.
pub proof fn lemma_no_exclusion_is_deterministic(
    m: TreeModel,
    go_right: Seq<bool>,
    excluded: Seq<bool>,
    node: int,
    path: Seq<(usize, bool)>,
)
    requires
        m.links_forward(),
        go_right.len() == m.num_nodes(),
        forall|i: int|
            0 <= i < m.num_nodes() && !#[trigger] m.is_leaf(i) ==> !excludes(excluded, m.feature[i]),
        0 <= node < m.num_nodes(),
    ensures
        m.masked_leaves(go_right, excluded, node, path) == seq![
            (m.leaf_from(go_right, node) as usize, path),
        ],
    decreases m.num_nodes() - node,
{
    if !m.is_leaf(node) {
        let next = if go_right[node] {
            m.right_child[node] as int
        } else {
            m.left_child[node] as int
        };
        lemma_no_exclusion_is_deterministic(m, go_right, excluded, next, path);
    }
}

/// Two masks that agree on whether each split node's feature is excluded give the
/// same excluded-variable traversal: marks on features that no split uses do not
/// matter.
pub proof fn lemma_masks_agreeing_on_splits(
    m: TreeModel,
    go_right: Seq<bool>,
    mask1: Seq<bool>,
    mask2: Seq<bool>,
    node: int,
    path: Seq<(usize, bool)>,
)
    requires
        m.links_forward(),
        go_right.len() == m.num_nodes(),
        forall|i: int|
            0 <= i < m.num_nodes() && !#[trigger] m.is_leaf(i) ==> (excludes(mask1, m.feature[i])
                == excludes(mask2, m.feature[i])),
        0 <= node < m.num_nodes(),
    ensures
        m.masked_leaves(go_right, mask1, node, path) == m.masked_leaves(go_right, mask2, node, path),
    decreases m.num_nodes() - node,
{
    if !m.is_leaf(node) {
        let l = m.left_child[node] as int;
        let r = m.right_child[node] as int;
        lemma_masks_agreeing_on_splits(m, go_right, mask1, mask2, l, path);
        lemma_masks_agreeing_on_splits(m, go_right, mask1, mask2, r, path);
        lemma_masks_agreeing_on_splits(m, go_right, mask1, mask2, l, path.push((node as usize, false)));
        lemma_masks_agreeing_on_splits(m, go_right, mask1, mask2, r, path.push((node as usize, true)));
    }
}

/// A mask extended with unmarked entries gives the same excluded-variable
/// traversal: a feature past the end of the mask is not excluded.
pub proof fn lemma_mask_padding(
    m: TreeModel,
    go_right: Seq<bool>,
    mask: Seq<bool>,
    extra: nat,
    node: int,
    path: Seq<(usize, bool)>,
)
    requires
        m.links_forward(),
        go_right.len() == m.num_nodes(),
        0 <= node < m.num_nodes(),
    ensures
        m.masked_leaves(go_right, mask, node, path) == m.masked_leaves(
            go_right,
            mask + Seq::new(extra, |k: int| false),
            node,
            path,
        ),
{
    let padded = mask + Seq::new(extra, |k: int| false);
    assert forall|f: usize| #[trigger] excludes(padded, f) == excludes(mask, f) by {
        if f < mask.len() {
            assert(padded[f as int] == mask[f as int]);
        } else if f < padded.len() {
            assert(padded[f as int] == false);
        }
    }
    lemma_masks_agreeing_on_splits(m, go_right, mask, padded, node, path);
}

/// The directions at splits on excluded features do not affect the
/// excluded-variable traversal: two direction tables that agree on every split
/// node whose feature is not excluded give the same leaves and paths.
pub proof fn lemma_excluded_directions_ignored(
    m: TreeModel,
    go_right1: Seq<bool>,
    go_right2: Seq<bool>,
    mask: Seq<bool>,
    node: int,
    path: Seq<(usize, bool)>,
)
    requires
        m.links_forward(),
        go_right1.len() == m.num_nodes(),
        go_right2.len() == m.num_nodes(),
        forall|i: int|
            0 <= i < m.num_nodes() && !#[trigger] m.is_leaf(i) && !excludes(mask, m.feature[i])
                ==> go_right1[i] == go_right2[i],
        0 <= node < m.num_nodes(),
    ensures
        m.masked_leaves(go_right1, mask, node, path) == m.masked_leaves(go_right2, mask, node, path),
    decreases m.num_nodes() - node,
{
    if !m.is_leaf(node) {
        let l = m.left_child[node] as int;
        let r = m.right_child[node] as int;
        lemma_excluded_directions_ignored(m, go_right1, go_right2, mask, l, path);
        lemma_excluded_directions_ignored(m, go_right1, go_right2, mask, r, path);
        lemma_excluded_directions_ignored(m, go_right1, go_right2, mask, l, path.push((node as usize, false)));
        lemma_excluded_directions_ignored(m, go_right1, go_right2, mask, r, path.push((node as usize, true)));
    }
}

/// A guided path from a child extends to one from its parent split node, when the
/// step to that child is allowed.
pub proof fn lemma_guided_prepend(
    m: TreeModel,
    go_right: Seq<bool>,
    mask: Seq<bool>,
    a: int,
    c: int,
    x: int,
)
    requires
        0 <= a < m.num_nodes(),
        !m.is_leaf(a),
        c == m.child(a, true) || c == m.child(a, false),
        !excludes(mask, m.feature[a]) ==> c == m.child(a, go_right[a]),
        m.guided_from(go_right, mask, c, x),
    ensures
        m.guided_from(go_right, mask, a, x),
{
    let p = choose|p: Seq<int>| #[trigger] m.guided_path(go_right, mask, p) && p[0] == c && p.last() == x;
    let q = seq![a] + p;
    assert forall|j: int| #![trigger q[j]] 0 <= j < q.len() - 1 implies {
        &&& 0 <= q[j] < m.num_nodes()
        &&& !m.is_leaf(q[j])
        &&& (q[j + 1] == m.child(q[j], true) || q[j + 1] == m.child(q[j], false))
        &&& !excludes(mask, m.feature[q[j]]) ==> q[j + 1] == m.child(q[j], go_right[q[j]])
    } by {
        if j > 0 {
            assert(q[j] == p[j - 1]);
            assert(q[j + 1] == p[j]);
        } else {
            assert(q[1] == p[0]);
        }
    }
    assert(m.guided_path(go_right, mask, q));
    assert(q[0] == a && q.last() == x);
}

/// A leaf is reached from itself.
proof fn lemma_guided_self(m: TreeModel, go_right: Seq<bool>, mask: Seq<bool>, a: int)
    ensures
        m.guided_from(go_right, mask, a, a),
{
    let p = seq![a];
    assert(m.guided_path(go_right, mask, p));
    assert(p[0] == a && p.last() == a);
}

/// The deterministic traversal from `node` ends at a leaf that a path reaches on
/// which every step from a split node `k` goes to its right child exactly when
/// `go_right[k]` holds, and to its left child otherwise.
pub proof fn lemma_leaf_from_path(m: TreeModel, go_right: Seq<bool>, node: int)
    requires
        m.links_forward(),
        go_right.len() == m.num_nodes(),
        0 <= node < m.num_nodes(),
    ensures
        m.guided_from(go_right, Seq::empty(), node, m.leaf_from(go_right, node)),
        0 <= m.leaf_from(go_right, node) < m.num_nodes(),
        m.is_leaf(m.leaf_from(go_right, node)),
    decreases m.num_nodes() - node,
{
    if m.is_leaf(node) {
        lemma_guided_self(m, go_right, Seq::empty(), node);
    } else {
        let next = m.child(node, go_right[node]);
        lemma_leaf_from_path(m, go_right, next);
        lemma_guided_prepend(m, go_right, Seq::empty(), node, next, m.leaf_from(go_right, next));
    }
}

/// Lifting an entry of the traversal from a child of an excluded split to the split
/// node, with the split recorded on the side taken.
proof fn lemma_entry_lift_excluded(
    m: TreeModel,
    go_right: Seq<bool>,
    mask: Seq<bool>,
    node: int,
    prefix: Seq<(usize, bool)>,
    right: bool,
    e: (usize, Seq<(usize, bool)>),
)
    requires
        0 <= node < m.num_nodes(),
        m.num_nodes() <= usize::MAX,
        !m.is_leaf(node),
        excludes(mask, m.feature[node]),
        m.masked_entry_ok(go_right, mask, m.child(node, right), prefix.push((node as usize, right)), e),
    ensures
        m.masked_entry_ok(go_right, mask, node, prefix, e),
{
    let c = m.child(node, right);
    let pp = prefix.push((node as usize, right));
    lemma_guided_prepend(m, go_right, mask, node, c, e.0 as int);
    assert(e.1.subrange(0, prefix.len() as int) =~= pp.subrange(0, prefix.len() as int));
    assert(pp.subrange(0, prefix.len() as int) =~= prefix);
    assert(e.1[prefix.len() as int] == pp[prefix.len() as int]);
    assert forall|j: int| #![trigger e.1[j]] prefix.len() <= j < e.1.len() implies {
        &&& e.1[j].0 < m.num_nodes()
        &&& !m.is_leaf(e.1[j].0 as int)
        &&& excludes(mask, m.feature[e.1[j].0 as int])
        &&& m.guided_from(go_right, mask, m.child(e.1[j].0 as int, e.1[j].1), e.0 as int)
    } by {
        if j == prefix.len() {
            assert(e.1[j] == (node as usize, right));
            assert((node as usize) as int == node);
        } else {
            assert(pp.len() <= j);
        }
    }
}

/// Lifting an entry of the traversal from the child that `go_right` chooses at a
/// split on a feature that is not excluded.
proof fn lemma_entry_lift_follow(
    m: TreeModel,
    go_right: Seq<bool>,
    mask: Seq<bool>,
    node: int,
    prefix: Seq<(usize, bool)>,
    e: (usize, Seq<(usize, bool)>),
)
    requires
        0 <= node < m.num_nodes(),
        !m.is_leaf(node),
        m.masked_entry_ok(go_right, mask, m.child(node, go_right[node]), prefix, e),
    ensures
        m.masked_entry_ok(go_right, mask, node, prefix, e),
{
    lemma_guided_prepend(m, go_right, mask, node, m.child(node, go_right[node]), e.0 as int);
}

/// Every entry of the excluded-variable traversal from `node` is a leaf reached
/// from `node` along a guided path, and each excluded split it records as
/// (k, went right) is a split on an excluded feature whose child on that side —
/// the right child exactly when went right holds — leads to the leaf.
pub proof fn lemma_masked_leaves_entries(
    m: TreeModel,
    go_right: Seq<bool>,
    mask: Seq<bool>,
    node: int,
    prefix: Seq<(usize, bool)>,
)
    requires
        m.links_forward(),
        m.num_nodes() <= usize::MAX,
        go_right.len() == m.num_nodes(),
        0 <= node < m.num_nodes(),
    ensures
        forall|i: int|
            0 <= i < m.masked_leaves(go_right, mask, node, prefix).len() ==> m.masked_entry_ok(
                go_right,
                mask,
                node,
                prefix,
                #[trigger] m.masked_leaves(go_right, mask, node, prefix)[i],
            ),
    decreases m.num_nodes() - node,
{
    let res = m.masked_leaves(go_right, mask, node, prefix);
    if m.is_leaf(node) {
        lemma_guided_self(m, go_right, mask, node);
        assert(res == seq![(node as usize, prefix)]);
        assert((node as usize) as int == node);
        assert(res[0].1.subrange(0, prefix.len() as int) =~= prefix);
        assert(m.masked_entry_ok(go_right, mask, node, prefix, res[0]));
    } else {
        let l = m.left_child[node] as int;
        let r = m.right_child[node] as int;
        if excludes(mask, m.feature[node]) {
            let pr = prefix.push((node as usize, true));
            let pl = prefix.push((node as usize, false));
            lemma_masked_leaves_entries(m, go_right, mask, r, pr);
            lemma_masked_leaves_entries(m, go_right, mask, l, pl);
            let a = m.masked_leaves(go_right, mask, r, pr);
            let b = m.masked_leaves(go_right, mask, l, pl);
            assert(res == a + b);
            assert forall|i: int| 0 <= i < res.len() implies m.masked_entry_ok(
                go_right,
                mask,
                node,
                prefix,
                #[trigger] res[i],
            ) by {
                if i < a.len() {
                    assert(res[i] == a[i]);
                    assert(m.masked_entry_ok(go_right, mask, r, pr, a[i]));
                    lemma_entry_lift_excluded(m, go_right, mask, node, prefix, true, a[i]);
                } else {
                    assert(res[i] == b[i - a.len()]);
                    assert(m.masked_entry_ok(go_right, mask, l, pl, b[i - a.len()]));
                    lemma_entry_lift_excluded(m, go_right, mask, node, prefix, false, b[i - a.len()]);
                }
            }
        } else {
            let next = m.child(node, go_right[node]);
            lemma_masked_leaves_entries(m, go_right, mask, next, prefix);
            assert(res == m.masked_leaves(go_right, mask, next, prefix));
            assert forall|i: int| 0 <= i < res.len() implies m.masked_entry_ok(
                go_right,
                mask,
                node,
                prefix,
                #[trigger] res[i],
            ) by {
                assert(m.masked_entry_ok(go_right, mask, next, prefix, res[i]));
                lemma_entry_lift_follow(m, go_right, mask, node, prefix, res[i]);
            }
        }
    }
}

/// Splitting leaf `node` makes it an internal node whose left child is the new node
/// `n` holding `left_value` and whose right child is the new node `n + 1` holding
/// `right_value`; both children are leaves whose parent is `node`, and the split
/// node records the feature, the threshold and both counts.
pub proof fn lemma_split_children(
    m: TreeModel,
    node: int,
    feature: usize,
    threshold: u64,
    left_value: u64,
    right_value: u64,
    left_count: usize,
    right_count: usize,
)
    requires
        m.same_shape(),
        0 <= node < m.num_nodes(),
        m.num_nodes() + 1 <= i32::MAX,
    ensures
        ({
            let n = m.num_nodes() as int;
            let t = m.split(node, feature, threshold, left_value, right_value, left_count, right_count);
            &&& t.num_nodes() == n + 2
            &&& t.value[n] == left_value
            &&& t.value[n + 1] == right_value
            &&& t.left_child[node] == n
            &&& t.right_child[node] == n + 1
            &&& !t.is_leaf(node)
            &&& t.is_leaf(n)
            &&& t.is_leaf(n + 1)
            &&& t.parent[n] == node
            &&& t.parent[n + 1] == node
            &&& t.feature[node] == feature
            &&& t.threshold[node] == threshold
            &&& t.n_left[node] == left_count as i32
            &&& t.n_right[node] == right_count as i32
            &&& forall|i: int| 0 <= i < n ==> #[trigger] t.value[i] == m.value[i]
        }),
{
}

impl DecisionTree {
    /// Creates a tree of a single root leaf holding `init_value` (a double's bits).
    pub fn new(init_value: u64) -> (t: Self)
        ensures
            t@ == TreeModel::root(init_value),
            t@.wf(),
    {
        let t = DecisionTree {
            feature: vec![0],
            threshold: vec![0],
            value: vec![init_value],
            left_child: vec![-1],
            right_child: vec![-1],
            n_left: vec![0],
            n_right: vec![0],
            parent: vec![-1],
            leaf_id: vec![0],
            next_leaf_id: 1,
        };
        proof {
            assert(t@ =~= TreeModel::root(init_value));
            assert(t@.node_ok(0));
        }
        t
    }

    /// Appends a childless, parentless node with the next leaf id and returns its index.
    pub fn add_node(&mut self, feature: usize, threshold: u64, value: u64) -> (node_id: usize)
        requires
            old(self).next_leaf_id < i32::MAX,
        ensures
            node_id == old(self).feature@.len(),
            final(self)@ == old(self)@.add_node(feature, threshold, value),
            old(self)@.wf() ==> final(self)@.wf(),
    {
        let node_id = self.feature.len();
        self.feature.push(feature);
        self.threshold.push(threshold);
        self.value.push(value);
        self.left_child.push(-1);
        self.right_child.push(-1);
        self.n_left.push(0);
        self.n_right.push(0);
        self.parent.push(-1);
        self.leaf_id.push(self.next_leaf_id);
        self.next_leaf_id += 1;
        proof {
            assert(self@ =~= old(self)@.add_node(feature, threshold, value));
            if old(self)@.wf() {
                lemma_add_node_keeps_wf(old(self)@, feature, threshold, value);
            }
        }
        node_id
    }

    /// The left child of node `index`, if it has one.
    pub fn left_child(&self, index: usize) -> (r: Option<usize>)
        requires
            index < self.left_child@.len(),
        ensures
            r == (if self.left_child@[index as int] >= 0 {
                Some(self.left_child@[index as int] as usize)
            } else {
                None
            }),
    {
        let v = self.left_child[index];
        if v >= 0 {
            Some(v as usize)
        } else {
            None
        }
    }

    /// The right child of node `index`, if it has one.
    pub fn right_child(&self, index: usize) -> (r: Option<usize>)
        requires
            index < self.right_child@.len(),
        ensures
            r == (if self.right_child@[index as int] >= 0 {
                Some(self.right_child@[index as int] as usize)
            } else {
                None
            }),
    {
        let v = self.right_child[index];
        if v >= 0 {
            Some(v as usize)
        } else {
            None
        }
    }

    /// Whether node `index` is a leaf: both of its potential children lie outside
    /// the valid node indices.
    pub fn is_leaf(&self, index: usize) -> (r: bool)
        requires
            index < self.left_child@.len(),
            index < self.right_child@.len(),
        ensures
            r == self@.is_leaf(index as int),
    {
        let n = self.value.len();
        let left_out = match self.left_child(index) {
            Some(l) => l >= n,
            None => true,
        };
        let right_out = match self.right_child(index) {
            Some(r) => r >= n,
            None => true,
        };
        left_out && right_out
    }

    /// The number of parent links from node `index` up to the root (a non-positive
    /// index). The index is taken as an `i32`, as parent links are.
    pub fn node_depth(&self, index: usize) -> (depth: usize)
        requires
            self@.reaches_root((#[verifier::truncate] (index as i32)) as int, self.parent@.len()),
        ensures
            depth == self@.depth((#[verifier::truncate] (index as i32)) as int),
    {
        let n = self.parent.len();
        let mut depth: usize = 0;
        let mut cur: i32 = #[verifier::truncate] (index as i32);
        while cur > 0
            invariant
                n == self.parent@.len(),
                depth <= self.parent@.len(),
                self@.reaches_root(cur as int, (self.parent@.len() - depth) as nat),
                depth + self@.depth_within(cur as int, (self.parent@.len() - depth) as nat)
                    == self@.depth((#[verifier::truncate] (index as i32)) as int),
            decreases self.parent@.len() - depth,
        {
            depth += 1;
            cur = self.parent[cur as usize];
        }
        depth
    }

    /// Turns leaf `node_index` into an internal node that splits on `feature` at
    /// `threshold` (a double's bits), appending a left and a right leaf with the
    /// given values and recording the observation counts of each side.
    ///
    /// Returns the indices of the new left and right children. Refuses an index that
    /// is not a node, and a node that is not a leaf, leaving the tree as it is.
    /// A split needs parallel arrays of one length, room for two more leaf ids and
    /// node indices in an `i32`, and leaf marks that agree with the child links
    /// once the split is made (the tree checks this after each split).
    pub fn split_node(
        &mut self,
        node_index: usize,
        feature: usize,
        threshold: u64,
        left_value: u64,
        right_value: u64,
        left_count: usize,
        right_count: usize,
    ) -> (r: Result<(usize, usize), TreeError>)
        requires
            node_index < old(self)@.num_nodes() ==> node_index < old(self).left_child@.len()
                && node_index < old(self).right_child@.len(),
            node_index < old(self)@.num_nodes() && old(self)@.is_leaf(node_index as int) ==> {
                &&& old(self)@.same_shape()
                &&& 0 <= old(self).next_leaf_id <= i32::MAX - 2
                &&& old(self)@.num_nodes() + 1 <= i32::MAX
                &&& old(self)@.split(
                    node_index as int,
                    feature,
                    threshold,
                    left_value,
                    right_value,
                    left_count,
                    right_count,
                ).leaves_consistent()
            },
        ensures
            node_index >= old(self)@.num_nodes() ==> {
                &&& r == Err::<(usize, usize), TreeError>(TreeError::InvalidNodeIndex)
                &&& final(self)@ == old(self)@
            },
            node_index < old(self)@.num_nodes() && !old(self)@.is_leaf(node_index as int) ==> {
                &&& r == Err::<(usize, usize), TreeError>(TreeError::NonLeafSplit)
                &&& final(self)@ == old(self)@
            },
            node_index < old(self)@.num_nodes() && old(self)@.is_leaf(node_index as int) ==> {
                &&& r == Ok::<(usize, usize), TreeError>(
                    (old(self)@.num_nodes() as usize, (old(self)@.num_nodes() + 1) as usize),
                )
                &&& final(self)@ == old(self)@.split(
                    node_index as int,
                    feature,
                    threshold,
                    left_value,
                    right_value,
                    left_count,
                    right_count,
                )
                &&& final(self)@.same_shape()
                &&& final(self)@.leaves_consistent()
                &&& final(self).value@[old(self)@.num_nodes() as int] == left_value
                &&& final(self).value@[old(self)@.num_nodes() as int + 1] == right_value
                &&& final(self).left_child@[node_index as int] == old(self)@.num_nodes()
                &&& final(self).right_child@[node_index as int] == old(self)@.num_nodes() + 1
            },
            old(self)@.wf() ==> final(self)@.wf(),
    {
        if node_index >= self.value.len() {
            return Err(TreeError::InvalidNodeIndex);
        }
        if !self.is_leaf(node_index) {
            return Err(TreeError::NonLeafSplit);
        }
        let ghost m = self@;
        self.feature[node_index] = feature;
        self.threshold[node_index] = threshold;
        let left_child_index = self.add_node(0, 0, left_value);
        let right_child_index = self.add_node(0, 0, right_value);
        self.left_child[node_index] = left_child_index as i32;
        self.right_child[node_index] = right_child_index as i32;
        self.n_left[node_index] = left_count as i32;
        self.n_right[node_index] = right_count as i32;
        self.parent[left_child_index] = node_index as i32;
        self.parent[right_child_index] = node_index as i32;
        self.leaf_id[node_index] = -1;
        proof {
            lemma_split_children(
                m,
                node_index as int,
                feature,
                threshold,
                left_value,
                right_value,
                left_count,
                right_count,
            );
            assert(self@ =~= m.split(
                node_index as int,
                feature,
                threshold,
                left_value,
                right_value,
                left_count,
                right_count,
            ));
            if m.wf() {
                lemma_split_keeps_wf(
                    m,
                    node_index as int,
                    feature,
                    threshold,
                    left_value,
                    right_value,
                    left_count,
                    right_count,
                );
            }
        }
        Ok((left_child_index, right_child_index))
    }

    /// Whether node `index` has children.
    pub fn is_split(&self, index: usize) -> (r: bool)
        requires
            index < self.left_child@.len(),
            index < self.right_child@.len(),
        ensures
            r == !self@.is_leaf(index as int),
    {
        !self.is_leaf(index)
    }

    /// Both children of node `index`, when it has both.
    pub fn children(&self, index: usize) -> (r: Option<(usize, usize)>)
        requires
            index < self.left_child@.len(),
            index < self.right_child@.len(),
        ensures
            r == (if self.left_child@[index as int] >= 0 && self.right_child@[index as int] >= 0 {
                Some(
                    (
                        self.left_child@[index as int] as usize,
                        self.right_child@[index as int] as usize,
                    ),
                )
            } else {
                None
            }),
    {
        match (self.left_child(index), self.right_child(index)) {
            (Some(l), Some(r)) => Some((l, r)),
            _ => None,
        }
    }

    /// The number of training observations that reached split node `index`.
    pub fn nvalue(&self, index: usize) -> (r: i32)
        requires
            index < self.n_left@.len(),
            index < self.n_right@.len(),
            i32::MIN <= self.n_left@[index as int] + self.n_right@[index as int] <= i32::MAX,
        ensures
            r == self.n_left@[index as int] + self.n_right@[index as int],
    {
        self.n_left[index] + self.n_right[index]
    }

    /// Whether node `index` carries a leaf id.
    pub fn is_leaf_id(&self, index: usize) -> (r: bool)
        requires
            index < self.leaf_id@.len(),
        ensures
            r == (self.leaf_id@[index as int] >= 0),
    {
        self.leaf_id[index] >= 0
    }

    /// The leaf that a sample reaches from the root, where `go_right[k]` tells
    /// whether the sample goes to the right child of split node `k` (the sample's
    /// value of the split feature is NaN or not below the threshold).
    pub fn predict_leaf(&self, go_right: &[bool]) -> (leaf: usize)
        requires
            self@.links_forward(),
            go_right@.len() == self@.num_nodes(),
        ensures
            leaf == self@.leaf_from(go_right@, 0),
            leaf < self@.num_nodes(),
            self@.is_leaf(leaf as int),
            self@.guided_from(go_right@, Seq::empty(), 0, leaf as int),
    {
        proof {
            lemma_leaf_from_path(self@, go_right@, 0);
        }
        let mut node: usize = 0;
        while !self.is_leaf(node)
            invariant
                self@.links_forward(),
                go_right@.len() == self@.num_nodes(),
                node < self@.num_nodes(),
                self@.leaf_from(go_right@, node as int) == self@.leaf_from(go_right@, 0),
            decreases self@.num_nodes() - node,
        {
            if go_right[node] {
                node = self.right_child(node).unwrap();
            } else {
                node = self.left_child(node).unwrap();
            }
        }
        node
    }

    fn collect_masked_leaves(
        &self,
        node: usize,
        go_right: &[bool],
        excluded_mask: &[bool],
        path: &mut Vec<(usize, bool)>,
        out: &mut Vec<ReachedLeaf>,
    )
        requires
            self@.links_forward(),
            go_right@.len() == self@.num_nodes(),
            node < self@.num_nodes(),
        ensures
            final(path)@ == old(path)@,
            final(out)@.map_values(|x: ReachedLeaf| x@) == old(out)@.map_values(
                |x: ReachedLeaf| x@,
            ) + self@.masked_leaves(go_right@, excluded_mask@, node as int, old(path)@),
        decreases self@.num_nodes() - node,
    {
        if self.is_leaf(node) {
            let p = copy_path(path);
            let ghost before = out@;
            out.push(ReachedLeaf { leaf: node, path: p });
            proof {
                assert(out@.map_values(|x: ReachedLeaf| x@) =~= before.map_values(
                    |x: ReachedLeaf| x@,
                ) + seq![(node, path@)]);
            }
            return;
        }
        let feat = self.feature[node];
        let (l, r) = self.children(node).unwrap();
        if feat < excluded_mask.len() && excluded_mask[feat] {
            let ghost p0 = path@;
            let ghost o0 = out@.map_values(|x: ReachedLeaf| x@);
            path.push((node, true));
            self.collect_masked_leaves(r, go_right, excluded_mask, path, out);
            let ghost o1 = out@.map_values(|x: ReachedLeaf| x@);
            path.pop();
            assert(path@ =~= p0);
            path.push((node, false));
            self.collect_masked_leaves(l, go_right, excluded_mask, path, out);
            path.pop();
            assert(path@ =~= p0);
            proof {
                assert(out@.map_values(|x: ReachedLeaf| x@) =~= o0 + self@.masked_leaves(
                    go_right@,
                    excluded_mask@,
                    node as int,
                    p0,
                ));
            }
        } else {
            let next = if go_right[node] {
                r
            } else {
                l
            };
            self.collect_masked_leaves(next, go_right, excluded_mask, path, out);
        }
    }

    /// The leaves that a sample reaches when the features marked in `excluded_mask`
    /// are excluded: a split on an excluded feature sends the traversal down both
    /// children (to be weighted by the observation counts of each side), any other
    /// split follows `go_right`. Leaves come in the order of a last-in first-out
    /// traversal that pushes the left child before the right one.
    pub fn excluded_mask_leaves(&self, go_right: &[bool], excluded_mask: &[bool]) -> (leaves: Vec<
        ReachedLeaf,
    >)
        requires
            self@.links_forward(),
            go_right@.len() == self@.num_nodes(),
        ensures
            leaves@.map_values(|x: ReachedLeaf| x@) == self@.masked_leaves(
                go_right@,
                excluded_mask@,
                0,
                Seq::empty(),
            ),
            forall|i: int|
                0 <= i < leaves@.len() ==> self@.masked_entry_ok(
                    go_right@,
                    excluded_mask@,
                    0,
                    Seq::empty(),
                    #[trigger] leaves@[i]@,
                ),
    {
        let mut path: Vec<(usize, bool)> = Vec::new();
        let mut out: Vec<ReachedLeaf> = Vec::new();
        self.collect_masked_leaves(0, go_right, excluded_mask, &mut path, &mut out);
        let n_nodes = self.value.len();
        proof {
            assert(n_nodes == self@.num_nodes());
            lemma_masked_leaves_entries(self@, go_right@, excluded_mask@, 0, Seq::empty());
            assert(Seq::<ReachedLeaf>::empty().map_values(|x: ReachedLeaf| x@) =~= Seq::empty());
            assert(path@ =~= Seq::<(usize, bool)>::empty());
            let res = self@.masked_leaves(go_right@, excluded_mask@, 0, Seq::empty());
            assert forall|i: int| 0 <= i < out@.len() implies self@.masked_entry_ok(
                go_right@,
                excluded_mask@,
                0,
                Seq::empty(),
                #[trigger] out@[i]@,
            ) by {
                assert(out@.map_values(|x: ReachedLeaf| x@)[i] == out@[i]@);
                assert(self@.masked_entry_ok(go_right@, excluded_mask@, 0, Seq::empty(), res[i]));
            }
        }
        out
    }

    /// Whether there is a root and every node that is not a leaf has both children,
    /// each after it (what the traversals need).
    pub fn has_forward_links(&self) -> (ok: bool)
        ensures
            ok == self@.links_forward(),
    {
        let n = self.value.len();
        if n == 0 || self.feature.len() != n || self.left_child.len() != n || self.right_child.len()
            != n {
            return false;
        }
        let mut i: usize = 0;
        while i < n
            invariant
                n == self@.num_nodes(),
                n >= 1,
                self.feature@.len() == n,
                self.left_child@.len() == n,
                self.right_child@.len() == n,
                i <= n,
                forall|k: int|
                    0 <= k < i && !#[trigger] self@.is_leaf(k) ==> k < self.left_child@[k] < n
                        && k < self.right_child@[k] < n,
            decreases n - i,
        {
            if !self.is_leaf(i) {
                let l = self.left_child[i];
                let r = self.right_child[i];
                if !(l >= 0 && (l as usize) > i && (l as usize) < n && r >= 0 && (r as usize) > i
                    && (r as usize) < n) {
                    assert(!self@.is_leaf(i as int));
                    return false;
                }
            }
            i += 1;
        }
        true
    }

    /// The arrays of the tree laid out for export.
    pub fn to_dump_parts(&self) -> (parts: TreeDumpParts)
        requires
            self.leaf_id@.len() >= self.value@.len(),
            self.feature@.len() >= self.value@.len(),
            self.threshold@.len() >= self.value@.len(),
        ensures
            parts.split_feature@ == Seq::new(
                self.value@.len(),
                |i: int|
                    if self.leaf_id@[i] >= 0 {
                        -1i32
                    } else {
                        self.feature@[i] as i32
                    },
            ),
            parts.split_value@ == Seq::new(
                self.value@.len(),
                |i: int|
                    if self.leaf_id@[i] >= 0 {
                        0u64
                    } else {
                        self.threshold@[i]
                    },
            ),
            parts.left_child@ == self.left_child@,
            parts.right_child@ == self.right_child@,
            parts.leaf_value@ == self.value@,
            parts.n_left@ == self.n_left@,
            parts.n_right@ == self.n_right@,
            parts.root_index == 0,
    {
        let n = self.value.len();
        let mut split_feature: Vec<i32> = Vec::new();
        let mut split_value: Vec<u64> = Vec::new();
        let mut i: usize = 0;
        while i < n
            invariant
                n == self.value@.len(),
                i <= n,
                self.leaf_id@.len() >= n,
                self.feature@.len() >= n,
                self.threshold@.len() >= n,
                split_feature@.len() == i,
                split_value@.len() == i,
                forall|k: int|
                    0 <= k < i ==> #[trigger] split_feature@[k] == (if self.leaf_id@[k] >= 0 {
                        -1i32
                    } else {
                        self.feature@[k] as i32
                    }),
                forall|k: int|
                    0 <= k < i ==> #[trigger] split_value@[k] == (if self.leaf_id@[k] >= 0 {
                        0u64
                    } else {
                        self.threshold@[k]
                    }),
            decreases n - i,
        {
            if self.leaf_id[i] >= 0 {
                split_feature.push(-1);
                split_value.push(0);
            } else {
                split_feature.push(self.feature[i] as i32);
                split_value.push(self.threshold[i]);
            }
            i += 1;
        }
        let parts = TreeDumpParts {
            split_feature,
            split_value,
            left_child: copy_i32s(&self.left_child),
            right_child: copy_i32s(&self.right_child),
            leaf_value: copy_u64s(&self.value),
            n_left: copy_i32s(&self.n_left),
            n_right: copy_i32s(&self.n_right),
            root_index: 0,
        };
        proof {
            assert(parts.split_feature@ =~= Seq::new(
                self.value@.len(),
                |i: int|
                    if self.leaf_id@[i] >= 0 {
                        -1i32
                    } else {
                        self.feature@[i] as i32
                    },
            ));
            assert(parts.split_value@ =~= Seq::new(
                self.value@.len(),
                |i: int|
                    if self.leaf_id@[i] >= 0 {
                        0u64
                    } else {
                        self.threshold@[i]
                    },
            ));
        }
        parts
    }

    /// Checks that every node is a structural leaf exactly when its leaf id marks it
    /// as one; the marks must agree for the check to pass.
    pub fn validate_invariants(&self)
        requires
            self.left_child@.len() >= self.value@.len(),
            self.right_child@.len() >= self.value@.len(),
            self.leaf_id@.len() >= self.value@.len(),
            self@.leaves_consistent(),
    {
        let n = self.value.len();
        let mut i: usize = 0;
        while i < n
            invariant
                n == self.value@.len(),
                i <= n,
                self.left_child@.len() >= n,
                self.right_child@.len() >= n,
                self.leaf_id@.len() >= n,
                self@.leaves_consistent(),
            decreases n - i,
        {
            let structural_leaf = self.is_leaf(i);
            let semantic_leaf = self.leaf_id[i] >= 0;
            assert(self@.leaf_id[i as int] >= 0 <==> self@.is_leaf(i as int));
            assert(structural_leaf == semantic_leaf);
            i += 1;
        }
    }
}

} // verus!
