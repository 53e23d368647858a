//! The mathematical model of a decision tree: its nodes by id, the parent of
//! each node, and what splitting and reverting do to both.

use crate::behaviour::Behaviour;
use crate::bifurcation::Entries;
use crate::colors::Color;
use vstd::prelude::*;

verus! {

/// What a node of the tree is.
pub enum NodeView {
    /// All colours of the node have one class.
    Leaf { class: Seq<Behaviour>, colors: Set<Color> },
    /// The node was split by an attribute; `classes` is what it held before.
    Decision { attribute: int, left: int, right: int, classes: Entries },
    /// The node holds several classes and was not split.
    Unprocessed { classes: Entries },
}

/// The classes of a node with their colours.
pub open spec fn partition_of(n: NodeView) -> Entries {
    match n {
        NodeView::Leaf { class, colors } => seq![(class, colors)],
        NodeView::Decision { classes, .. } => classes,
        NodeView::Unprocessed { classes } => classes,
    }
}

/// The node that holds the given classes: a leaf for one class, else unprocessed.
pub open spec fn node_of(e: Entries) -> NodeView {
    if e.len() == 1 {
        NodeView::Leaf { class: e[0].0, colors: e[0].1 }
    } else {
        NodeView::Unprocessed { classes: e }
    }
}

/// A tree: for each id ever given out the node, or nothing once it was
/// removed, and the id of the node's parent.
pub struct TreeView {
    pub nodes: Seq<Option<NodeView>>,
    pub parents: Seq<Option<int>>,
}

impl TreeView {
    /// Whether an id names a node of the tree.
    pub open spec fn live(self, j: int) -> bool {
        0 <= j < self.nodes.len() && self.nodes[j] is Some
    }

    /// Whether a live id names a decision node.
    pub open spec fn is_decision(self, j: int) -> bool {
        self.live(j) && self.nodes[j] matches Some(NodeView::Decision { .. })
    }

    /// The attribute of a decision node.
    pub open spec fn attribute_of(self, j: int) -> int {
        match self.nodes[j] {
            Some(NodeView::Decision { attribute, .. }) => attribute,
            _ => -1,
        }
    }

    /// The left child of a decision node.
    pub open spec fn left_of(self, j: int) -> int {
        match self.nodes[j] {
            Some(NodeView::Decision { left, .. }) => left,
            _ => -1,
        }
    }

    /// The right child of a decision node.
    pub open spec fn right_of(self, j: int) -> int {
        match self.nodes[j] {
            Some(NodeView::Decision { right, .. }) => right,
            _ => -1,
        }
    }

    /// The parent of a node, or -1 for a node without one.
    pub open spec fn parent_of(self, j: int) -> int {
        if 0 <= j < self.parents.len() {
            match self.parents[j] {
                Some(p) => p,
                None => -1,
            }
        } else {
            -1
        }
    }

    /// Whether the way from `j` up to the root passes `n`; `j` itself counts.
    pub open spec fn reaches(self, j: int, n: int) -> bool
        decreases j,
    {
        if j == n {
            true
        } else if 0 <= self.parent_of(j) < j {
            self.reaches(self.parent_of(j), n)
        } else {
            false
        }
    }

    /// Whether `j` is a node of the tree below `n`.
    pub open spec fn beneath(self, j: int, n: int) -> bool {
        j != n && self.live(j) && self.reaches(j, n)
    }

    /// The number of decisions above a node.
    pub open spec fn depth(self, j: int) -> nat
        decreases j,
    {
        if 0 <= self.parent_of(j) < j {
            1 + self.depth(self.parent_of(j))
        } else {
            0
        }
    }

    /// What must hold of a node other than the root: its parent is a decision
    /// node with a smaller id that has it as a child.
    pub open spec fn child_ok(self, j: int) -> bool {
        let p = self.parent_of(j);
        0 <= p < j && self.is_decision(p) && (self.left_of(p) == j || self.right_of(p) == j)
    }

    /// What must hold of a decision node: its attribute exists, and its two
    /// children are distinct nodes with larger ids that have it as parent.
    pub open spec fn decision_ok(self, i: int, attributes: int) -> bool {
        let l = self.left_of(i);
        let r = self.right_of(i);
        &&& 0 <= self.attribute_of(i) < attributes
        &&& i < l < self.nodes.len()
        &&& i < r < self.nodes.len()
        &&& l != r
        &&& self.live(l)
        &&& self.live(r)
        &&& self.parent_of(l) == i
        &&& self.parent_of(r) == i
    }

    /// The shape of a tree over the given number of attributes: the root is
    /// node 0, every other node hangs below a decision, every decision has its
    /// two children, and removed ids have no parent.
    pub open spec fn structured(self, attributes: int) -> bool {
        &&& self.nodes.len() == self.parents.len()
        &&& self.live(0)
        &&& self.parents[0] is None
        &&& forall|j: int| 0 < j && #[trigger] self.live(j) ==> self.child_ok(j)
        &&& forall|i: int| #[trigger] self.is_decision(i) ==> self.decision_ok(i, attributes)
        &&& forall|j: int|
            0 <= j < self.nodes.len() && !(#[trigger] self.live(j)) ==> self.parents[j] is None
    }

    /// The tree after the decision at `n` was taken back: all nodes below `n`
    /// are removed, and `n` is unprocessed with the classes it held.
    pub open spec fn after_revert(self, n: int) -> TreeView {
        TreeView {
            nodes: Seq::new(
                self.nodes.len(),
                |j: int|
                    if self.beneath(j, n) {
                        None
                    } else if j == n {
                        Some(NodeView::Unprocessed { classes: partition_of(self.nodes[n].unwrap()) })
                    } else {
                        self.nodes[j]
                    },
            ),
            parents: Seq::new(
                self.parents.len(),
                |j: int|
                    if self.beneath(j, n) {
                        None
                    } else {
                        self.parents[j]
                    },
            ),
        }
    }

    /// The tree after `n` was split by attribute `a` into nodes that hold
    /// `left` and `right`: the two get the next two ids, and `n` becomes a
    /// decision that keeps the classes it held.
    pub open spec fn after_decision(self, n: int, a: int, left: Entries, right: Entries) -> TreeView {
        let l = self.nodes.len() as int;
        TreeView {
            nodes: self.nodes.update(
                n,
                Some(
                    NodeView::Decision {
                        attribute: a,
                        left: l,
                        right: l + 1,
                        classes: partition_of(self.nodes[n].unwrap()),
                    },
                ),
            ).push(Some(node_of(left))).push(Some(node_of(right))),
            parents: self.parents.push(Some(n)).push(Some(n)),
        }
    }
}

/// The way up from a node passes only nodes with ids no larger than its own.
pub proof fn lemma_reaches_below(t: TreeView, j: int, n: int)
    requires
        t.reaches(j, n),
    ensures
        n <= j,
    decreases j,
{
    if j != n {
        lemma_reaches_below(t, t.parent_of(j), n);
    }
}

/// Below a node that is no decision there is nothing.
pub proof fn lemma_nothing_beneath(t: TreeView, attributes: int, j: int, n: int)
    requires
        t.structured(attributes),
        t.live(n),
        !t.is_decision(n),
    ensures
        !t.beneath(j, n),
    decreases j,
{
    if t.beneath(j, n) {
        lemma_reaches_below(t, j, n);
        let p = t.parent_of(j);
        assert(t.child_ok(j));
        if p != n {
            assert(t.live(p));
            lemma_nothing_beneath(t, attributes, p, n);
        }
    }
}

/// A node hangs below `n` exactly when its parent is `n` or hangs below it.
pub proof fn lemma_beneath_step(t: TreeView, attributes: int, j: int, n: int)
    requires
        t.structured(attributes),
        t.live(j),
        j != n,
    ensures
        t.beneath(j, n) <==> (j > 0 && (t.parent_of(j) == n || t.beneath(t.parent_of(j), n))),
{
    if j > 0 {
        assert(t.child_ok(j));
        let p = t.parent_of(j);
        assert(t.reaches(n, n));
        assert(t.reaches(j, n) == t.reaches(p, n));
        assert(t.live(p));
    } else {
        assert(t.parent_of(0) == -1);
        assert(!t.reaches(0, n));
    }
}

/// Taking a decision back leaves a tree.
pub proof fn lemma_revert_structured(t: TreeView, attributes: int, n: int)
    requires
        t.structured(attributes),
        t.live(n),
    ensures
        t.after_revert(n).structured(attributes),
{
    let u = t.after_revert(n);
    assert(!t.beneath(0, n)) by {
        if t.beneath(0, n) {
            lemma_reaches_below(t, 0, n);
        }
    }
    assert forall|j: int| 0 < j && #[trigger] u.live(j) implies u.child_ok(j) by {
        assert(t.live(j));
        assert(t.child_ok(j));
        let p = t.parent_of(j);
        if j == n {
            if t.beneath(p, n) {
                lemma_reaches_below(t, p, n);
            }
        } else {
            lemma_beneath_step(t, attributes, j, n);
        }
        assert(!t.beneath(p, n));
        assert(p != n);
        assert(u.nodes[p] == t.nodes[p]);
        assert(u.parent_of(j) == p);
    }
    assert forall|i: int| #[trigger] u.is_decision(i) implies u.decision_ok(i, attributes) by {
        assert(i != n);
        assert(t.is_decision(i));
        assert(t.decision_ok(i, attributes));
        let l = t.left_of(i);
        let r = t.right_of(i);
        if l != n {
            lemma_beneath_step(t, attributes, l, n);
        }
        if r != n {
            lemma_beneath_step(t, attributes, r, n);
        }
        assert(u.live(l));
        assert(u.live(r));
        assert(u.parent_of(l) == i);
        assert(u.parent_of(r) == i);
    }
    assert forall|j: int| 0 <= j < u.nodes.len() && !(#[trigger] u.live(j)) implies u.parents[j] is None by {
        if !t.beneath(j, n) {
            assert(!t.live(j));
        }
    }
}

/// Splitting a node that is no decision leaves a tree.
pub proof fn lemma_decision_structured(
    t: TreeView,
    attributes: int,
    n: int,
    a: int,
    left: Entries,
    right: Entries,
)
    requires
        t.structured(attributes),
        t.live(n),
        !t.is_decision(n),
        0 <= a < attributes,
    ensures
        t.after_decision(n, a, left, right).structured(attributes),
{
    let u = t.after_decision(n, a, left, right);
    let len = t.nodes.len() as int;
    assert forall|j: int| 0 < j && #[trigger] u.live(j) implies u.child_ok(j) by {
        if j < len {
            assert(t.live(j));
            assert(t.child_ok(j));
            let p = t.parent_of(j);
            assert(p != n);
            assert(u.nodes[p] == t.nodes[p]);
            assert(u.parent_of(j) == p);
        } else {
            assert(u.parent_of(j) == n);
            assert(u.is_decision(n));
        }
    }
    assert forall|i: int| #[trigger] u.is_decision(i) implies u.decision_ok(i, attributes) by {
        if i == n {
            assert(u.left_of(n) == len);
            assert(u.right_of(n) == len + 1);
            assert(u.live(len));
            assert(u.live(len + 1));
        } else {
            assert(i < len);
            assert(t.is_decision(i));
            assert(t.decision_ok(i, attributes));
            let l = t.left_of(i);
            let r = t.right_of(i);
            assert(u.live(l));
            assert(u.live(r));
            assert(u.parent_of(l) == i);
            assert(u.parent_of(r) == i);
        }
    }
    assert forall|j: int| 0 <= j < u.nodes.len() && !(#[trigger] u.live(j)) implies u.parents[j] is None by {
        assert(j < len);
        assert(!t.live(j));
    }
}

} // verus!
