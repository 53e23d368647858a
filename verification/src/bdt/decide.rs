//! Splitting a node by an attribute, and taking a split back.

use crate::bdt::AttributeId;
use crate::bdt::AttributeSets;
use crate::bdt::Bdt;
use crate::bdt::BdtNode;
use crate::bdt::BdtNodeId;
use crate::bdt::Slot;
use crate::bdt::splits_ok;
use crate::bdt::view::lemma_beneath_step;
use crate::bdt::view::lemma_decision_structured;
use crate::bdt::view::lemma_reaches_below;
use crate::bdt::view::lemma_revert_structured;
use crate::bdt::view::node_of;
use crate::bdt::view::partition_of;
use crate::bdt::view::TreeView;
use crate::bifurcation::BifurcationFunction;
use crate::bifurcation::Entries;
use crate::bifurcation::restricted;
use vstd::prelude::*;

verus! {

/// Why a node was not split.
#[derive(Clone, Copy, Debug, PartialEq, Eq, Structural)]
pub enum DecisionError {
    /// The id names no node of the tree.
    InvalidNode,
    /// The id names no attribute of the tree.
    InvalidAttribute,
    /// The attribute does not divide the colours of the node: one of the two
    /// sides would be empty.
    NoOpSplit,
}

/// The ids below `n` among the first `upto` ids, in ascending order.
pub open spec fn ids_beneath(t: TreeView, n: int, upto: int) -> Seq<int>
    decreases upto,
{
    if upto <= 0 {
        Seq::empty()
    } else if t.beneath(upto - 1, n) {
        ids_beneath(t, n, upto - 1).push(upto - 1)
    } else {
        ids_beneath(t, n, upto - 1)
    }
}

/// The ids below a node are listed once each, in ascending order, and no
/// other id is listed.
pub proof fn lemma_ids_beneath(t: TreeView, n: int, upto: int)
    ensures
        forall|k: int|
            0 <= k < ids_beneath(t, n, upto).len() ==> 0 <= (#[trigger] ids_beneath(t, n, upto)[k])
                < upto && t.beneath(ids_beneath(t, n, upto)[k], n),
        forall|k: int, m: int|
            0 <= k < m < ids_beneath(t, n, upto).len() ==> ids_beneath(t, n, upto)[k] < ids_beneath(
                t,
                n,
                upto,
            )[m],
        forall|j: int|
            0 <= j < upto && t.beneath(j, n) ==> ids_beneath(t, n, upto).contains(j),
    decreases upto,
{
    if upto > 0 {
        lemma_ids_beneath(t, n, upto - 1);
        let shorter = ids_beneath(t, n, upto - 1);
        let longer = ids_beneath(t, n, upto);
        if t.beneath(upto - 1, n) {
            assert(longer[shorter.len() as int] == upto - 1);
        }
        assert forall|j: int| 0 <= j < upto && t.beneath(j, n) implies longer.contains(j) by {
            if j < upto - 1 {
                assert(shorter.contains(j));
                let k = choose|k: int| 0 <= k < shorter.len() && shorter[k] == j;
                assert(longer[k] == j);
            }
        }
    }
}

/// The classes that a node hands to the two sides of an attribute.
pub open spec fn sides(t: TreeView, sets: AttributeSets, n: int, a: int) -> (Entries, Entries) {
    let held = partition_of(t.nodes[n].unwrap());
    (restricted(held, sets[a].0), restricted(held, sets[a].1))
}

/// Whether an attribute divides the colours of a node: neither side is empty.
pub open spec fn divides(t: TreeView, sets: AttributeSets, n: int, a: int) -> bool {
    sides(t, sets, n, a).0.len() > 0 && sides(t, sets, n, a).1.len() > 0
}

/// The tree after node `n` was split by attribute `a`. What hung below `n`
/// before is removed first.
pub open spec fn decided(t: TreeView, sets: AttributeSets, n: int, a: int) -> TreeView {
    let base = if t.is_decision(n) {
        t.after_revert(n)
    } else {
        t
    };
    base.after_decision(n, a, sides(t, sets, n, a).0, sides(t, sets, n, a).1)
}

/// The classes of a node made for given classes are those classes.
pub proof fn lemma_node_of(e: Entries)
    ensures
        partition_of(node_of(e)) == e,
{
    if e.len() == 1 {
        assert(seq![(e[0].0, e[0].1)] =~= e);
    }
}

/// Taking a decision back keeps the splits of the decisions that stay.
pub proof fn lemma_revert_splits(t: TreeView, sets: AttributeSets, n: int)
    requires
        t.structured(sets.len() as int),
        splits_ok(t, sets),
        t.live(n),
    ensures
        splits_ok(t.after_revert(n), sets),
{
    let u = t.after_revert(n);
    assert forall|i: int| #[trigger] u.is_decision(i) implies {
        let held = partition_of(u.nodes[i].unwrap());
        let a = sets[u.attribute_of(i)];
        &&& partition_of(u.nodes[u.left_of(i)].unwrap()) == restricted(held, a.0)
        &&& partition_of(u.nodes[u.right_of(i)].unwrap()) == restricted(held, a.1)
    } by {
        assert(t.is_decision(i));
        assert(t.decision_ok(i, sets.len() as int));
        let l = t.left_of(i);
        let r = t.right_of(i);
        if l != n {
            lemma_beneath_step(t, sets.len() as int, l, n);
        }
        if r != n {
            lemma_beneath_step(t, sets.len() as int, r, n);
        }
    }
}

/// Splitting a node keeps the splits of the other decisions and adds its own.
pub proof fn lemma_decision_splits(
    t: TreeView,
    sets: AttributeSets,
    n: int,
    a: int,
    left: Entries,
    right: Entries,
)
    requires
        t.structured(sets.len() as int),
        splits_ok(t, sets),
        t.live(n),
        !t.is_decision(n),
        0 <= a < sets.len(),
        left == restricted(partition_of(t.nodes[n].unwrap()), sets[a].0),
        right == restricted(partition_of(t.nodes[n].unwrap()), sets[a].1),
    ensures
        splits_ok(t.after_decision(n, a, left, right), sets),
{
    let u = t.after_decision(n, a, left, right);
    let len = t.nodes.len() as int;
    lemma_node_of(left);
    lemma_node_of(right);
    assert forall|i: int| #[trigger] u.is_decision(i) implies {
        let held = partition_of(u.nodes[i].unwrap());
        let s = sets[u.attribute_of(i)];
        &&& partition_of(u.nodes[u.left_of(i)].unwrap()) == restricted(held, s.0)
        &&& partition_of(u.nodes[u.right_of(i)].unwrap()) == restricted(held, s.1)
    } by {
        if i == n {
            assert(u.nodes[len] == Some(node_of(left)));
            assert(u.nodes[len + 1] == Some(node_of(right)));
        } else {
            assert(i < len);
            assert(t.is_decision(i));
            assert(t.decision_ok(i, sets.len() as int));
        }
    }
}

impl Bdt {
    /// Takes the decision at a node back: every node below it is removed for
    /// good, and the node is unprocessed again with the classes it held. The
    /// result lists the removed ids in ascending order; it is nothing, and
    /// the tree stays as it is, where the id names no decision.
    pub fn revert_decision(&mut self, node: BdtNodeId) -> (r: Option<Vec<BdtNodeId>>)
        requires
            old(self).wf(),
        ensures
            final(self).wf(),
            final(self).attribute_sets() == old(self).attribute_sets(),
            final(self).attribute_names() == old(self).attribute_names(),
            final(self).precision() == old(self).precision(),
            final(self).encoding() == old(self).encoding(),
            match r {
                Some(removed) => {
                    &&& old(self)@.is_decision(node@)
                    &&& final(self)@ == old(self)@.after_revert(node@)
                    &&& Seq::new(removed@.len(), |k: int| removed@[k]@) == ids_beneath(
                        old(self)@,
                        node@,
                        old(self)@.nodes.len() as int,
                    )
                },
                None => !old(self)@.is_decision(node@) && final(self)@ == old(self)@,
            },
    {
        let n: usize = node.0;
        if n >= self.storage.len() {
            return None;
        }
        let (classes, parent) = match &self.storage[n] {
            Some(slot) => match &slot.node {
                BdtNode::Decision { classes, .. } => (classes.duplicate(), slot.parent),
                _ => {
                    return None;
                },
            },
            None => {
                return None;
            },
        };
        let ghost t = self@;
        let ghost before = self.storage@;
        let ghost count = self.attributes@.len() as int;
        let len: usize = self.storage.len();
        let mut marked: Vec<bool> = Vec::new();
        let mut removed: Vec<BdtNodeId> = Vec::new();
        let mut j: usize = 0;
        while j < len
            invariant
                j <= len,
                n < len,
                len == before.len(),
                self.storage@.len() == len,
                t == old(self)@,
                before == old(self).storage@,
                t.structured(count),
                marked@.len() == j,
                forall|k: int| 0 <= k < j ==> #[trigger] marked@[k] == t.beneath(k, n as int),
                forall|k: int|
                    0 <= k < j ==> #[trigger] self.storage@[k] == if t.beneath(k, n as int) {
                        None
                    } else {
                        before[k]
                    },
                forall|k: int| j <= k < len ==> #[trigger] self.storage@[k] == before[k],
                Seq::new(removed@.len(), |k: int| removed@[k]@) == ids_beneath(
                    t,
                    n as int,
                    j as int,
                ),
                self.attributes == old(self).attributes,
                self.precision == old(self).precision,
                self.space == old(self).space,
            decreases len - j,
        {
            let hit: bool = match &self.storage[j] {
                Some(slot) => match slot.parent {
                    Some(p) => p < j && (p == n || marked[p]),
                    None => false,
                },
                None => false,
            };
            proof {
                let jj = j as int;
                if t.live(jj) {
                    if jj == n as int {
                        if jj > 0 {
                            assert(t.child_ok(jj));
                            let p = t.parent_of(jj);
                            if t.beneath(p, n as int) {
                                lemma_reaches_below(t, p, n as int);
                            }
                        }
                    } else {
                        lemma_beneath_step(t, count, jj, n as int);
                        if jj > 0 {
                            assert(t.child_ok(jj));
                        }
                    }
                } else {
                    assert(t.parents[jj] is None);
                }
                assert(hit == t.beneath(jj, n as int));
            }
            marked.push(hit);
            if hit {
                let ghost listed = Seq::new(removed@.len(), |k: int| removed@[k]@);
                removed.push(BdtNodeId(j));
                self.storage.set(j, None);
                proof {
                    assert(Seq::new(removed@.len(), |k: int| removed@[k]@) =~= listed.push(
                        j as int,
                    ));
                }
            }
            j += 1;
        }
        let ghost kept = classes.entries();
        self.storage.set(n, Some(Slot { node: BdtNode::Unprocessed { classes }, parent }));
        proof {
            let u = t.after_revert(n as int);
            assert(!t.beneath(n as int, n as int));
            assert(self@.nodes =~= u.nodes);
            assert(self@.parents =~= u.parents);
            lemma_revert_structured(t, count, n as int);
            lemma_revert_splits(t, old(self).attribute_sets(), n as int);
            assert(self.attribute_sets() =~= old(self).attribute_sets());
            assert forall|k: int| 0 <= k < self.storage@.len() implies match #[trigger] self.storage@[k] {
                Some(slot) => slot.node.content_ok(self.space@),
                None => true,
            } by {
                if k != n as int && !t.beneath(k, n as int) {
                    assert(self.storage@[k] == before[k]);
                }
            }
        }
        Some(removed)
    }

    /// Splits a node by an attribute: the colours of each class are divided
    /// into those that meet the attribute and those that do not, the two
    /// sides become new nodes with the next two ids, and the node becomes a
    /// decision that keeps the classes it held. A node that is a decision
    /// already loses what hung below it first. Nothing changes where the id
    /// of the node or of the attribute is not valid, or one side is empty.
    pub fn make_decision(&mut self, node: BdtNodeId, attribute: AttributeId) -> (r: Result<
        (BdtNodeId, BdtNodeId),
        DecisionError,
    >)
        requires
            old(self).wf(),
        ensures
            final(self).wf(),
            final(self).attribute_sets() == old(self).attribute_sets(),
            final(self).attribute_names() == old(self).attribute_names(),
            final(self).precision() == old(self).precision(),
            final(self).encoding() == old(self).encoding(),
            match r {
                Ok((left, right)) => {
                    &&& old(self)@.live(node@)
                    &&& attribute@ < old(self).attribute_sets().len()
                    &&& divides(old(self)@, old(self).attribute_sets(), node@, attribute@)
                    &&& final(self)@ == decided(
                        old(self)@,
                        old(self).attribute_sets(),
                        node@,
                        attribute@,
                    )
                    &&& left@ == old(self)@.nodes.len()
                    &&& right@ == old(self)@.nodes.len() + 1
                },
                Err(DecisionError::InvalidNode) => !old(self)@.live(node@) && final(self)@ == old(
                    self,
                )@,
                Err(DecisionError::InvalidAttribute) => old(self)@.live(node@) && attribute@ >= old(
                    self,
                ).attribute_sets().len() && final(self)@ == old(self)@,
                Err(DecisionError::NoOpSplit) => old(self)@.live(node@) && attribute@ < old(
                    self,
                ).attribute_sets().len() && !divides(
                    old(self)@,
                    old(self).attribute_sets(),
                    node@,
                    attribute@,
                ) && final(self)@ == old(self)@,
            },
    {
        let n: usize = node.0;
        let a: usize = attribute.0;
        let ghost t = self@;
        let ghost sets = self.attribute_sets();
        if n >= self.storage.len() {
            return Err(DecisionError::InvalidNode);
        }
        let held: BifurcationFunction = match &self.storage[n] {
            Some(slot) => slot.node.classes(),
            None => {
                return Err(DecisionError::InvalidNode);
            },
        };
        if a >= self.attributes.len() {
            return Err(DecisionError::InvalidAttribute);
        }
        proof {
            assert(self.storage@[n as int].unwrap().node.content_ok(self.space@));
            assert(self.attributes@[a as int].wf());
            assert(sets[a as int] == (
                self.attributes@[a as int].positive(),
                self.attributes@[a as int].negative(),
            ));
        }
        let (left, right) = self.attributes[a].split(&held);
        if left.is_empty() || right.is_empty() {
            return Err(DecisionError::NoOpSplit);
        }
        let was_decision: bool = match &self.storage[n] {
            Some(slot) => slot.node.is_decision(),
            None => false,
        };
        if was_decision {
            let dropped = self.revert_decision(node);
        }
        let ghost base = self@;
        proof {
            assert(base == if t.is_decision(n as int) {
                t.after_revert(n as int)
            } else {
                t
            });
            assert(base.live(n as int));
            assert(!base.is_decision(n as int));
            assert(partition_of(base.nodes[n as int].unwrap()) == partition_of(
                t.nodes[n as int].unwrap(),
            ));
            assert(self.attribute_sets() == sets);
            assert(self.storage@[n as int].unwrap().node.content_ok(self.space@));
        }
        let (l, r) = self.install(n, attribute, held, left, right);
        Ok((l, r))
    }

    /// Makes a node that is no decision one: appends the nodes of the two
    /// sides and puts the decision in the node's place.
    fn install(
        &mut self,
        n: usize,
        attribute: AttributeId,
        held: BifurcationFunction,
        left: BifurcationFunction,
        right: BifurcationFunction,
    ) -> (r: (BdtNodeId, BdtNodeId))
        requires
            old(self).wf(),
            old(self)@.live(n as int),
            !old(self)@.is_decision(n as int),
            attribute@ < old(self).attribute_sets().len(),
            held.wf(),
            left.wf(),
            right.wf(),
            held.within(old(self).encoding()),
            left.within(old(self).encoding()),
            right.within(old(self).encoding()),
            held.entries() == partition_of(old(self)@.nodes[n as int].unwrap()),
            left.entries() == restricted(
                held.entries(),
                old(self).attribute_sets()[attribute@].0,
            ),
            right.entries() == restricted(
                held.entries(),
                old(self).attribute_sets()[attribute@].1,
            ),
        ensures
            final(self).wf(),
            final(self).attribute_sets() == old(self).attribute_sets(),
            final(self).attribute_names() == old(self).attribute_names(),
            final(self).precision() == old(self).precision(),
            final(self).encoding() == old(self).encoding(),
            final(self)@ == old(self)@.after_decision(
                n as int,
                attribute@,
                left.entries(),
                right.entries(),
            ),
            r.0@ == old(self)@.nodes.len(),
            r.1@ == old(self)@.nodes.len() + 1,
    {
        let ghost base = self@;
        let ghost sets = self.attribute_sets();
        let ghost count = sets.len() as int;
        let ghost a = attribute@;
        let parent: Option<usize> = match &self.storage[n] {
            Some(slot) => slot.parent,
            None => None,
        };
        let ghost stored = self.storage@;
        let ghost left_entries = left.entries();
        let ghost right_entries = right.entries();
        let left_node = BdtNode::new(left);
        let right_node = BdtNode::new(right);
        let l: usize = self.storage.len();
        self.storage.push(Some(Slot { node: left_node, parent: Some(n) }));
        let r: usize = self.storage.len();
        self.storage.push(Some(Slot { node: right_node, parent: Some(n) }));
        self.storage.set(
            n,
            Some(
                Slot {
                    node: BdtNode::Decision {
                        attribute,
                        left: BdtNodeId(l),
                        right: BdtNodeId(r),
                        classes: held,
                    },
                    parent,
                },
            ),
        );
        proof {
            let u = base.after_decision(n as int, a, left_entries, right_entries);
            assert(self@.nodes =~= u.nodes);
            assert(self@.parents =~= u.parents);
            lemma_decision_structured(base, count, n as int, a, left_entries, right_entries);
            lemma_decision_splits(base, sets, n as int, a, left_entries, right_entries);
            assert(self.attribute_sets() =~= sets);
            assert forall|k: int| 0 <= k < self.storage@.len() implies match #[trigger] self.storage@[k] {
                Some(slot) => slot.node.content_ok(self.space@),
                None => true,
            } by {
                if k < l && k != n as int {
                    assert(self.storage@[k] == stored[k]);
                }
            }
        }
        (BdtNodeId(l), BdtNodeId(r))
    }
}

} // verus!
