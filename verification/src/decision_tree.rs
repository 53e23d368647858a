//! The decision tree as its users drive it: by plain numbers, with records
//! of what changed as answers.

use crate::bdt::AttributeId;
use crate::bdt::Bdt;
use crate::bdt::BdtNodeId;
use crate::bdt::decide::decided;
use crate::bdt::decide::DecisionError;
use crate::bdt::decide::divides;
use crate::bdt::decide::ids_beneath;
use crate::bdt::expand::ids_of;
use crate::bdt::expand::quiet;
use crate::bdt::expand::total;
use crate::bdt::expand::valid_scores;
use crate::bdt::gains::AttributeGainJson;
use crate::bdt::growth::differs;
use crate::bdt::growth::grown;
use crate::bdt::json::export;
use crate::bdt::json::NodeJson;
use crate::bdt::json::record;
use crate::bdt::json::record_views;
use crate::bdt::settle::settled;
use crate::bdt::view::lemma_nothing_beneath;
use crate::bifurcation::BifurcationFunction;
use crate::laws::lemma_none_beneath;
use vstd::prelude::*;

verus! {

/// A bifurcation decision tree behind an interface of plain numbers.
pub struct DecisionTree {
    inner: Bdt,
}

impl DecisionTree {
    /// The invariant of the type: the tree is well formed.
    pub closed spec fn wf(&self) -> bool {
        self.inner.wf()
    }

    /// The tree behind the interface.
    pub closed spec fn tree(&self) -> Bdt {
        self.inner
    }

    /// The interface to a tree.
    pub fn new(inner: Bdt) -> (r: DecisionTree)
        requires
            inner.wf(),
        ensures
            r.wf(),
            r.tree() == inner,
    {
        DecisionTree { inner }
    }

    /// The tree behind the interface.
    pub fn inner(&self) -> (r: &Bdt)
        ensures
            *r == self.tree(),
            self.wf() ==> r.wf(),
    {
        &self.inner
    }

    /// The records of all nodes that are shown at the precision of the tree.
    pub fn get_full_tree(&self) -> (r: Vec<NodeJson>)
        requires
            self.wf(),
        ensures
            record_views(r@) == export(
                self.tree()@,
                self.tree().attribute_names(),
                self.tree().precision(),
                Set::full(),
                self.tree()@.nodes.len() as int,
            ),
    {
        self.inner.to_json()
    }

    /// The attributes that can be applied at a node, ranked by the scores
    /// that the scoring function gives them; nothing where the number names
    /// no node.
    pub fn get_attributes<
        F: Fn(&BifurcationFunction, &BifurcationFunction, &BifurcationFunction) -> i64,
    >(&self, node_id: usize, scorer: &F) -> (r: Option<Vec<AttributeGainJson>>)
        requires
            self.wf(),
            total(scorer),
        ensures
            match r {
                Some(gains) => self.tree()@.live(node_id as int) && exists|
                    scores: Seq<Option<i64>>,
                | #[trigger]
                    valid_scores(
                        scorer,
                        self.tree()@,
                        self.tree().attribute_sets(),
                        node_id as int,
                        scores,
                    ) && self.tree().gains_of(node_id as int, scores, gains@),
                None => !self.tree()@.live(node_id as int),
            },
    {
        match BdtNodeId::try_from_index(node_id, &self.inner) {
            Some(id) => Some(self.inner.attribute_gains_json(id, scorer)),
            None => None,
        }
    }

    /// Splits a node by an attribute and gives the records of the node and
    /// of its two new children, in this order. Nothing changes where the
    /// split is refused.
    pub fn apply_attribute(&mut self, node_id: usize, attribute_id: usize) -> (r: Result<
        Vec<NodeJson>,
        DecisionError,
    >)
        requires
            old(self).wf(),
        ensures
            final(self).wf(),
            final(self).tree().attribute_sets() == old(self).tree().attribute_sets(),
            final(self).tree().attribute_names() == old(self).tree().attribute_names(),
            final(self).tree().precision() == old(self).tree().precision(),
            match r {
                Ok(records) => {
                    let before = old(self).tree();
                    let after = final(self).tree();
                    &&& before@.live(node_id as int)
                    &&& attribute_id < before.attribute_sets().len()
                    &&& divides(before@, before.attribute_sets(), node_id as int, attribute_id as int)
                    &&& after@ == decided(
                        before@,
                        before.attribute_sets(),
                        node_id as int,
                        attribute_id as int,
                    )
                    &&& record_views(records@) == seq![
                        record(after@, after.attribute_names(), after.precision(), node_id as int),
                        record(
                            after@,
                            after.attribute_names(),
                            after.precision(),
                            before@.nodes.len() as int,
                        ),
                        record(
                            after@,
                            after.attribute_names(),
                            after.precision(),
                            (before@.nodes.len() + 1) as int,
                        ),
                    ]
                },
                Err(DecisionError::InvalidNode) => !old(self).tree()@.live(node_id as int)
                    && final(self).tree()@ == old(self).tree()@,
                Err(DecisionError::InvalidAttribute) => old(self).tree()@.live(node_id as int)
                    && attribute_id >= old(self).tree().attribute_sets().len() && final(self).tree()@ == old(self).tree()@,
                Err(DecisionError::NoOpSplit) => old(self).tree()@.live(node_id as int)
                    && attribute_id < old(self).tree().attribute_sets().len() && !divides(
                    old(self).tree()@,
                    old(self).tree().attribute_sets(),
                    node_id as int,
                    attribute_id as int,
                ) && final(self).tree()@ == old(self).tree()@,
            },
    {
        let node = match BdtNodeId::try_from_index(node_id, &self.inner) {
            Some(id) => id,
            None => {
                return Err(DecisionError::InvalidNode);
            },
        };
        let attribute = match AttributeId::try_from_index(attribute_id, &self.inner) {
            Some(id) => id,
            None => {
                return Err(DecisionError::InvalidAttribute);
            },
        };
        let (left, right) = match self.inner.make_decision(node, attribute) {
            Ok(pair) => pair,
            Err(e) => {
                return Err(e);
            },
        };
        let mut ids: Vec<BdtNodeId> = Vec::new();
        ids.push(node);
        ids.push(left);
        ids.push(right);
        proof {
            let after = self.inner@;
            let len = old(self).inner@.nodes.len() as int;
            assert(after.nodes.len() == len + 2);
            assert(after.live(len));
            assert(after.live(len + 1));
            assert(after.live(node_id as int));
        }
        let records = self.inner.nodes_to_json(&ids);
        proof {
            let after = self.inner;
            assert(record_views(records@) =~= seq![
                record(after@, after.attribute_names(), after.precision(), node_id as int),
                record(
                    after@,
                    after.attribute_names(),
                    after.precision(),
                    old(self).inner@.nodes.len() as int,
                ),
                record(
                    after@,
                    after.attribute_names(),
                    after.precision(),
                    (old(self).inner@.nodes.len() + 1) as int,
                ),
            ]);
        }
        Ok(records)
    }

    /// Takes the decision at a node back and gives the record of the node
    /// and the removed ids in ascending order. A node that is no decision
    /// stays as it is, and its record comes with no removed id. The result
    /// is nothing, and nothing changes, where the number names no node.
    pub fn revert_decision(&mut self, node_id: usize) -> (r: Option<(NodeJson, Vec<usize>)>)
        requires
            old(self).wf(),
        ensures
            final(self).wf(),
            final(self).tree().attribute_sets() == old(self).tree().attribute_sets(),
            final(self).tree().attribute_names() == old(self).tree().attribute_names(),
            final(self).tree().precision() == old(self).tree().precision(),
            match r {
                Some((node, removed)) => {
                    let before = old(self).tree();
                    let after = final(self).tree();
                    &&& before@.live(node_id as int)
                    &&& after@ == if before@.is_decision(node_id as int) {
                        before@.after_revert(node_id as int)
                    } else {
                        before@
                    }
                    &&& node@ == record(
                        after@,
                        after.attribute_names(),
                        after.precision(),
                        node_id as int,
                    )
                    &&& Seq::new(removed@.len(), |k: int| removed@[k] as int) == ids_beneath(
                        before@,
                        node_id as int,
                        before@.nodes.len() as int,
                    )
                    &&& !before@.is_decision(node_id as int) ==> removed@.len() == 0
                },
                None => !old(self).tree()@.live(node_id as int) && final(self).tree()@ == old(
                    self,
                ).tree()@,
            },
    {
        let node = match BdtNodeId::try_from_index(node_id, &self.inner) {
            Some(id) => id,
            None => {
                return None;
            },
        };
        let ghost before = self.inner@;
        let mut numbers: Vec<usize> = Vec::new();
        match self.inner.revert_decision(node) {
            Some(removed) => {
                let mut k: usize = 0;
                while k < removed.len()
                    invariant
                        k <= removed@.len(),
                        numbers@.len() == k,
                        forall|i: int| 0 <= i < k ==> #[trigger] numbers@[i] as int == removed@[i]@,
                    decreases removed@.len() - k,
                {
                    numbers.push(removed[k].to_index());
                    k += 1;
                }
                proof {
                    assert(Seq::new(numbers@.len(), |k: int| numbers@[k] as int) =~= Seq::new(
                        removed@.len(),
                        |k: int| removed@[k]@,
                    ));
                }
            },
            None => {
                proof {
                    let count = self.inner.attributes@.len() as int;
                    assert forall|j: int| 0 <= j < before.nodes.len() implies !before.beneath(
                        j,
                        node_id as int,
                    ) by {
                        lemma_nothing_beneath(before, count, j, node_id as int);
                    }
                    lemma_none_beneath(before, node_id as int, before.nodes.len() as int);
                    assert(Seq::new(numbers@.len(), |k: int| numbers@[k] as int) =~= Seq::<
                        int,
                    >::empty());
                }
            },
        }
        match self.inner.node_to_json(node) {
            Some(json) => Some((json, numbers)),
            None => None,
        }
    }

    /// The stability data of the tree. The tree holds none, so there is
    /// nothing to give and nothing changes.
    pub fn get_stability_data(&self) {
    }

    /// Grows the tree at or below a node, at most `depth` levels and never
    /// more than 10, and gives the records of the changed nodes that are
    /// shown; nothing where the number names no node.
    pub fn auto_expand<
        F: Fn(&BifurcationFunction, &BifurcationFunction, &BifurcationFunction) -> i64,
    >(&mut self, node_id: usize, depth: u32, scorer: &F) -> (r: Option<Vec<NodeJson>>)
        requires
            old(self).wf(),
            total(scorer),
        ensures
            final(self).wf(),
            final(self).tree().attribute_sets() == old(self).tree().attribute_sets(),
            final(self).tree().attribute_names() == old(self).tree().attribute_names(),
            final(self).tree().precision() == old(self).tree().precision(),
            match r {
                Some(records) => {
                    let before = old(self).tree();
                    let after = final(self).tree();
                    &&& before@.live(node_id as int)
                    &&& grown(
                        before@,
                        after@,
                        node_id as int,
                        if depth > 10 {
                            10nat
                        } else {
                            depth as nat
                        },
                    )
                    &&& record_views(records@) == export(
                        after@,
                        after.attribute_names(),
                        after.precision(),
                        Set::new(|j: int| differs(before@, after@, j)),
                        after@.nodes.len() as int,
                    )
                    &&& settled(
                        scorer,
                        before@,
                        after@,
                        before.attribute_sets(),
                        node_id as int,
                        if depth > 10 {
                            10nat
                        } else {
                            depth as nat
                        },
                    )
                    &&& quiet(
                        scorer,
                        before@,
                        before.attribute_sets(),
                        node_id as int,
                        if depth > 10 {
                            10nat
                        } else {
                            depth as nat
                        },
                    ) ==> after@ == before@ && records@.len() == 0
                    &&& after@.nodes.len() + 2 <= before@.nodes.len()
                        + vstd::arithmetic::power2::pow2(
                        if depth > 10 {
                            11nat
                        } else {
                            (depth + 1) as nat
                        },
                    )
                },
                None => !old(self).tree()@.live(node_id as int) && final(self).tree()@ == old(self).tree()@,
            },
    {
        let node = match BdtNodeId::try_from_index(node_id, &self.inner) {
            Some(id) => id,
            None => {
                return None;
            },
        };
        let ghost before = self.inner@;
        let changed = self.inner.auto_expand(node, depth, scorer);
        proof {
            assert(ids_of(changed@).to_set() =~= Set::new(
                |j: int| differs(before, self.inner@, j),
            ));
        }
        let records = self.inner.to_json_partial(&changed);
        proof {
            if changed@.len() == 0 {
                crate::bdt::json::lemma_export_nothing(
                    self.inner@,
                    self.inner.attribute_names(),
                    self.inner.precision(),
                    ids_of(changed@).to_set(),
                    self.inner@.nodes.len() as int,
                );
                assert(record_views(records@).len() == 0);
            }
        }
        Some(records)
    }

    /// Sets the precision with which the tree is shown, in hundredths of a
    /// percent; a value above 10000 switches the collapsing of nodes off.
    pub fn apply_tree_precision(&mut self, precision: u32)
        ensures
            final(self).tree().precision() == if precision <= 10000 {
                Some(precision)
            } else {
                None
            },
            final(self).tree()@ == old(self).tree()@,
            final(self).tree().attribute_sets() == old(self).tree().attribute_sets(),
            final(self).tree().attribute_names() == old(self).tree().attribute_names(),
            final(self).wf() == old(self).wf(),
    {
        self.inner.set_precision(precision)
    }

    /// The precision with which the tree is shown, in hundredths of a
    /// percent; 10000 where none is set.
    pub fn get_tree_precision(&self) -> (r: u32)
        ensures
            r == match self.tree().precision() {
                Some(p) => p,
                None => 10000u32,
            },
    {
        self.inner.get_precision()
    }
}

} // verus!
