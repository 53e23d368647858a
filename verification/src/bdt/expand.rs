//! Growing the tree by itself: at each unprocessed node the attribute with
//! the best score is applied, down to a given depth.

use crate::bdt::AttributeId;
use crate::bdt::AttributeSets;
use crate::bdt::Bdt;
use crate::bdt::BdtNode;
use crate::bdt::BdtNodeId;
use crate::bdt::decide::divides;
use crate::bdt::decide::sides;
use crate::bdt::growth::differs;
use crate::bdt::growth::extends;
use crate::bdt::growth::grown;
use crate::bdt::growth::lemma_extends_twice;
use crate::bdt::growth::lemma_grown_child;
use crate::bdt::growth::lemma_grown_extends;
use crate::bdt::growth::lemma_grown_parents;
use crate::bdt::growth::lemma_grown_same;
use crate::bdt::growth::lemma_grown_split;
use crate::bdt::growth::lemma_grown_twice;
use crate::bdt::growth::lemma_push_contains;
use crate::bdt::settle::exhausted;
use crate::bdt::settle::lemma_scores_carry;
use crate::bdt::settle::lemma_settled_below;
use crate::bdt::settle::lemma_settled_flat;
use crate::bdt::settle::lemma_settled_stop;
use crate::bdt::settle::settled;
use crate::bdt::settle::settled_at;
use crate::bdt::settle::well_chosen;
use crate::bdt::settle::within;
use crate::bdt::view::partition_of;
use crate::bdt::view::TreeView;
use crate::bifurcation::BifurcationFunction;
use vstd::prelude::*;

verus! {

/// Whether a decision above a node uses an attribute.
pub open spec fn used_above(t: TreeView, n: int, a: int) -> bool
    decreases n,
{
    let p = t.parent_of(n);
    0 <= p < n && (t.attribute_of(p) == a || used_above(t, p, a))
}

/// Whether an attribute can be applied at a node: no decision above the
/// node uses it, and it divides the colours of the node.
pub open spec fn candidate(t: TreeView, sets: AttributeSets, n: int, a: int) -> bool {
    0 <= a < sets.len() && !used_above(t, n, a) && divides(t, sets, n, a)
}

/// Whether `a` has the best score: a positive one, above all scores before
/// it and not below any after it.
pub open spec fn is_best(scores: Seq<Option<i64>>, a: int) -> bool {
    &&& 0 <= a < scores.len()
    &&& scores[a] is Some
    &&& scores[a].unwrap() > 0
    &&& forall|b: int|
        0 <= b < scores.len() && (#[trigger] scores[b]) is Some ==> scores[b].unwrap()
            < scores[a].unwrap() || (scores[b].unwrap() == scores[a].unwrap() && a <= b)
}

/// Whether no score is positive.
pub open spec fn none_positive(scores: Seq<Option<i64>>) -> bool {
    forall|b: int| 0 <= b < scores.len() && (#[trigger] scores[b]) is Some ==> scores[b].unwrap() <= 0
}

/// The attribute with the highest score among those that have a positive
/// one; of several with that score the one with the smallest id.
pub fn choose_attribute(scores: &Vec<Option<i64>>) -> (r: Option<usize>)
    ensures
        match r {
            Some(a) => is_best(scores@, a as int),
            None => none_positive(scores@),
        },
{
    let mut best: Option<usize> = None;
    let mut top: i64 = 0;
    let mut b: usize = 0;
    while b < scores.len()
        invariant
            b <= scores.len(),
            top >= 0,
            match best {
                Some(a) => a < b && scores@[a as int] == Some(top) && top > 0,
                None => top == 0,
            },
            forall|k: int|
                0 <= k < b && (#[trigger] scores@[k]) is Some ==> scores@[k].unwrap() < top || (
                scores@[k].unwrap() == top && best is Some && best.unwrap() <= k) || (scores@[k].unwrap()
                    <= 0 && best is None),
        decreases scores.len() - b,
    {
        match scores[b] {
            Some(s) => {
                if s > top {
                    best = Some(b);
                    top = s;
                }
            },
            None => {},
        }
        b += 1;
    }
    best
}

/// Whether a scoring function takes every argument.
pub open spec fn total<F: Fn(&BifurcationFunction, &BifurcationFunction, &BifurcationFunction) -> i64>(
    scorer: &F,
) -> bool {
    forall|h: &BifurcationFunction, l: &BifurcationFunction, r: &BifurcationFunction| #[trigger]
        scorer.requires((h, l, r))
}

/// Whether a score is one that the scoring function can give for a node
/// and the two sides of an attribute.
pub open spec fn scored<F: Fn(&BifurcationFunction, &BifurcationFunction, &BifurcationFunction) -> i64>(
    scorer: &F,
    t: TreeView,
    sets: AttributeSets,
    n: int,
    a: int,
    s: i64,
) -> bool {
    exists|h: &BifurcationFunction, l: &BifurcationFunction, r: &BifurcationFunction|
        h.entries() == partition_of(t.nodes[n].unwrap()) && l.entries() == sides(t, sets, n, a).0
            && r.entries() == sides(t, sets, n, a).1 && #[trigger] scorer.ensures((h, l, r), s)
}

/// Whether nothing is left to split at or below a node down to `d` levels:
/// at no unprocessed node there can the scoring function give a positive
/// score to an attribute that can be applied.
pub open spec fn quiet<
    F: Fn(&BifurcationFunction, &BifurcationFunction, &BifurcationFunction) -> i64,
>(scorer: &F, t: TreeView, sets: AttributeSets, n: int, d: nat) -> bool {
    forall|j: int, a: int, s: i64|
        within(t, j, n, d) && t.nodes[j].unwrap() is Unprocessed && candidate(t, sets, j, a)
            && #[trigger] scored(scorer, t, sets, j, a, s) ==> s <= 0
}

/// The most nodes that growing by `d` levels can make: two at each node
/// that it splits, level by level.
pub open spec fn node_bound(d: nat) -> nat
    decreases d,
{
    if d == 0 {
        0
    } else {
        2 + 2 * node_bound((d - 1) as nat)
    }
}

/// The most nodes that growing by `d` levels can make is 2^(d+1) - 2.
pub proof fn lemma_node_bound(d: nat)
    ensures
        node_bound(d) + 2 == vstd::arithmetic::power2::pow2(d + 1),
    decreases d,
{
    vstd::arithmetic::power2::lemma_pow2_unfold(d + 1);
    if d == 0 {
        vstd::arithmetic::power2::lemma2_to64();
    } else {
        lemma_node_bound((d - 1) as nat);
    }
}

/// Whether the scores are ones that the scoring function can give at a
/// node: one for each attribute that can be applied there, none for the others.
pub open spec fn valid_scores<
    F: Fn(&BifurcationFunction, &BifurcationFunction, &BifurcationFunction) -> i64,
>(scorer: &F, t: TreeView, sets: AttributeSets, n: int, scores: Seq<Option<i64>>) -> bool {
    &&& scores.len() == sets.len()
    &&& forall|a: int|
        0 <= a < scores.len() ==> match #[trigger] scores[a] {
            Some(s) => candidate(t, sets, n, a) && scored(scorer, t, sets, n, a, s),
            None => !candidate(t, sets, n, a),
        }
}

/// The ids of a list of nodes.
pub open spec fn ids_of(list: Seq<BdtNodeId>) -> Seq<int> {
    Seq::new(list.len(), |k: int| list[k]@)
}

impl Bdt {
    /// For each attribute whether a decision above the node uses it.
    pub fn attributes_above(&self, node: BdtNodeId) -> (r: Vec<bool>)
        requires
            self.wf(),
        ensures
            r@.len() == self.attribute_sets().len(),
            forall|a: int| 0 <= a < r@.len() ==> #[trigger] r@[a] == used_above(self@, node@, a),
    {
        let ghost t = self@;
        let mut used: Vec<bool> = Vec::new();
        let mut a: usize = 0;
        while a < self.attributes.len()
            invariant
                a <= self.attributes@.len(),
                used@.len() == a,
                forall|k: int| 0 <= k < a ==> #[trigger] used@[k] == false,
            decreases self.attributes@.len() - a,
        {
            used.push(false);
            a += 1;
        }
        let mut current: usize = node.0;
        loop
            invariant_except_break
                self.wf(),
                t == self@,
                used@.len() == self.attributes@.len(),
                forall|a: int|
                    0 <= a < used@.len() ==> (used_above(t, node@, a) <==> #[trigger] used@[a]
                        || used_above(t, current as int, a)),
            ensures
                used@.len() == self.attributes@.len(),
                forall|a: int| 0 <= a < used@.len() ==> #[trigger] used@[a] == used_above(t, node@, a),
            decreases current,
        {
            if current >= self.storage.len() {
                break ;
            }
            let parent: Option<usize> = match &self.storage[current] {
                Some(slot) => slot.parent,
                None => None,
            };
            match parent {
                Some(p) => {
                    if p >= current || p >= self.storage.len() {
                        proof {
                            assert(t.live(current as int));
                            if current > 0 {
                                assert(t.child_ok(current as int));
                            }
                        }
                        break ;
                    }
                    let ghost before = used@;
                    proof {
                        assert(t.live(current as int));
                        assert(t.child_ok(current as int));
                        assert(t.parent_of(current as int) == p);
                        assert(t.is_decision(p as int));
                        assert(t.decision_ok(p as int, self.attributes@.len() as int));
                        assert forall|a: int| 0 <= a < before.len() implies (used_above(
                            t,
                            node@,
                            a,
                        ) <==> #[trigger] before[a] || used_above(t, current as int, a)) by {}
                    }
                    match &self.storage[p] {
                        Some(slot) => match &slot.node {
                            BdtNode::Decision { attribute, .. } => {
                                let index: usize = attribute.0;
                                if index < used.len() {
                                    used.set(index, true);
                                }
                                proof {
                                    assert(index == t.attribute_of(p as int));
                                }
                            },
                            _ => {},
                        },
                        None => {},
                    }
                    proof {
                        let chosen = t.attribute_of(p as int);
                        assert(0 <= chosen < used@.len());
                        assert forall|a: int| 0 <= a < used@.len() implies (used_above(
                            t,
                            node@,
                            a,
                        ) <==> #[trigger] used@[a] || used_above(t, p as int, a)) by {
                            assert(used@[a] == (before[a] || a == chosen));
                            assert(used_above(t, current as int, a) == (chosen == a || used_above(
                                t,
                                p as int,
                                a,
                            )));
                            assert(used_above(t, node@, a) <==> before[a] || used_above(
                                t,
                                current as int,
                                a,
                            ));
                        }
                    }
                    current = p;
                },
                None => {
                    break ;
                },
            }
        }
        used
    }

    /// The score of each attribute at a node: nothing for an attribute that
    /// cannot be applied there, else what the scoring function gives for the
    /// classes of the node and of the two sides.
    pub fn score_attributes<
        F: Fn(&BifurcationFunction, &BifurcationFunction, &BifurcationFunction) -> i64,
    >(&self, node: BdtNodeId, scorer: &F) -> (r: Vec<Option<i64>>)
        requires
            self.wf(),
            self@.live(node@),
            total(scorer),
        ensures
            valid_scores(scorer, self@, self.attribute_sets(), node@, r@),
    {
        let ghost t = self@;
        let ghost sets = self.attribute_sets();
        let n: usize = node.0;
        let used = self.attributes_above(node);
        let held: BifurcationFunction = match &self.storage[n] {
            Some(slot) => slot.node.classes(),
            None => BifurcationFunction::new(),
        };
        proof {
            assert(self.storage@[n as int].unwrap().node.content_ok(self.space@));
        }
        let mut scores: Vec<Option<i64>> = Vec::new();
        let mut a: usize = 0;
        while a < self.attributes.len()
            invariant
                a <= self.attributes@.len(),
                self.wf(),
                t == self@,
                sets == self.attribute_sets(),
                t.live(n as int),
                n == node@,
                total(scorer),
                held.wf(),
                held.within(self.space@),
                held.entries() == partition_of(t.nodes[n as int].unwrap()),
                used@.len() == self.attributes@.len(),
                forall|k: int| 0 <= k < used@.len() ==> #[trigger] used@[k] == used_above(t, n as int, k),
                scores@.len() == a,
                forall|k: int|
                    0 <= k < a ==> match #[trigger] scores@[k] {
                        Some(s) => candidate(t, sets, n as int, k) && scored(
                            scorer,
                            t,
                            sets,
                            n as int,
                            k,
                            s,
                        ),
                        None => !candidate(t, sets, n as int, k),
                    },
            decreases self.attributes@.len() - a,
        {
            let mut score: Option<i64> = None;
            if !used[a] {
                proof {
                    assert(self.attributes@[a as int].wf());
                    assert(sets[a as int] == (
                        self.attributes@[a as int].positive(),
                        self.attributes@[a as int].negative(),
                    ));
                }
                let (left, right) = self.attributes[a].split(&held);
                if !left.is_empty() && !right.is_empty() {
                    let s: i64 = scorer(&held, &left, &right);
                    proof {
                        assert(scorer.ensures((&held, &left, &right), s));
                        assert(scored(scorer, t, sets, n as int, a as int, s));
                    }
                    score = Some(s);
                }
            }
            scores.push(score);
            a += 1;
        }
        proof {
            assert(scores@.len() == sets.len());
        }
        scores
    }

    /// Adds an id to the list of changed ids.
    fn note(changed: &mut Vec<BdtNodeId>, id: usize)
        ensures
            ids_of(final(changed)@) == ids_of(old(changed)@).push(id as int),
    {
        changed.push(BdtNodeId(id));
        proof {
            assert(ids_of(changed@) =~= ids_of(old(changed)@).push(id as int));
        }
    }

    /// Grows the tree at or below a node by at most `depth` levels, and adds
    /// to `changed` every id that now names something else than in `origin`.
    fn expand<F: Fn(&BifurcationFunction, &BifurcationFunction, &BifurcationFunction) -> i64>(
        &mut self,
        changed: &mut Vec<BdtNodeId>,
        n: usize,
        depth: u32,
        scorer: &F,
        origin: Ghost<TreeView>,
    )
        requires
            old(self).wf(),
            old(self)@.live(n as int),
            total(scorer),
            extends(origin@, old(self)@),
            ids_of(old(changed)@).no_duplicates(),
            forall|j: int|
                ids_of(old(changed)@).contains(j) <==> differs(origin@, old(self)@, j),
        ensures
            final(self).wf(),
            final(self).attribute_sets() == old(self).attribute_sets(),
            final(self).attribute_names() == old(self).attribute_names(),
            final(self).precision() == old(self).precision(),
            final(self).encoding() == old(self).encoding(),
            grown(old(self)@, final(self)@, n as int, depth as nat),
            extends(origin@, final(self)@),
            ids_of(final(changed)@).no_duplicates(),
            forall|j: int|
                ids_of(final(changed)@).contains(j) <==> differs(origin@, final(self)@, j),
            quiet(scorer, old(self)@, old(self).attribute_sets(), n as int, depth as nat)
                ==> final(self)@ == old(self)@ && final(changed)@ == old(changed)@,
            final(self)@.nodes.len() <= old(self)@.nodes.len() + node_bound(depth as nat),
            settled(
                scorer,
                old(self)@,
                final(self)@,
                old(self).attribute_sets(),
                n as int,
                depth as nat,
            ),
        decreases depth,
    {
        let ghost o = self@;
        let ghost sets = self.attribute_sets();
        let ghost count = self.attributes@.len() as int;
        proof {
            lemma_grown_same(o, n as int, depth as nat);
            assert(o.structured(count));
            assert(sets.len() == count);
        }
        if depth == 0 {
            proof {
                lemma_settled_flat(scorer, o, sets, n as int);
            }
            return ;
        }
        let kind: u8 = match &self.storage[n] {
            Some(slot) => match &slot.node {
                BdtNode::Leaf { .. } => 0,
                BdtNode::Decision { .. } => 1,
                BdtNode::Unprocessed { .. } => 2,
            },
            None => 0,
        };
        if kind == 0 {
            proof {
                lemma_settled_stop(scorer, o, sets, n as int, depth as nat);
            }
            return ;
        }
        let left: usize;
        let right: usize;
        if kind == 1 {
            let pair: (usize, usize) = match &self.storage[n] {
                Some(slot) => match &slot.node {
                    BdtNode::Decision { left, right, .. } => (left.0, right.0),
                    _ => (0, 0),
                },
                None => (0, 0),
            };
            left = pair.0;
            right = pair.1;
            proof {
                assert(o.is_decision(n as int));
                assert(o.decision_ok(n as int, count));
                assert(left == o.left_of(n as int));
                assert(right == o.right_of(n as int));
            }
        } else {
            let scores = self.score_attributes(BdtNodeId(n), scorer);
            let best = choose_attribute(&scores);
            let a: usize = match best {
                Some(a) => a,
                None => {
                    proof {
                        assert(valid_scores(scorer, o, sets, n as int, scores@));
                        assert(exhausted(scorer, o, sets, n as int));
                        lemma_settled_stop(scorer, o, sets, n as int, depth as nat);
                    }
                    return ;
                },
            };
            proof {
                assert(is_best(scores@, a as int));
                assert(candidate(o, sets, n as int, a as int));
                assert(scored(scorer, o, sets, n as int, a as int, scores@[a as int].unwrap()));
                assert(o.reaches(n as int, n as int));
                assert(within(o, n as int, n as int, depth as nat));
                assert(!quiet(scorer, o, sets, n as int, depth as nat));
            }
            let made = self.make_decision(BdtNodeId(n), AttributeId(a));
            let (l, r) = match made {
                Ok(pair) => pair,
                Err(_) => {
                    return ;
                },
            };
            left = l.0;
            right = r.0;
            let ghost v = self@;
            proof {
                assert(!o.is_decision(n as int));
                assert(v == o.after_decision(
                    n as int,
                    a as int,
                    sides(o, sets, n as int, a as int).0,
                    sides(o, sets, n as int, a as int).1,
                ));
                lemma_grown_split(
                    o,
                    n as int,
                    a as int,
                    sides(o, sets, n as int, a as int).0,
                    sides(o, sets, n as int, a as int).1,
                    depth as nat,
                );
                lemma_grown_extends(o, v, n as int, depth as nat);
                lemma_extends_twice(origin@, o, v);
                lemma_scores_carry(scorer, o, v, sets, n as int, scores@);
                assert(v.attribute_of(n as int) == a);
                assert(well_chosen(scorer, v, sets, n as int));
                assert(!v.is_decision(o.nodes.len() as int));
                assert(!v.is_decision((o.nodes.len() + 1) as int));
            }
            let ghost listed = ids_of(changed@);
            proof {
                assert(!differs(origin@, o, left as int));
                assert(!differs(origin@, o, right as int));
            }
            let was_there: bool = Self::listed(changed, n);
            if !was_there {
                Self::note(changed, n);
                proof {
                    lemma_push_contains(listed, n as int);
                }
            }
            let ghost listed_n = ids_of(changed@);
            Self::note(changed, left);
            proof {
                lemma_push_contains(listed_n, left as int);
            }
            let ghost listed_l = ids_of(changed@);
            Self::note(changed, right);
            proof {
                lemma_push_contains(listed_l, right as int);
                assert forall|j: int| ids_of(changed@).contains(j) <==> differs(origin@, v, j) by {
                    assert(listed.contains(j) <==> differs(origin@, o, j));
                }
            }
        }
        let ghost v = self@;
        proof {
            assert(grown(o, v, n as int, depth as nat));
            assert(v.structured(count));
            lemma_grown_extends(o, v, n as int, depth as nat);
            assert(v.is_decision(n as int));
            assert(left == v.left_of(n as int) && right == v.right_of(n as int));
            assert(differs(o, v, n as int) ==> well_chosen(scorer, v, sets, n as int));
            assert forall|k: int| differs(o, v, k) && v.is_decision(k) implies k == n as int by {
                if kind == 1 {
                    assert(v == o);
                }
            }
            assert(v.live(left as int));
            assert(v.live(right as int));
            assert(v.parent_of(left as int) == n);
            assert(v.parent_of(right as int) == n);
        }
        let ghost changed_v = changed@;
        self.expand(changed, left, depth - 1, scorer, origin);
        let ghost w = self@;
        proof {
            assert(w.structured(count));
            assert(crate::bdt::growth::kept_or_split(
                v,
                w,
                left as int,
                (depth - 1) as nat,
                right as int,
            ));
            lemma_grown_child(v, w, n as int, left as int, depth as nat);
            lemma_grown_parents(v, w, n as int, depth as nat, right as int);
            assert(w.parent_of(right as int) == n);
        }
        let ghost changed_w = changed@;
        self.expand(changed, right, depth - 1, scorer, origin);
        proof {
            let x = self@;
            assert(x.structured(count));
            assert forall|j: int| #[trigger] within(x, j, n as int, depth as nat) implies settled_at(
                scorer,
                o,
                x,
                sets,
                j,
            ) by {
                lemma_settled_below(scorer, o, v, w, x, sets, n as int, depth as nat, j);
            }
            lemma_grown_child(w, x, n as int, right as int, depth as nat);
            lemma_grown_twice(v, w, x, n as int, depth as nat);
            lemma_grown_twice(o, v, x, n as int, depth as nat);
            if quiet(scorer, o, sets, n as int, depth as nat) {
                let less = (depth - 1) as nat;
                assert(v == o);
                assert(o.depth(left as int) == o.depth(n as int) + 1);
                assert(o.depth(right as int) == o.depth(n as int) + 1);
                assert(quiet(scorer, o, sets, left as int, less)) by {
                    assert forall|j: int| within(o, j, left as int, less) implies within(
                        o,
                        j,
                        n as int,
                        depth as nat,
                    ) by {
                        crate::bdt::growth::lemma_reaches_parent(o, j, left as int, n as int);
                    }
                }
                assert(w == v);
                assert(quiet(scorer, o, sets, right as int, less)) by {
                    assert forall|j: int| within(o, j, right as int, less) implies within(
                        o,
                        j,
                        n as int,
                        depth as nat,
                    ) by {
                        crate::bdt::growth::lemma_reaches_parent(o, j, right as int, n as int);
                    }
                }
                assert(x == w);
                assert(changed_v == old(changed)@);
            }
            assert(v.nodes.len() <= o.nodes.len() + 2);
            assert(x.nodes.len() <= o.nodes.len() + node_bound(depth as nat));
        }
    }

    /// Whether an id is in the list.
    pub(crate) fn listed(changed: &Vec<BdtNodeId>, id: usize) -> (r: bool)
        ensures
            r == ids_of(changed@).contains(id as int),
    {
        let mut k: usize = 0;
        while k < changed.len()
            invariant
                k <= changed@.len(),
                forall|i: int| 0 <= i < k ==> ids_of(changed@)[i] != id,
            decreases changed@.len() - k,
        {
            if changed[k].0 == id {
                proof {
                    assert(ids_of(changed@)[k as int] == id);
                }
                return true;
            }
            k += 1;
        }
        false
    }

    /// Grows the tree at or below a node, at most `depth` levels and never
    /// more than 10: a leaf stays; a decision stays and its two children are
    /// grown one level less; an unprocessed node is split by the candidate
    /// with the best positive score and its children are grown one level
    /// less, or stays where no candidate has a positive score. At most
    /// 2^(d+1) - 2 nodes are made, where `d` is the smaller of `depth` and 10.
    /// The result lists each id that names a new node or a node that was
    /// split, once.
    pub fn auto_expand<
        F: Fn(&BifurcationFunction, &BifurcationFunction, &BifurcationFunction) -> i64,
    >(&mut self, node: BdtNodeId, depth: u32, scorer: &F) -> (changed: Vec<BdtNodeId>)
        requires
            old(self).wf(),
            total(scorer),
        ensures
            final(self).wf(),
            final(self).attribute_sets() == old(self).attribute_sets(),
            final(self).attribute_names() == old(self).attribute_names(),
            final(self).precision() == old(self).precision(),
            if old(self)@.live(node@) {
                grown(
                    old(self)@,
                    final(self)@,
                    node@,
                    if depth > 10 {
                        10nat
                    } else {
                        depth as nat
                    },
                )
            } else {
                final(self)@ == old(self)@
            },
            ids_of(changed@).no_duplicates(),
            forall|j: int| ids_of(changed@).contains(j) <==> differs(old(self)@, final(self)@, j),
            old(self)@.live(node@) && quiet(
                scorer,
                old(self)@,
                old(self).attribute_sets(),
                node@,
                if depth > 10 {
                    10nat
                } else {
                    depth as nat
                },
            ) ==> final(self)@ == old(self)@ && changed@.len() == 0,
            final(self)@.nodes.len() + 2 <= old(self)@.nodes.len() + vstd::arithmetic::power2::pow2(
                if depth > 10 {
                    11nat
                } else {
                    (depth + 1) as nat
                },
            ),
            old(self)@.live(node@) ==> settled(
                scorer,
                old(self)@,
                final(self)@,
                old(self).attribute_sets(),
                node@,
                if depth > 10 {
                    10nat
                } else {
                    depth as nat
                },
            ),
    {
        let mut changed: Vec<BdtNodeId> = Vec::new();
        let limit: u32 = if depth > 10 {
            10
        } else {
            depth
        };
        let ghost o = self@;
        proof {
            assert(o.structured(self.attributes@.len() as int));
            assert forall|j: int| !ids_of(changed@).contains(j) by {}
            assert(extends(o, o));
        }
        proof {
            lemma_node_bound(limit as nat);
        }
        if self.contains(node) {
            self.expand(&mut changed, node.0, limit, scorer, Ghost(o));
        }
        changed
    }
}

} // verus!
