//! What growing leaves behind: within its depth every unprocessed node has
//! no attribute left that is worth applying, and every node that was split
//! was split by the best attribute.

use crate::bdt::AttributeSets;
use crate::bdt::decide::sides;
use crate::bdt::expand::candidate;
use crate::bdt::expand::is_best;
use crate::bdt::expand::none_positive;
use crate::bdt::expand::scored;
use crate::bdt::expand::used_above;
use crate::bdt::expand::valid_scores;
use crate::bdt::growth::carried;
use crate::bdt::growth::differs;
use crate::bdt::growth::extends;
use crate::bdt::growth::grown;
use crate::bdt::growth::kept_or_split;
use crate::bdt::growth::lemma_apart;
use crate::bdt::growth::lemma_below_child;
use crate::bdt::growth::lemma_depth_reach;
use crate::bdt::growth::lemma_depth_same;
use crate::bdt::growth::lemma_extends_parents;
use crate::bdt::growth::lemma_extends_twice;
use crate::bdt::growth::lemma_grown_extends;
use crate::bdt::growth::lemma_reaches_same;
use crate::bdt::growth::sprouted;
use crate::bdt::view::lemma_reaches_below;
use crate::bdt::view::partition_of;
use crate::bdt::view::TreeView;
use crate::bifurcation::BifurcationFunction;
use vstd::prelude::*;

verus! {

/// Whether a node lies at or below `n`, less than `d` levels deeper.
pub open spec fn within(t: TreeView, j: int, n: int, d: nat) -> bool {
    t.live(j) && t.reaches(j, n) && t.depth(j) < t.depth(n) + d
}

/// Whether nothing is worth applying at a node: with scores that the scoring
/// function can give there, none is positive.
pub open spec fn exhausted<
    F: Fn(&BifurcationFunction, &BifurcationFunction, &BifurcationFunction) -> i64,
>(scorer: &F, t: TreeView, sets: AttributeSets, j: int) -> bool {
    exists|scores: Seq<Option<i64>>| #[trigger]
        valid_scores(scorer, t, sets, j, scores) && none_positive(scores)
}

/// Whether a decision uses the best attribute: with scores that the scoring
/// function can give at its node, its attribute has the best one.
pub open spec fn well_chosen<
    F: Fn(&BifurcationFunction, &BifurcationFunction, &BifurcationFunction) -> i64,
>(scorer: &F, t: TreeView, sets: AttributeSets, j: int) -> bool {
    exists|scores: Seq<Option<i64>>| #[trigger]
        valid_scores(scorer, t, sets, j, scores) && is_best(scores, t.attribute_of(j))
}

/// What holds of one node of the new tree once the old tree was grown.
pub open spec fn settled_at<
    F: Fn(&BifurcationFunction, &BifurcationFunction, &BifurcationFunction) -> i64,
>(scorer: &F, o: TreeView, w: TreeView, sets: AttributeSets, j: int) -> bool {
    &&& w.nodes[j].unwrap() is Unprocessed ==> exhausted(scorer, w, sets, j)
    &&& differs(o, w, j) && w.is_decision(j) ==> well_chosen(scorer, w, sets, j)
}

/// The new tree is settled at or below `n` down to `d` levels: every node
/// there that is unprocessed has nothing left that is worth applying, and
/// every decision there that the old tree had not uses the best attribute.
pub open spec fn settled<
    F: Fn(&BifurcationFunction, &BifurcationFunction, &BifurcationFunction) -> i64,
>(scorer: &F, o: TreeView, w: TreeView, sets: AttributeSets, n: int, d: nat) -> bool {
    forall|j: int| #[trigger] within(w, j, n, d) ==> settled_at(scorer, o, w, sets, j)
}

/// In a tree that extends another, the decisions above a node of the old
/// tree use the attributes they used.
pub proof fn lemma_used_above_same(v: TreeView, w: TreeView, count: int, j: int, a: int)
    requires
        v.structured(count),
        extends(v, w),
        v.live(j),
    ensures
        used_above(w, j, a) == used_above(v, j, a),
    decreases j,
{
    assert(carried(v, w, j));
    let p = v.parent_of(j);
    assert(w.parent_of(j) == p);
    if j > 0 {
        assert(v.child_ok(j));
        assert(carried(v, w, p));
        lemma_used_above_same(v, w, count, p, a);
    } else {
        assert(v.parent_of(0) == -1);
    }
}

/// Scores that can be given at a node of a tree can be given at that node
/// in every tree that extends it.
pub proof fn lemma_scores_carry<
    F: Fn(&BifurcationFunction, &BifurcationFunction, &BifurcationFunction) -> i64,
>(scorer: &F, v: TreeView, w: TreeView, sets: AttributeSets, j: int, scores: Seq<Option<i64>>)
    requires
        v.structured(sets.len() as int),
        extends(v, w),
        v.live(j),
        valid_scores(scorer, v, sets, j, scores),
    ensures
        valid_scores(scorer, w, sets, j, scores),
{
    assert(carried(v, w, j));
    assert(partition_of(w.nodes[j].unwrap()) == partition_of(v.nodes[j].unwrap()));
    assert forall|a: int| 0 <= a < scores.len() implies match #[trigger] scores[a] {
        Some(s) => candidate(w, sets, j, a) && scored(scorer, w, sets, j, a, s),
        None => !candidate(w, sets, j, a),
    } by {
        lemma_used_above_same(v, w, sets.len() as int, j, a);
        assert(sides(w, sets, j, a) == sides(v, sets, j, a));
        match scores[a] {
            Some(s) => {
                assert(scored(scorer, v, sets, j, a, s));
                let (h, l, r) = choose|
                    h: &BifurcationFunction,
                    l: &BifurcationFunction,
                    r: &BifurcationFunction,
                |
                    h.entries() == partition_of(v.nodes[j].unwrap()) && l.entries() == sides(
                        v,
                        sets,
                        j,
                        a,
                    ).0 && r.entries() == sides(v, sets, j, a).1 && #[trigger] scorer.ensures(
                        (h, l, r),
                        s,
                    );
                assert(scorer.ensures((h, l, r), s));
            },
            None => {},
        }
    }
}

/// A node that has nothing left worth applying has nothing left in every
/// tree that extends its tree.
pub proof fn lemma_exhausted_carry<
    F: Fn(&BifurcationFunction, &BifurcationFunction, &BifurcationFunction) -> i64,
>(scorer: &F, v: TreeView, w: TreeView, sets: AttributeSets, j: int)
    requires
        v.structured(sets.len() as int),
        extends(v, w),
        v.live(j),
        exhausted(scorer, v, sets, j),
    ensures
        exhausted(scorer, w, sets, j),
{
    let scores = choose|scores: Seq<Option<i64>>| #[trigger]
        valid_scores(scorer, v, sets, j, scores) && none_positive(scores);
    lemma_scores_carry(scorer, v, w, sets, j, scores);
}

/// A decision that uses the best attribute uses it in every tree that
/// extends its tree.
pub proof fn lemma_well_chosen_carry<
    F: Fn(&BifurcationFunction, &BifurcationFunction, &BifurcationFunction) -> i64,
>(scorer: &F, v: TreeView, w: TreeView, sets: AttributeSets, j: int)
    requires
        v.structured(sets.len() as int),
        extends(v, w),
        v.is_decision(j),
        well_chosen(scorer, v, sets, j),
    ensures
        well_chosen(scorer, w, sets, j),
        w.attribute_of(j) == v.attribute_of(j),
{
    let scores = choose|scores: Seq<Option<i64>>| #[trigger]
        valid_scores(scorer, v, sets, j, scores) && is_best(scores, v.attribute_of(j));
    lemma_scores_carry(scorer, v, w, sets, j, scores);
    assert(carried(v, w, j));
}

/// Growing by no level settles the tree.
pub proof fn lemma_settled_flat<
    F: Fn(&BifurcationFunction, &BifurcationFunction, &BifurcationFunction) -> i64,
>(scorer: &F, o: TreeView, sets: AttributeSets, n: int)
    ensures
        settled(scorer, o, o, sets, n, 0),
{
    assert forall|j: int| #[trigger] within(o, j, n, 0) implies settled_at(scorer, o, o, sets, j) by {
        lemma_depth_reach(o, j, n);
    }
}

/// A tree is settled at a node that has nothing below it and is no
/// unprocessed node with something left to apply.
pub proof fn lemma_settled_stop<
    F: Fn(&BifurcationFunction, &BifurcationFunction, &BifurcationFunction) -> i64,
>(scorer: &F, o: TreeView, sets: AttributeSets, n: int, d: nat)
    requires
        o.structured(sets.len() as int),
        o.live(n),
        !o.is_decision(n),
        o.nodes[n].unwrap() is Unprocessed ==> exhausted(scorer, o, sets, n),
    ensures
        settled(scorer, o, o, sets, n, d),
{
    assert forall|j: int| #[trigger] within(o, j, n, d) implies settled_at(scorer, o, o, sets, j) by {
        crate::bdt::view::lemma_nothing_beneath(o, sets.len() as int, j, n);
    }
}

/// A node that hangs at or below the right child of a decision was not
/// changed when the tree grew at or below the left child.
proof fn lemma_right_untouched(v: TreeView, w: TreeView, x: TreeView, count: int, n: int, d: nat, j: int)
    requires
        x.structured(count),
        x.is_decision(n),
        grown(v, w, x.left_of(n), d),
        extends(w, x),
        j < w.nodes.len(),
        x.reaches(j, x.right_of(n)),
    ensures
        !differs(v, w, j),
{
    let l = x.left_of(n);
    if differs(v, w, j) {
        lemma_extends_parents(w, x, j);
        lemma_reaches_same(w, x, j, l);
        if j < v.nodes.len() {
            assert(kept_or_split(v, w, l, d, j));
            lemma_grown_parents_upto(v, w, l, d, j);
            lemma_reaches_same(v, w, j, l);
        } else {
            assert(sprouted(v, w, l, d, j));
        }
        assert(x.reaches(j, l));
        lemma_apart(x, count, j, n);
    }
}

/// In a grown tree the ids of the old tree have the parents they had.
proof fn lemma_grown_parents_upto(o: TreeView, w: TreeView, n: int, d: nat, j: int)
    requires
        grown(o, w, n, d),
        j < o.nodes.len(),
    ensures
        forall|k: int| 0 <= k <= j ==> #[trigger] w.parent_of(k) == o.parent_of(k),
{
    lemma_grown_extends(o, w, n, d);
    lemma_extends_parents(o, w, j);
}

/// A node that hangs at or below the left child of a decision and not below
/// the right one was there, and was not changed, when the tree grew at or
/// below the right child.
proof fn lemma_left_untouched(w: TreeView, x: TreeView, count: int, n: int, d: nat, j: int)
    requires
        x.structured(count),
        x.is_decision(n),
        grown(w, x, x.right_of(n), d),
        x.live(j),
        x.reaches(j, x.left_of(n)),
        !x.reaches(j, x.right_of(n)),
    ensures
        j < w.nodes.len(),
        x.nodes[j] == w.nodes[j],
        w.live(j),
        w.reaches(j, x.left_of(n)),
        w.depth(j) == x.depth(j),
        w.depth(x.left_of(n)) == x.depth(x.left_of(n)),
        !differs(w, x, j),
{
    let l = x.left_of(n);
    let r = x.right_of(n);
    if j >= w.nodes.len() {
        assert(sprouted(w, x, r, d, j));
    }
    lemma_reaches_below(x, j, l);
    lemma_grown_parents_upto(w, x, r, d, j);
    lemma_reaches_same(w, x, j, r);
    lemma_reaches_same(w, x, j, l);
    lemma_depth_same(w, x, j);
    lemma_depth_same(w, x, l);
    assert(kept_or_split(w, x, r, d, j));
}

/// One node of a tree that was grown below the two children of a decision,
/// one child after the other, is settled.
pub proof fn lemma_settled_below<
    F: Fn(&BifurcationFunction, &BifurcationFunction, &BifurcationFunction) -> i64,
>(
    scorer: &F,
    o: TreeView,
    v: TreeView,
    w: TreeView,
    x: TreeView,
    sets: AttributeSets,
    n: int,
    d: nat,
    j: int,
)
    requires
        d >= 1,
        v.structured(sets.len() as int),
        w.structured(sets.len() as int),
        x.structured(sets.len() as int),
        extends(o, v),
        v.is_decision(n),
        forall|k: int| differs(o, v, k) && v.is_decision(k) ==> k == n,
        differs(o, v, n) ==> well_chosen(scorer, v, sets, n),
        grown(v, w, v.left_of(n), (d - 1) as nat),
        settled(scorer, v, w, sets, v.left_of(n), (d - 1) as nat),
        grown(w, x, v.right_of(n), (d - 1) as nat),
        settled(scorer, w, x, sets, v.right_of(n), (d - 1) as nat),
        within(x, j, n, d),
    ensures
        settled_at(scorer, o, x, sets, j),
{
    let count = sets.len() as int;
    let l = v.left_of(n);
    let r = v.right_of(n);
    let less = (d - 1) as nat;
    lemma_grown_extends(v, w, l, less);
    lemma_grown_extends(w, x, r, less);
    lemma_extends_twice(v, w, x);
    lemma_extends_twice(o, v, w);
    lemma_extends_twice(o, w, x);
    assert(x.nodes[n] == v.nodes[n] && w.nodes[n] == v.nodes[n]) by {
        assert(carried(v, w, n));
        assert(carried(w, x, n));
    }
    assert(x.is_decision(n));
    assert(x.left_of(n) == l && x.right_of(n) == r);
    if j == n {
        if differs(o, x, n) {
            assert(differs(o, v, n));
            lemma_well_chosen_carry(scorer, v, x, sets, n);
        }
        assert(settled_at(scorer, o, x, sets, j));
    } else {
        lemma_below_child(x, count, j, n);
        assert(x.decision_ok(n, count));
        assert(x.depth(l) == x.depth(n) + 1);
        assert(x.depth(r) == x.depth(n) + 1);
        if x.reaches(j, r) {
            assert(within(x, j, r, less));
            assert(settled_at(scorer, w, x, sets, j));
            if differs(o, x, j) && x.is_decision(j) && !differs(w, x, j) {
                assert(j < w.nodes.len());
                assert(x.nodes[j] == w.nodes[j]);
                lemma_right_untouched(v, w, x, count, n, less, j);
                assert(w.nodes[j] == v.nodes[j]);
                assert(differs(o, v, j));
                assert(v.is_decision(j));
                assert(false);
            }
            assert(settled_at(scorer, o, x, sets, j));
        } else {
            lemma_left_untouched(w, x, count, n, less, j);
            assert(within(w, j, l, less));
            assert(settled_at(scorer, v, w, sets, j));
            if w.nodes[j].unwrap() is Unprocessed {
                lemma_exhausted_carry(scorer, w, x, sets, j);
            }
            if differs(o, x, j) && x.is_decision(j) {
                assert(differs(o, w, j));
                if differs(v, w, j) {
                    assert(w.is_decision(j));
                    lemma_well_chosen_carry(scorer, w, x, sets, j);
                } else {
                    assert(w.nodes[j] == v.nodes[j]);
                    assert(differs(o, v, j));
                    assert(v.is_decision(j));
                    assert(false);
                }
            }
            assert(settled_at(scorer, o, x, sets, j));
        }
    }
}

/// Whether the score that a scoring function gives depends on nothing but
/// the classes and colours that it is handed.
pub open spec fn regular<
    F: Fn(&BifurcationFunction, &BifurcationFunction, &BifurcationFunction) -> i64,
>(scorer: &F) -> bool {
    forall|
        h: &BifurcationFunction,
        l: &BifurcationFunction,
        r: &BifurcationFunction,
        s: i64,
        h2: &BifurcationFunction,
        l2: &BifurcationFunction,
        r2: &BifurcationFunction,
        s2: i64,
    |
        h.entries() == h2.entries() && l.entries() == l2.entries() && r.entries() == r2.entries()
            && #[trigger] scorer.ensures((h, l, r), s) && #[trigger] scorer.ensures(
            (h2, l2, r2),
            s2,
        ) ==> s == s2
}

/// Growing again changes nothing: in a tree that is settled at or below a
/// node down to some depth, a regular scoring function has nothing left to
/// split there down to that depth, so that growing at the node by that depth
/// leaves the tree as it is.
pub proof fn law_settled_is_quiet<
    F: Fn(&BifurcationFunction, &BifurcationFunction, &BifurcationFunction) -> i64,
>(scorer: &F, o: TreeView, w: TreeView, sets: AttributeSets, n: int, d: nat)
    requires
        regular(scorer),
        settled(scorer, o, w, sets, n, d),
    ensures
        crate::bdt::expand::quiet(scorer, w, sets, n, d),
{
    assert forall|j: int, a: int, s: i64|
        within(w, j, n, d) && w.nodes[j].unwrap() is Unprocessed && candidate(w, sets, j, a)
            && #[trigger] scored(scorer, w, sets, j, a, s) implies s <= 0 by {
        assert(settled_at(scorer, o, w, sets, j));
        let scores = choose|scores: Seq<Option<i64>>| #[trigger]
            valid_scores(scorer, w, sets, j, scores) && none_positive(scores);
        assert(scores[a] is Some);
        let given = scores[a].unwrap();
        assert(scored(scorer, w, sets, j, a, given));
        let (h, l, r) = choose|
            h: &BifurcationFunction,
            l: &BifurcationFunction,
            r: &BifurcationFunction,
        |
            h.entries() == partition_of(w.nodes[j].unwrap()) && l.entries() == sides(
                w,
                sets,
                j,
                a,
            ).0 && r.entries() == sides(w, sets, j, a).1 && #[trigger] scorer.ensures(
                (h, l, r),
                s,
            );
        let (h2, l2, r2) = choose|
            h: &BifurcationFunction,
            l: &BifurcationFunction,
            r: &BifurcationFunction,
        |
            h.entries() == partition_of(w.nodes[j].unwrap()) && l.entries() == sides(
                w,
                sets,
                j,
                a,
            ).0 && r.entries() == sides(w, sets, j, a).1 && #[trigger] scorer.ensures(
                (h, l, r),
                given,
            );
        assert(scorer.ensures((h, l, r), s));
        assert(scorer.ensures((h2, l2, r2), given));
    }
}

} // verus!
