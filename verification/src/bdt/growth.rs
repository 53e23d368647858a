//! How a tree grows when nodes are split without taking anything back: what
//! may change, where, and how deep.

use crate::bdt::view::lemma_reaches_below;
use crate::bdt::view::partition_of;
use crate::bdt::view::TreeView;
use crate::bifurcation::Entries;
use vstd::prelude::*;

verus! {

/// One id of the old tree in the new one: it has the parent it had, and its
/// node is as it was unless it was unprocessed, hangs at or below `n` less
/// than `d` levels deep, and is now a decision that keeps its classes.
pub open spec fn kept_or_split(o: TreeView, w: TreeView, n: int, d: nat, j: int) -> bool {
    &&& w.parents[j] == o.parents[j]
    &&& w.nodes[j] == o.nodes[j] || {
        &&& o.reaches(j, n)
        &&& o.depth(j) < o.depth(n) + d
        &&& o.live(j)
        &&& o.nodes[j].unwrap() is Unprocessed
        &&& w.is_decision(j)
        &&& partition_of(w.nodes[j].unwrap()) == partition_of(o.nodes[j].unwrap())
    }
}

/// One id that the new tree has and the old one had not: it names a node at
/// or below `n`, at most `d` levels below it.
pub open spec fn sprouted(o: TreeView, w: TreeView, n: int, d: nat, j: int) -> bool {
    w.live(j) && w.reaches(j, n) && w.depth(j) <= o.depth(n) + d
}

/// The new tree is the old one grown at or below `n` by at most `d` levels.
pub open spec fn grown(o: TreeView, w: TreeView, n: int, d: nat) -> bool {
    &&& o.nodes.len() <= w.nodes.len()
    &&& o.nodes.len() == o.parents.len()
    &&& w.nodes.len() == w.parents.len()
    &&& 0 <= n < o.nodes.len()
    &&& forall|j: int| 0 <= j < o.nodes.len() ==> #[trigger] kept_or_split(o, w, n, d, j)
    &&& forall|j: int| o.nodes.len() <= j < w.nodes.len() ==> #[trigger] sprouted(o, w, n, d, j)
}

/// Whether an id names something in the new tree that the old tree had not.
pub open spec fn differs(o: TreeView, w: TreeView, j: int) -> bool {
    (o.nodes.len() <= j < w.nodes.len()) || (0 <= j < o.nodes.len() && j < w.nodes.len()
        && w.nodes[j] != o.nodes[j])
}

/// The way up from a node depends on the parents of the ids up to it only.
pub proof fn lemma_reaches_same(t: TreeView, u: TreeView, j: int, n: int)
    requires
        forall|k: int| 0 <= k <= j ==> #[trigger] u.parent_of(k) == t.parent_of(k),
    ensures
        u.reaches(j, n) == t.reaches(j, n),
    decreases j,
{
    if j != n && 0 <= t.parent_of(j) < j {
        assert(u.parent_of(j) == t.parent_of(j));
        lemma_reaches_same(t, u, t.parent_of(j), n);
    } else if j != n {
        if 0 <= j {
            assert(u.parent_of(j) == t.parent_of(j));
        }
    }
}

/// The depth of a node depends on the parents of the ids up to it only.
pub proof fn lemma_depth_same(t: TreeView, u: TreeView, j: int)
    requires
        forall|k: int| 0 <= k <= j ==> #[trigger] u.parent_of(k) == t.parent_of(k),
    ensures
        u.depth(j) == t.depth(j),
    decreases j,
{
    if 0 <= t.parent_of(j) < j {
        assert(u.parent_of(j) == t.parent_of(j));
        lemma_depth_same(t, u, t.parent_of(j));
    } else {
        if 0 <= j {
            assert(u.parent_of(j) == t.parent_of(j));
        }
    }
}

/// What hangs at or below a child hangs below its parent.
pub proof fn lemma_reaches_parent(t: TreeView, j: int, c: int, n: int)
    requires
        t.reaches(j, c),
        t.parent_of(c) == n,
        0 <= n < c,
    ensures
        t.reaches(j, n),
    decreases j,
{
    if j == c {
        assert(t.reaches(n, n));
    } else {
        lemma_reaches_parent(t, t.parent_of(j), c, n);
    }
}

/// In a grown tree the ids of the old tree have the parents they had.
pub proof fn lemma_grown_parents(o: TreeView, w: TreeView, n: int, d: nat, j: int)
    requires
        grown(o, w, n, d),
        j < o.nodes.len(),
    ensures
        forall|k: int| 0 <= k <= j ==> #[trigger] w.parent_of(k) == o.parent_of(k),
{
    assert forall|k: int| 0 <= k <= j implies #[trigger] w.parent_of(k) == o.parent_of(k) by {
        assert(kept_or_split(o, w, n, d, k));
    }
}

/// A tree is itself, grown by nothing.
pub proof fn lemma_grown_same(o: TreeView, n: int, d: nat)
    requires
        o.nodes.len() == o.parents.len(),
        0 <= n < o.nodes.len(),
    ensures
        grown(o, o, n, d),
{
}

/// Growth at or below a child, one level less deep, is growth at or below
/// its parent.
pub proof fn lemma_grown_child(o: TreeView, w: TreeView, n: int, c: int, d: nat)
    requires
        d >= 1,
        grown(o, w, c, (d - 1) as nat),
        o.parent_of(c) == n,
        0 <= n < c,
    ensures
        grown(o, w, n, d),
{
    assert(o.depth(c) == o.depth(n) + 1);
    assert(kept_or_split(o, w, c, (d - 1) as nat, c));
    assert(w.parent_of(c) == n);
    assert forall|j: int| 0 <= j < o.nodes.len() implies #[trigger] kept_or_split(
        o,
        w,
        n,
        d,
        j,
    ) by {
        assert(kept_or_split(o, w, c, (d - 1) as nat, j));
        if w.nodes[j] != o.nodes[j] {
            lemma_reaches_parent(o, j, c, n);
        }
    }
    assert forall|j: int| o.nodes.len() <= j < w.nodes.len() implies #[trigger] sprouted(
        o,
        w,
        n,
        d,
        j,
    ) by {
        assert(sprouted(o, w, c, (d - 1) as nat, j));
        lemma_reaches_parent(w, j, c, n);
    }
}

/// Growth after growth, both at or below one node, is growth.
pub proof fn lemma_grown_twice(o: TreeView, v: TreeView, w: TreeView, n: int, d: nat)
    requires
        grown(o, v, n, d),
        grown(v, w, n, d),
    ensures
        grown(o, w, n, d),
        forall|j: int| differs(o, w, j) <==> differs(o, v, j) || differs(v, w, j),
{
    lemma_grown_parents(o, v, n, d, n);
    lemma_depth_same(o, v, n);
    assert forall|j: int| 0 <= j < o.nodes.len() implies #[trigger] kept_or_split(
        o,
        w,
        n,
        d,
        j,
    ) by {
        assert(kept_or_split(o, v, n, d, j));
        assert(kept_or_split(v, w, n, d, j));
        lemma_grown_parents(o, v, n, d, j);
        lemma_reaches_same(o, v, j, n);
        lemma_depth_same(o, v, j);
    }
    assert forall|j: int| o.nodes.len() <= j < w.nodes.len() implies #[trigger] sprouted(
        o,
        w,
        n,
        d,
        j,
    ) by {
        if j < v.nodes.len() {
            assert(sprouted(o, v, n, d, j));
            assert(kept_or_split(v, w, n, d, j));
            lemma_grown_parents(v, w, n, d, j);
            lemma_reaches_same(v, w, j, n);
            lemma_depth_same(v, w, j);
        } else {
            assert(sprouted(v, w, n, d, j));
        }
    }
    assert forall|j: int| differs(o, w, j) <==> differs(o, v, j) || differs(v, w, j) by {
        if 0 <= j < o.nodes.len() {
            assert(kept_or_split(o, v, n, d, j));
            assert(kept_or_split(v, w, n, d, j));
        } else if o.nodes.len() <= j < v.nodes.len() {
            assert(kept_or_split(v, w, n, d, j));
        }
    }
}

/// Splitting an unprocessed node is growth by one level.
pub proof fn lemma_grown_split(o: TreeView, n: int, a: int, left: Entries, right: Entries, d: nat)
    requires
        d >= 1,
        o.nodes.len() == o.parents.len(),
        o.live(n),
        o.nodes[n].unwrap() is Unprocessed,
    ensures
        grown(o, o.after_decision(n, a, left, right), n, d),
        forall|j: int|
            differs(o, o.after_decision(n, a, left, right), j) <==> j == n || j == o.nodes.len()
                || j == o.nodes.len() + 1,
{
    let w = o.after_decision(n, a, left, right);
    let len = o.nodes.len() as int;
    assert(o.reaches(n, n));
    assert forall|j: int| 0 <= j < o.nodes.len() implies #[trigger] kept_or_split(
        o,
        w,
        n,
        d,
        j,
    ) by {}
    assert forall|k: int| 0 <= k < len implies #[trigger] w.parent_of(k) == o.parent_of(k) by {}
    lemma_depth_same(o, w, n);
    assert(w.reaches(n, n));
    assert forall|j: int| o.nodes.len() <= j < w.nodes.len() implies #[trigger] sprouted(
        o,
        w,
        n,
        d,
        j,
    ) by {
        assert(w.parent_of(j) == n);
        assert(w.reaches(j, n));
        assert(w.depth(j) == 1 + w.depth(n));
    }
}

/// One id of the old tree in the new one: it has the parent it had, and its
/// node is as it was or, where it was unprocessed, a decision that keeps its
/// classes.
pub open spec fn carried(o: TreeView, w: TreeView, j: int) -> bool {
    &&& w.parents[j] == o.parents[j]
    &&& w.nodes[j] == o.nodes[j] || {
        &&& o.live(j)
        &&& o.nodes[j].unwrap() is Unprocessed
        &&& w.is_decision(j)
        &&& partition_of(w.nodes[j].unwrap()) == partition_of(o.nodes[j].unwrap())
    }
}

/// The new tree has every id of the old one with the parent it had, and
/// every node as it was or, where it was unprocessed, as a decision.
pub open spec fn extends(o: TreeView, w: TreeView) -> bool {
    &&& o.nodes.len() <= w.nodes.len()
    &&& o.nodes.len() == o.parents.len()
    &&& w.nodes.len() == w.parents.len()
    &&& forall|j: int| 0 <= j < o.nodes.len() ==> #[trigger] carried(o, w, j)
}

/// A grown tree extends the tree it grew from.
pub proof fn lemma_grown_extends(o: TreeView, w: TreeView, n: int, d: nat)
    requires
        grown(o, w, n, d),
    ensures
        extends(o, w),
{
    assert forall|j: int| 0 <= j < o.nodes.len() implies #[trigger] carried(o, w, j) by {
        assert(kept_or_split(o, w, n, d, j));
    }
}

/// Extending twice extends, and what differs in the end is what differed
/// after the first step or in the second.
pub proof fn lemma_extends_twice(o: TreeView, v: TreeView, w: TreeView)
    requires
        extends(o, v),
        extends(v, w),
    ensures
        extends(o, w),
        forall|j: int| differs(o, w, j) <==> differs(o, v, j) || differs(v, w, j),
{
    assert forall|j: int| 0 <= j < o.nodes.len() implies #[trigger] carried(o, w, j) by {
        assert(carried(o, v, j));
        assert(carried(v, w, j));
    }
    assert forall|j: int| differs(o, w, j) <==> differs(o, v, j) || differs(v, w, j) by {
        if 0 <= j < o.nodes.len() {
            assert(carried(o, v, j));
            assert(carried(v, w, j));
        } else if o.nodes.len() <= j < v.nodes.len() {
            assert(carried(v, w, j));
        }
    }
}

/// In a tree that extends another, the ids of the old tree have the parents
/// they had.
pub proof fn lemma_extends_parents(o: TreeView, w: TreeView, j: int)
    requires
        extends(o, w),
        j < o.nodes.len(),
    ensures
        forall|k: int| 0 <= k <= j ==> #[trigger] w.parent_of(k) == o.parent_of(k),
{
    assert forall|k: int| 0 <= k <= j implies #[trigger] w.parent_of(k) == o.parent_of(k) by {
        assert(carried(o, w, k));
    }
}

/// A node is at least as deep as every node on its way up.
pub proof fn lemma_depth_reach(t: TreeView, j: int, n: int)
    requires
        t.reaches(j, n),
    ensures
        t.depth(j) >= t.depth(n),
    decreases j,
{
    if j != n {
        lemma_depth_reach(t, t.parent_of(j), n);
    }
}

/// What hangs below a decision hangs at or below one of its two children.
pub proof fn lemma_below_child(t: TreeView, attributes: int, j: int, n: int)
    requires
        t.structured(attributes),
        t.is_decision(n),
        t.live(j),
        j != n,
        t.reaches(j, n),
    ensures
        t.reaches(j, t.left_of(n)) || t.reaches(j, t.right_of(n)),
    decreases j,
{
    let p = t.parent_of(j);
    if j > 0 {
        assert(t.child_ok(j));
        if p == n {
            assert(t.reaches(j, j));
        } else {
            assert(t.reaches(p, n));
            lemma_below_child(t, attributes, p, n);
            assert(t.reaches(j, t.left_of(n)) == (j == t.left_of(n) || t.reaches(
                p,
                t.left_of(n),
            )));
            assert(t.reaches(j, t.right_of(n)) == (j == t.right_of(n) || t.reaches(
                p,
                t.right_of(n),
            )));
        }
    } else {
        assert(t.parent_of(0) == -1);
    }
}

/// Nothing hangs at or below both children of a decision.
pub proof fn lemma_apart(t: TreeView, attributes: int, j: int, n: int)
    requires
        t.structured(attributes),
        t.is_decision(n),
    ensures
        !(t.reaches(j, t.left_of(n)) && t.reaches(j, t.right_of(n))),
    decreases j,
{
    let l = t.left_of(n);
    let r = t.right_of(n);
    assert(t.decision_ok(n, attributes));
    if t.reaches(j, l) && t.reaches(j, r) {
        if j == l {
            assert(t.reaches(n, r));
            lemma_reaches_below(t, n, r);
        } else if j == r {
            assert(t.reaches(n, l));
            lemma_reaches_below(t, n, l);
        } else {
            lemma_apart(t, attributes, t.parent_of(j), n);
        }
    }
}

/// A sequence with one more element holds what it held and that element.
pub proof fn lemma_push_contains(s: Seq<int>, x: int)
    ensures
        forall|j: int| s.push(x).contains(j) <==> s.contains(j) || j == x,
        s.no_duplicates() && !s.contains(x) ==> s.push(x).no_duplicates(),
{
    let t = s.push(x);
    assert forall|j: int| t.contains(j) <==> s.contains(j) || j == x by {
        if t.contains(j) {
            let k = choose|k: int| 0 <= k < t.len() && t[k] == j;
            if k < s.len() {
                assert(s[k] == j);
            }
        }
        if s.contains(j) {
            let k = choose|k: int| 0 <= k < s.len() && s[k] == j;
            assert(t[k] == j);
        }
        if j == x {
            assert(t[s.len() as int] == x);
        }
    }
    if s.no_duplicates() && !s.contains(x) {
        assert forall|a: int, b: int| 0 <= a < t.len() && 0 <= b < t.len() && a != b implies t[a]
            != t[b] by {
            if a < s.len() && b < s.len() {
            } else if a < s.len() {
                assert(s.contains(s[a]));
            } else if b < s.len() {
                assert(s.contains(s[b]));
            }
        }
    }
}

} // verus!
