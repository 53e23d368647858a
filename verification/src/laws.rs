//! What holds of the library as a whole: of the classifier whatever the
//! attractors and their order, of a split and its taking back, of the colours
//! on the two sides of a split, and of the majority class.

use crate::bdt::AttributeSets;
use crate::bdt::Bdt;
use crate::bdt::decide::decided;
use crate::bdt::decide::ids_beneath;
use crate::bdt::growth::lemma_reaches_same;
use crate::bdt::json::cardinality_of;
use crate::bdt::json::labelled_record;
use crate::bdt::json::record;
use crate::bdt::json::rendered;
use crate::bdt::majority::heavier;
use crate::bdt::majority::heaviest;
use crate::bdt::majority::lemma_class_less_total;
use crate::bdt::majority::lemma_heaviest;
use crate::bdt::majority::lemma_share_monotone;
use crate::bdt::majority::lemma_total_mass_order;
use crate::bdt::majority::majority;
use crate::bdt::majority::reaches_share;
use crate::bdt::view::lemma_nothing_beneath;
use crate::bdt::view::NodeView;
use crate::bdt::view::partition_of;
use crate::bdt::view::TreeView;
use crate::behaviour::Behaviour;
use crate::behaviour::canonical;
use crate::behaviour::lemma_extended_canonical;
use crate::behaviour::lemma_extended_commutes;
use crate::bifurcation::added;
use crate::bifurcation::class_at;
use crate::bifurcation::colors_for;
use crate::bifurcation::has_class;
use crate::bifurcation::index_of;
use crate::bifurcation::lemma_added;
use crate::bifurcation::map_of;
use crate::bifurcation::covers;
use crate::bifurcation::distinct_classes;
use crate::bifurcation::Entries;
use crate::bifurcation::is_partition;
use crate::bifurcation::lemma_class_at;
use crate::bifurcation::lemma_map_of;
use crate::bifurcation::Partition;
use crate::bifurcation::proper_entries;
use crate::bifurcation::restricted;
use crate::bifurcation::total_mass;
use crate::class::canonical_of;
use crate::classifier::behaviour_at;
use crate::classifier::Classifier;
use crate::classifier::in_domain;
use crate::classifier::labelled;
use crate::classifier::Labels;
use crate::classifier::signature;
use crate::colors::Color;
use vstd::prelude::*;

verus! {

/// The class of given labels is canonical and holds each label as often as
/// it was given.
pub proof fn law_class_of_labels(s: Seq<Behaviour>)
    ensures
        canonical(canonical_of(s)),
        canonical_of(s).to_multiset() == s.to_multiset(),
    decreases s.len(),
{
    if s.len() == 0 {
        assert(canonical_of(s) =~= Seq::empty());
        assert(s =~= Seq::empty());
    } else {
        law_class_of_labels(s.drop_last());
        lemma_extended_canonical(canonical_of(s.drop_last()), s.last());
        assert(s.drop_last().push(s.last()) =~= s);
        vstd::seq_lib::to_multiset_build(s.drop_last(), s.last());
    }
}

/// The signature of a colour is a canonical sequence.
pub proof fn lemma_signature_canonical(log: Seq<Labels>, c: Color)
    ensures
        canonical(signature(log, c)),
    decreases log.len(),
{
    if log.len() > 0 {
        lemma_signature_canonical(log.drop_last(), c);
        match behaviour_at(log.last(), c) {
            Some(b) => {
                lemma_extended_canonical(signature(log.drop_last(), c), b);
            },
            None => {},
        }
    }
}

/// A colour has a label in its signature exactly where an attractor exists
/// for it.
pub proof fn lemma_signature_domain(log: Seq<Labels>, c: Color)
    ensures
        signature(log, c).len() > 0 <==> in_domain(log, c),
    decreases log.len(),
{
    if log.len() > 0 {
        let shorter = log.drop_last();
        lemma_signature_domain(shorter, c);
        lemma_signature_canonical(shorter, c);
        crate::classifier::lemma_log_push(shorter, log.last(), c);
        assert(shorter.push(log.last()) =~= log);
        match behaviour_at(log.last(), c) {
            Some(b) => {
                lemma_extended_canonical(signature(shorter, c), b);
            },
            None => {},
        }
    } else {
        assert(!in_domain(log, c));
    }
}

/// Two attractors label a colour in either order with the same result.
pub proof fn lemma_labelled_commutes(k: Seq<Behaviour>, x: Labels, y: Labels, c: Color)
    requires
        canonical(k),
    ensures
        labelled(labelled(k, x, c), y, c) == labelled(labelled(k, y, c), x, c),
{
    match (behaviour_at(x, c), behaviour_at(y, c)) {
        (Some(a), Some(b)) => {
            lemma_extended_commutes(k, a, b);
        },
        _ => {},
    }
}

/// The signature under a sequence of attractors is the signature under the
/// sequence without one of them, labelled by that one.
pub proof fn lemma_signature_remove(log: Seq<Labels>, j: int, c: Color)
    requires
        0 <= j < log.len(),
    ensures
        signature(log, c) == labelled(signature(log.remove(j), c), log[j], c),
    decreases log.len(),
{
    if j == log.len() - 1 {
        assert(log.remove(j) =~= log.drop_last());
    } else {
        let shorter = log.drop_last();
        let without = log.remove(j);
        lemma_signature_remove(shorter, j, c);
        assert(without.drop_last() =~= shorter.remove(j));
        assert(without.last() == log.last());
        assert(shorter[j] == log[j]);
        lemma_signature_canonical(shorter.remove(j), c);
        lemma_labelled_commutes(signature(shorter.remove(j), c), log[j], log.last(), c);
    }
}

/// The signature of a colour does not depend on the order of the attractors.
pub proof fn lemma_signature_order(xs: Seq<Labels>, ys: Seq<Labels>, c: Color)
    requires
        xs.to_multiset() == ys.to_multiset(),
    ensures
        signature(xs, c) == signature(ys, c),
        in_domain(xs, c) <==> in_domain(ys, c),
    decreases xs.len(),
{
    vstd::seq_lib::to_multiset_len(xs);
    vstd::seq_lib::to_multiset_len(ys);
    if xs.len() == 0 {
        assert(!in_domain(xs, c));
        assert(!in_domain(ys, c));
    } else {
        let last = xs.len() - 1;
        let x = xs[last];
        assert(xs.contains(x));
        vstd::seq_lib::to_multiset_contains(xs, x);
        vstd::seq_lib::to_multiset_contains(ys, x);
        assert(ys.contains(x));
        let j = choose|j: int| 0 <= j < ys.len() && ys[j] == x;
        vstd::seq_lib::to_multiset_remove(xs, last);
        vstd::seq_lib::to_multiset_remove(ys, j);
        assert(xs.remove(last) =~= xs.drop_last());
        lemma_signature_order(xs.drop_last(), ys.remove(j), c);
        lemma_signature_remove(ys, j, c);
        lemma_signature_domain(xs, c);
        lemma_signature_domain(ys, c);
    }
}

/// Two partitions into sets that are not empty are equal when they hold the
/// same colours and give each of them the same class.
pub proof fn lemma_partition_determined(m: Partition, n: Partition)
    requires
        is_partition(m),
        is_partition(n),
        forall|k: Seq<Behaviour>| m.dom().contains(k) ==> !(#[trigger] m[k]).is_empty(),
        forall|k: Seq<Behaviour>| n.dom().contains(k) ==> !(#[trigger] n[k]).is_empty(),
        forall|c: Color| #[trigger] class_at(m, c) == class_at(n, c),
        forall|c: Color| #[trigger] covers(m, c) <==> covers(n, c),
    ensures
        m == n,
{
    assert forall|k: Seq<Behaviour>, c: Color| m.dom().contains(k) && m[k].contains(c) implies n.dom().contains(
        k,
    ) && n[k].contains(c) by {
        lemma_class_at(m, k, c);
        assert(covers(n, c));
        assert(class_at(n, c) == class_at(m, c));
    }
    assert forall|k: Seq<Behaviour>, c: Color| n.dom().contains(k) && n[k].contains(c) implies m.dom().contains(
        k,
    ) && m[k].contains(c) by {
        lemma_class_at(n, k, c);
        assert(covers(m, c));
        assert(class_at(m, c) == class_at(n, c));
    }
    assert forall|k: Seq<Behaviour>| m.dom().contains(k) <==> n.dom().contains(k) by {
        if m.dom().contains(k) {
            let c = choose|c: Color| m[k].contains(c);
            assert(m[k].contains(c));
        }
        if n.dom().contains(k) {
            let c = choose|c: Color| n[k].contains(c);
            assert(n[k].contains(c));
        }
    }
    assert forall|k: Seq<Behaviour>| m.dom().contains(k) implies m[k] =~= n[k] by {}
    assert(m =~= n);
}

/// Order independence: two classifiers that were fed the same attractors, in
/// whatever order, hold the same partition.
pub proof fn law_order_independence(a: Classifier, b: Classifier)
    requires
        a.wf(),
        b.wf(),
        a.log().to_multiset() == b.log().to_multiset(),
    ensures
        a.partition() == b.partition(),
{
    let m = a.partition();
    let n = b.partition();
    lemma_map_of(a.classes.entries());
    lemma_map_of(b.classes.entries());
    assert forall|k: Seq<Behaviour>| m.dom().contains(k) implies !(#[trigger] m[k]).is_empty() by {
        let i = crate::bifurcation::index_of(a.classes.entries(), k);
        assert(a.classes.entries()[i].0 == k);
    }
    assert forall|k: Seq<Behaviour>| n.dom().contains(k) implies !(#[trigger] n[k]).is_empty() by {
        let i = crate::bifurcation::index_of(b.classes.entries(), k);
        assert(b.classes.entries()[i].0 == k);
    }
    assert forall|c: Color| #[trigger] class_at(m, c) == class_at(n, c) by {
        lemma_signature_order(a.log(), b.log(), c);
    }
    assert forall|c: Color| #[trigger] covers(m, c) <==> covers(n, c) by {
        lemma_signature_order(a.log(), b.log(), c);
    }
    lemma_partition_determined(m, n);
}

/// The partition invariant: the classes of a classifier hold disjoint
/// colours, and a colour has a class exactly where one of the attractors seen
/// exists for it.
pub proof fn law_partition_invariant(a: Classifier)
    requires
        a.wf(),
    ensures
        is_partition(a.partition()),
        forall|c: Color| #[trigger] covers(a.partition(), c) <==> in_domain(a.log(), c),
{
}

/// Where no id below a bound hangs below a node, the list of the ids below
/// the node up to that bound is empty.
pub proof fn lemma_none_beneath(t: TreeView, n: int, upto: int)
    requires
        forall|j: int| 0 <= j < upto ==> !t.beneath(j, n),
    ensures
        ids_beneath(t, n, upto) == Seq::<int>::empty(),
    decreases upto,
{
    if upto > 0 {
        lemma_none_beneath(t, n, upto - 1);
    }
}

/// The round trip of a split: splitting a node that is a leaf or unprocessed
/// and taking the decision back removes exactly the two nodes that the split
/// made, leaves every other node as it was, and leaves the node itself
/// unprocessed with the classes it held.
pub proof fn law_split_revert(t: TreeView, sets: AttributeSets, n: int, a: int)
    requires
        t.structured(sets.len() as int),
        t.live(n),
        !t.is_decision(n),
        0 <= a < sets.len(),
    ensures
        decided(t, sets, n, a).is_decision(n),
        ids_beneath(decided(t, sets, n, a), n, (t.nodes.len() + 2) as int) == seq![
            t.nodes.len() as int,
            (t.nodes.len() + 1) as int,
        ],
        decided(t, sets, n, a).after_revert(n).nodes == t.nodes.update(
            n,
            Some(NodeView::Unprocessed { classes: partition_of(t.nodes[n].unwrap()) }),
        ).push(None).push(None),
        decided(t, sets, n, a).after_revert(n).parents == t.parents.push(None).push(None),
        t.nodes[n].unwrap() is Unprocessed ==> decided(t, sets, n, a).after_revert(n).nodes[n]
            == t.nodes[n],
{
    let u = decided(t, sets, n, a);
    let len = t.nodes.len() as int;
    let back = u.after_revert(n);
    assert forall|j: int| 0 <= j < len implies !u.beneath(j, n) by {
        assert forall|k: int| 0 <= k <= j implies #[trigger] u.parent_of(k) == t.parent_of(k) by {}
        lemma_reaches_same(t, u, j, n);
        lemma_nothing_beneath(t, sets.len() as int, j, n);
        if j != n {
            assert(u.live(j) == t.live(j));
        }
    }
    lemma_none_beneath(u, n, len);
    assert(u.reaches(n, n));
    assert(u.parent_of(len) == n);
    assert(u.parent_of(len + 1) == n);
    assert(u.reaches(len, n));
    assert(u.reaches(len + 1, n));
    assert(u.beneath(len, n));
    assert(u.beneath(len + 1, n));
    assert(ids_beneath(u, n, len + 1) == ids_beneath(u, n, len).push(len));
    assert(ids_beneath(u, n, len + 2) == ids_beneath(u, n, len + 1).push(len + 1));
    assert(ids_beneath(u, n, len + 2) =~= seq![len, len + 1]);
    assert(back.nodes =~= t.nodes.update(
        n,
        Some(NodeView::Unprocessed { classes: partition_of(t.nodes[n].unwrap()) }),
    ).push(None).push(None));
    assert(back.parents =~= t.parents.push(None).push(None)) by {
        assert forall|j: int| 0 <= j < len implies back.parents[j] == t.parents[j] by {
            assert(!u.beneath(j, n));
        }
    }
}

/// Cutting entries down to a set adds, for the last entry, the number of its
/// colours inside the set.
pub proof fn lemma_restricted_last(e: Entries, s: Set<Color>)
    requires
        e.len() > 0,
        e.last().1.finite(),
    ensures
        total_mass(restricted(e, s)) == total_mass(restricted(e.drop_last(), s)) + e.last().1.intersect(
            s,
        ).len(),
{
    let rest = restricted(e.drop_last(), s);
    let cut = e.last().1.intersect(s);
    if cut.is_empty() {
        assert(cut.len() == 0);
    } else {
        let longer = rest.push((e.last().0, cut));
        assert(longer.drop_last() =~= rest);
        assert(longer.last() == (e.last().0, cut));
    }
}

/// The colours on the two sides of a split are as many as the colours inside
/// the two sets together.
pub proof fn lemma_split_mass(e: Entries, p: Set<Color>, q: Set<Color>)
    requires
        proper_entries(e),
        p.disjoint(q),
    ensures
        total_mass(restricted(e, p)) + total_mass(restricted(e, q)) == total_mass(
            restricted(e, p.union(q)),
        ),
    decreases e.len(),
{
    if e.len() > 0 {
        let shorter = e.drop_last();
        let c = e.last().1;
        assert(e[e.len() - 1].1.finite());
        assert forall|i: int| 0 <= i < shorter.len() implies canonical((#[trigger] shorter[i]).0)
            && shorter[i].1.finite() && !shorter[i].1.is_empty() by {
            assert(shorter[i] == e[i]);
        }
        lemma_split_mass(shorter, p, q);
        lemma_restricted_last(e, p);
        lemma_restricted_last(e, q);
        lemma_restricted_last(e, p.union(q));
        let x = c.intersect(p);
        let y = c.intersect(q);
        assert(x.disjoint(y));
        assert(x.union(y) =~= c.intersect(p.union(q)));
        vstd::set_lib::lemma_set_disjoint_lens(x, y);
    }
}

/// Cutting entries down to a set that holds all their colours keeps their mass.
pub proof fn lemma_restricted_whole(e: Entries, s: Set<Color>)
    requires
        proper_entries(e),
        forall|i: int| 0 <= i < e.len() ==> (#[trigger] e[i]).1.subset_of(s),
    ensures
        total_mass(restricted(e, s)) == total_mass(e),
    decreases e.len(),
{
    if e.len() > 0 {
        let shorter = e.drop_last();
        assert(e[e.len() - 1].1.finite());
        assert forall|i: int| 0 <= i < shorter.len() implies canonical((#[trigger] shorter[i]).0)
            && shorter[i].1.finite() && !shorter[i].1.is_empty() && shorter[i].1.subset_of(s) by {
            assert(shorter[i] == e[i]);
        }
        lemma_restricted_whole(shorter, s);
        lemma_restricted_last(e, s);
        assert(e.last().1.intersect(s) =~= e.last().1);
    }
}

/// Mass conservation under a split: at every decision of a tree, the two
/// children together hold as many colours as the node holds inside the two
/// sets of the attribute.
pub proof fn law_split_conserves_mass(tree: Bdt, i: int)
    requires
        tree.wf(),
        tree@.is_decision(i),
    ensures
        ({
            let t = tree@;
            let a = tree.attribute_sets()[t.attribute_of(i)];
            total_mass(partition_of(t.nodes[t.left_of(i)].unwrap())) + total_mass(
                partition_of(t.nodes[t.right_of(i)].unwrap()),
            ) == total_mass(restricted(partition_of(t.nodes[i].unwrap()), a.0.union(a.1)))
        }),
{
    let t = tree@;
    assert(t.decision_ok(i, tree.attributes@.len() as int));
    let a = t.attribute_of(i);
    assert(tree.attributes@[a].wf());
    assert(tree.storage@[i].unwrap().node.content_ok(tree.space@));
    lemma_split_mass(
        partition_of(t.nodes[i].unwrap()),
        tree.attribute_sets()[a].0,
        tree.attribute_sets()[a].1,
    );
}

/// At a decision whose attribute leaves none of the colours of the node out,
/// the two children together hold as many colours as the node.
pub proof fn law_split_conserves_whole(tree: Bdt, i: int)
    requires
        tree.wf(),
        tree@.is_decision(i),
        ({
            let held = partition_of(tree@.nodes[i].unwrap());
            let a = tree.attribute_sets()[tree@.attribute_of(i)];
            forall|k: int| 0 <= k < held.len() ==> (#[trigger] held[k]).1.subset_of(a.0.union(a.1))
        }),
    ensures
        ({
            let t = tree@;
            total_mass(partition_of(t.nodes[t.left_of(i)].unwrap())) + total_mass(
                partition_of(t.nodes[t.right_of(i)].unwrap()),
            ) == total_mass(partition_of(t.nodes[i].unwrap()))
        }),
{
    let t = tree@;
    let a = tree.attribute_sets()[t.attribute_of(i)];
    law_split_conserves_mass(tree, i);
    assert(tree.storage@[i].unwrap().node.content_ok(tree.space@));
    lemma_restricted_whole(partition_of(t.nodes[i].unwrap()), a.0.union(a.1));
}

/// The majority class is the first class that reaches the share, where the
/// classes are looked through by descending number of colours and, among
/// classes with equally many, in the order of classes; there is none
/// exactly where no class reaches the share.
pub proof fn law_majority_first(e: Entries, p: u32)
    ensures
        match majority(e, Some(p)) {
            Some(i) => 0 <= i < e.len() && reaches_share(e[i].1.len(), total_mass(e), p as nat)
                && forall|j: int| 0 <= j < e.len() ==> !heavier(#[trigger] e[j], e[i]),
            None => forall|j: int|
                0 <= j < e.len() ==> !reaches_share(
                    (#[trigger] e[j]).1.len(),
                    total_mass(e),
                    p as nat,
                ),
        },
{
    if e.len() > 0 {
        let b = heaviest(e);
        assert forall|j: int| 0 <= j < e.len() implies !heavier(#[trigger] e[j], e[b]) && e[j].1.len()
            <= e[b].1.len() by {
            lemma_heaviest(e, j);
        }
        lemma_heaviest(e, 0);
    }
}

/// Majority collapse is monotone in the precision: a class that reaches the
/// share at a precision reaches it at every lower one, so raising the
/// precision never adds a class to those that can have the majority; and a
/// node that is shown as a leaf at a precision is shown as the same leaf at
/// every lower one.
pub proof fn law_majority_monotone(e: Entries, p: u32, q: u32)
    requires
        p <= q,
    ensures
        forall|i: int|
            0 <= i < e.len() && reaches_share((#[trigger] e[i]).1.len(), total_mass(e), q as nat)
                ==> reaches_share(e[i].1.len(), total_mass(e), p as nat),
        majority(e, Some(q)) is Some ==> majority(e, Some(p)) == majority(e, Some(q)),
{
    assert forall|i: int|
        0 <= i < e.len() && reaches_share(
            (#[trigger] e[i]).1.len(),
            total_mass(e),
            q as nat,
        ) implies reaches_share(e[i].1.len(), total_mass(e), p as nat) by {
        lemma_share_monotone(e[i].1.len(), total_mass(e), p as nat, q as nat);
    }
    if majority(e, Some(q)) is Some {
        lemma_share_monotone(e[heaviest(e)].1.len(), total_mass(e), p as nat, q as nat);
    }
}

/// The majority class does not depend on the order in which the classes are
/// stored: two lists of the same entries, each class once, have the same
/// entry as majority, or none of them has one.
pub proof fn law_majority_canonical(e: Entries, f: Entries, precision: Option<u32>)
    requires
        distinct_classes(e),
        distinct_classes(f),
        e.to_multiset() == f.to_multiset(),
    ensures
        majority(e, precision) is Some <==> majority(f, precision) is Some,
        majority(e, precision) is Some ==> e[majority(e, precision).unwrap()] == f[majority(
            f,
            precision,
        ).unwrap()],
{
    vstd::seq_lib::to_multiset_len(e);
    vstd::seq_lib::to_multiset_len(f);
    lemma_total_mass_order(e, f);
    if e.len() > 0 {
        let x = e[heaviest(e)];
        let y = f[heaviest(f)];
        lemma_heaviest(e, 0);
        lemma_heaviest(f, 0);
        assert(e.contains(x));
        assert(f.contains(y));
        vstd::seq_lib::to_multiset_contains(e, x);
        vstd::seq_lib::to_multiset_contains(f, x);
        vstd::seq_lib::to_multiset_contains(e, y);
        vstd::seq_lib::to_multiset_contains(f, y);
        let i = choose|i: int| 0 <= i < e.len() && e[i] == y;
        let j = choose|j: int| 0 <= j < f.len() && f[j] == x;
        lemma_heaviest(e, i);
        lemma_heaviest(f, j);
        if x.0 != y.0 {
            lemma_class_less_total(x.0, y.0);
        }
        assert(x == y);
    }
}

/// The record of a node carries the number of all colours of the node,
/// whatever the precision and whether or not the node is shown as a leaf of
/// its majority class; so does the record with the id of the node.
pub proof fn law_record_mass(node: NodeView, precision: Option<u32>, id: int, names: Seq<Seq<char>>)
    ensures
        cardinality_of(rendered(node, precision)) == total_mass(partition_of(node)),
        cardinality_of(labelled_record(rendered(node, precision), id, names)) == total_mass(
            partition_of(node),
        ),
{
    match node {
        NodeView::Leaf { class, colors } => {
            let e = seq![(class, colors)];
            assert(e.drop_last() =~= Seq::empty());
            assert(total_mass(e) == total_mass(e.drop_last()) + e.last().1.len());
        },
        _ => {},
    }
}

/// After a split the record of the split node carries the number of all
/// colours that the node held before, and after the split is taken back the
/// record of the node carries it again, whatever the precision.
pub proof fn law_split_keeps_record_mass(
    t: TreeView,
    sets: AttributeSets,
    n: int,
    a: int,
    precision: Option<u32>,
    names: Seq<Seq<char>>,
)
    requires
        t.structured(sets.len() as int),
        t.live(n),
        !t.is_decision(n),
        0 <= a < sets.len(),
    ensures
        cardinality_of(record(decided(t, sets, n, a), names, precision, n)) == total_mass(
            partition_of(t.nodes[n].unwrap()),
        ),
        cardinality_of(record(decided(t, sets, n, a).after_revert(n), names, precision, n))
            == total_mass(partition_of(t.nodes[n].unwrap())),
{
    let u = decided(t, sets, n, a);
    law_split_revert(t, sets, n, a);
    law_record_mass(u.nodes[n].unwrap(), precision, n, names);
    law_record_mass(u.after_revert(n).nodes[n].unwrap(), precision, n, names);
}

/// At every decision of a tree, the records of the two children together
/// carry as many colours as the node holds inside the two sets of the
/// attribute, whatever the precision; where the attribute leaves none of the
/// colours of the node out, that is what the record of the node carries.
pub proof fn law_split_records_add_up(tree: Bdt, i: int, precision: Option<u32>)
    requires
        tree.wf(),
        tree@.is_decision(i),
    ensures
        ({
            let t = tree@;
            let a = tree.attribute_sets()[t.attribute_of(i)];
            let names = tree.attribute_names();
            &&& cardinality_of(record(t, names, precision, t.left_of(i))) + cardinality_of(
                record(t, names, precision, t.right_of(i)),
            ) == total_mass(restricted(partition_of(t.nodes[i].unwrap()), a.0.union(a.1)))
            &&& cardinality_of(record(t, names, precision, i)) == total_mass(
                partition_of(t.nodes[i].unwrap()),
            )
        }),
{
    let t = tree@;
    let names = tree.attribute_names();
    law_split_conserves_mass(tree, i);
    law_record_mass(t.nodes[t.left_of(i)].unwrap(), precision, t.left_of(i), names);
    law_record_mass(t.nodes[t.right_of(i)].unwrap(), precision, t.right_of(i), names);
    law_record_mass(t.nodes[i].unwrap(), precision, i, names);
}

/// Every entry of entries that were cut down holds colours.
pub proof fn lemma_restricted_filled(e: Entries, s: Set<Color>)
    ensures
        forall|i: int|
            0 <= i < restricted(e, s).len() ==> !(#[trigger] restricted(e, s)[i]).1.is_empty(),
    decreases e.len(),
{
    if e.len() > 0 {
        lemma_restricted_filled(e.drop_last(), s);
        let rest = restricted(e.drop_last(), s);
        let cut = e.last().1.intersect(s);
        if !cut.is_empty() {
            let longer = rest.push((e.last().0, cut));
            assert forall|i: int| 0 <= i < longer.len() implies !(#[trigger] longer[i]).1.is_empty() by {
                if i < rest.len() {
                    assert(longer[i] == rest[i]);
                }
            }
        }
    }
}

/// Cutting entries down to a set cuts the colours of every class down to
/// the set, and leaves no class twice.
pub proof fn lemma_restricted_map(e: Entries, s: Set<Color>)
    requires
        distinct_classes(e),
        proper_entries(e),
    ensures
        distinct_classes(restricted(e, s)),
        forall|k: Seq<Behaviour>| #[trigger]
            colors_for(map_of(restricted(e, s)), k) == colors_for(map_of(e), k).intersect(s),
    decreases e.len(),
{
    if e.len() == 0 {
        assert forall|k: Seq<Behaviour>| #[trigger]
            colors_for(map_of(restricted(e, s)), k) == colors_for(map_of(e), k).intersect(s) by {
            assert(!has_class(e, k));
            assert(Set::<Color>::empty().intersect(s) =~= Set::empty());
        }
    } else {
        let shorter = e.drop_last();
        let last = e.last();
        let rest = restricted(shorter, s);
        let cut = last.1.intersect(s);
        assert forall|i: int| 0 <= i < shorter.len() implies canonical((#[trigger] shorter[i]).0)
            && shorter[i].1.finite() && !shorter[i].1.is_empty() by {
            assert(shorter[i] == e[i]);
        }
        assert forall|i: int, j: int|
            0 <= i < shorter.len() && 0 <= j < shorter.len() && i != j implies (
        #[trigger] shorter[i]).0 != (#[trigger] shorter[j]).0 by {
            assert(shorter[i] == e[i] && shorter[j] == e[j]);
        }
        lemma_restricted_map(shorter, s);
        lemma_restricted_filled(shorter, s);
        lemma_map_of(shorter);
        lemma_map_of(rest);
        assert(!has_class(shorter, last.0)) by {
            if has_class(shorter, last.0) {
                let i = index_of(shorter, last.0);
                assert(e[i].0 == e[e.len() - 1].0);
            }
        }
        assert(!has_class(rest, last.0)) by {
            if has_class(rest, last.0) {
                let i = index_of(rest, last.0);
                assert(map_of(rest).dom().contains(rest[i].0));
                assert(colors_for(map_of(rest), last.0) == rest[i].1);
                assert(colors_for(map_of(shorter), last.0) =~= Set::empty());
                assert(colors_for(map_of(shorter), last.0).intersect(s) =~= Set::empty());
            }
        }
        assert(e =~= shorter.push(last));
        assert(e[e.len() - 1].1.finite() && !last.1.is_empty());
        assert(added(shorter, last.0, last.1) == e);
        lemma_added(shorter, last.0, last.1);
        lemma_added(rest, last.0, cut);
        assert(restricted(e, s) == added(rest, last.0, cut));
        assert forall|k: Seq<Behaviour>| #[trigger]
            colors_for(map_of(restricted(e, s)), k) == colors_for(map_of(e), k).intersect(s) by {
            assert(colors_for(map_of(rest), k) == colors_for(map_of(shorter), k).intersect(s));
            assert(Set::<Color>::empty().union(last.1) =~= last.1);
            assert(Set::<Color>::empty().union(cut) =~= cut);
            assert(Set::<Color>::empty().intersect(s) =~= Set::empty());
            if k == last.0 {
                assert(colors_for(map_of(shorter), k) =~= Set::empty());
                assert(colors_for(map_of(rest), k) =~= Set::empty());
                if cut.is_empty() {
                    assert(colors_for(map_of(restricted(e, s)), k) =~= Set::empty());
                }
            }
        }
    }
}

/// Class by class, a split divides the colours: at every decision of a
/// tree, the left child holds of each class the colours that meet the
/// attribute and the right child those that do not, the two share no
/// colour, and together they are as many as the class has inside the two
/// sets of the attribute.
pub proof fn law_split_per_class(tree: Bdt, i: int, k: Seq<Behaviour>)
    requires
        tree.wf(),
        tree@.is_decision(i),
    ensures
        ({
            let t = tree@;
            let a = tree.attribute_sets()[t.attribute_of(i)];
            let held = colors_for(map_of(partition_of(t.nodes[i].unwrap())), k);
            let left = colors_for(map_of(partition_of(t.nodes[t.left_of(i)].unwrap())), k);
            let right = colors_for(map_of(partition_of(t.nodes[t.right_of(i)].unwrap())), k);
            &&& left == held.intersect(a.0)
            &&& right == held.intersect(a.1)
            &&& left.disjoint(right)
            &&& left.union(right) == held.intersect(a.0.union(a.1))
            &&& left.len() + right.len() == held.intersect(a.0.union(a.1)).len()
        }),
{
    let t = tree@;
    assert(t.decision_ok(i, tree.attributes@.len() as int));
    let n = t.attribute_of(i);
    let a = tree.attribute_sets()[n];
    let e = partition_of(t.nodes[i].unwrap());
    assert(tree.attributes@[n].wf());
    assert(tree.storage@[i].unwrap().node.content_ok(tree.space@));
    lemma_restricted_map(e, a.0);
    lemma_restricted_map(e, a.1);
    let held = colors_for(map_of(e), k);
    let left = held.intersect(a.0);
    let right = held.intersect(a.1);
    assert(colors_for(map_of(restricted(e, a.0)), k) == left);
    assert(colors_for(map_of(restricted(e, a.1)), k) == right);
    assert(left.disjoint(right));
    assert(left.union(right) =~= held.intersect(a.0.union(a.1)));
    lemma_map_of(e);
    assert(held.finite()) by {
        if map_of(e).dom().contains(k) {
            let j = index_of(e, k);
            assert(e[j].1.finite());
        }
    }
    vstd::set_lib::lemma_set_disjoint_lens(left, right);
}

} // verus!
