//! The majority class of a node: the class that holds at least a given share
//! of the colours of the node, if there is one.

use crate::behaviour::Behaviour;
use crate::behaviour::class_less;
use crate::behaviour::rank;
use crate::bifurcation::BifurcationFunction;
use crate::bifurcation::Entries;
use crate::bifurcation::total_mass;
use crate::colors::Color;
use crate::mass::Mass;
use vstd::prelude::*;

verus! {

/// Whether `m` colours are at least the share `p`, in hundredths of a
/// percent, of `total` colours.
pub open spec fn reaches_share(m: nat, total: nat, p: nat) -> bool {
    m * 10000 >= total * p
}

/// Whether one entry comes before another where classes are looked through
/// for the majority: the one with more colours first, of two with equally
/// many the one whose class comes first.
pub open spec fn heavier(
    x: (Seq<Behaviour>, Set<Color>),
    y: (Seq<Behaviour>, Set<Color>),
) -> bool {
    x.1.len() > y.1.len() || (x.1.len() == y.1.len() && class_less(x.0, y.0))
}

/// The index of the entry that comes first of all.
pub open spec fn heaviest(e: Entries) -> int
    decreases e.len(),
{
    if e.len() <= 1 {
        0
    } else {
        let b = heaviest(e.drop_last());
        if heavier(e.last(), e[b]) {
            e.len() - 1
        } else {
            b
        }
    }
}

/// The majority class at a precision: the first entry, if it reaches the
/// share; none without a precision, without entries, or where even the first
/// entry falls short.
pub open spec fn majority(e: Entries, precision: Option<u32>) -> Option<int> {
    match precision {
        Some(p) => if e.len() > 0 && reaches_share(
            e[heaviest(e)].1.len(),
            total_mass(e),
            p as nat,
        ) {
            Some(heaviest(e))
        } else {
            None
        },
        None => None,
    }
}

/// The order of classes is transitive.
pub proof fn lemma_class_less_transitive(a: Seq<Behaviour>, b: Seq<Behaviour>, c: Seq<Behaviour>)
    requires
        class_less(a, b),
        class_less(b, c),
    ensures
        class_less(a, c),
    decreases a.len(),
{
    if a.len() > 0 && b.len() > 0 && c.len() > 0 {
        if rank(a[0]) == rank(b[0]) && rank(b[0]) == rank(c[0]) {
            lemma_class_less_transitive(a.drop_first(), b.drop_first(), c.drop_first());
        }
    }
}

/// Of two different classes one comes before the other.
pub proof fn lemma_class_less_total(a: Seq<Behaviour>, b: Seq<Behaviour>)
    requires
        a != b,
    ensures
        class_less(a, b) || class_less(b, a),
    decreases a.len(),
{
    if a.len() > 0 && b.len() > 0 {
        if rank(a[0]) == rank(b[0]) {
            assert(a[0] == b[0]);
            if a.drop_first() == b.drop_first() {
                assert(a =~= seq![a[0]] + a.drop_first());
                assert(b =~= seq![b[0]] + b.drop_first());
            } else {
                lemma_class_less_total(a.drop_first(), b.drop_first());
            }
        }
    } else if a.len() == 0 && b.len() == 0 {
        assert(a =~= b);
    }
}

/// The mass of entries is the mass of the entries without one of them and
/// of that one.
pub proof fn lemma_total_mass_remove(e: Entries, j: int)
    requires
        0 <= j < e.len(),
    ensures
        total_mass(e) == total_mass(e.remove(j)) + e[j].1.len(),
    decreases e.len(),
{
    if j == e.len() - 1 {
        assert(e.remove(j) =~= e.drop_last());
    } else {
        lemma_total_mass_remove(e.drop_last(), j);
        assert(e.remove(j).drop_last() =~= e.drop_last().remove(j));
        assert(e.remove(j).last() == e.last());
    }
}

/// The mass of entries does not depend on their order.
pub proof fn lemma_total_mass_order(e: Entries, f: Entries)
    requires
        e.to_multiset() == f.to_multiset(),
    ensures
        total_mass(e) == total_mass(f),
    decreases e.len(),
{
    vstd::seq_lib::to_multiset_len(e);
    vstd::seq_lib::to_multiset_len(f);
    if e.len() > 0 {
        let last = e.len() - 1;
        let x = e[last];
        assert(e.contains(x));
        vstd::seq_lib::to_multiset_contains(e, x);
        vstd::seq_lib::to_multiset_contains(f, x);
        let j = choose|j: int| 0 <= j < f.len() && f[j] == x;
        vstd::seq_lib::to_multiset_remove(e, last);
        vstd::seq_lib::to_multiset_remove(f, j);
        assert(e.remove(last) =~= e.drop_last());
        lemma_total_mass_order(e.drop_last(), f.remove(j));
        lemma_total_mass_remove(f, j);
    }
}

/// The index of the first entry lies among the entries.
pub proof fn lemma_heaviest_index(e: Entries)
    requires
        e.len() > 0,
    ensures
        0 <= heaviest(e) < e.len(),
    decreases e.len(),
{
    if e.len() > 1 {
        lemma_heaviest_index(e.drop_last());
    }
}

/// No entry comes before the first.
pub proof fn lemma_heaviest(e: Entries, j: int)
    requires
        0 <= j < e.len(),
    ensures
        0 <= heaviest(e) < e.len(),
        !heavier(e[j], e[heaviest(e)]),
        e[j].1.len() <= e[heaviest(e)].1.len(),
    decreases e.len(),
{
    lemma_heaviest_index(e);
    if e.len() > 1 {
        let shorter = e.drop_last();
        let b = heaviest(shorter);
        lemma_heaviest_index(shorter);
        assert(shorter[b] == e[b]);
        if j < e.len() - 1 {
            lemma_heaviest(shorter, j);
            assert(shorter[j] == e[j]);
            if heavier(e.last(), e[b]) && heavier(e[j], e.last()) {
                if e[j].1.len() == e.last().1.len() && e.last().1.len() == e[b].1.len() {
                    lemma_class_less_transitive(e[j].0, e.last().0, e[b].0);
                }
            }
        } else {
            assert(!class_less(e[j].0, e[j].0)) by {
                lemma_class_less_irreflexive(e[j].0);
            }
        }
    } else {
        lemma_class_less_irreflexive(e[j].0);
    }
}

/// No class comes before itself.
pub proof fn lemma_class_less_irreflexive(a: Seq<Behaviour>)
    ensures
        !class_less(a, a),
    decreases a.len(),
{
    if a.len() > 0 {
        lemma_class_less_irreflexive(a.drop_first());
    }
}

/// A lower share is reached wherever a higher one is.
pub proof fn lemma_share_monotone(m: nat, total: nat, p: nat, q: nat)
    requires
        p <= q,
        reaches_share(m, total, q),
    ensures
        reaches_share(m, total, p),
{
    assert(total * p <= total * q) by (nonlinear_arith)
        requires
            p <= q,
    ;
}

/// Whether `m` colours are at least the share `p` of `total` colours.
pub fn reaches_threshold(m: &Mass, total: &Mass, p: u32) -> (r: bool)
    ensures
        r == reaches_share(m@, total@, p as nat),
{
    m.times(10000).at_least(&total.times(p))
}

/// The majority class of the given classes at the given precision, as the
/// index of its entry.
pub fn get_majority_class(classes: &BifurcationFunction, precision: Option<u32>) -> (r: Option<
    usize,
>)
    ensures
        match r {
            Some(i) => majority(classes.entries(), precision) == Some(i as int) && i
                < classes.entries().len(),
            None => majority(classes.entries(), precision) is None,
        },
{
    let p: u32 = match precision {
        Some(p) => p,
        None => {
            return None;
        },
    };
    if classes.len() == 0 {
        return None;
    }
    let total = classes.total_cardinality();
    let ghost e = classes.entries();
    let mut best: usize = 0;
    let mut top = classes.cardinality_at(0);
    let mut i: usize = 1;
    proof {
        assert(e.subrange(0, 1).len() == 1);
    }
    while i < classes.len()
        invariant
            1 <= i <= e.len(),
            e == classes.entries(),
            best < i,
            best == heaviest(e.subrange(0, i as int)),
            top@ == e[best as int].1.len(),
        decreases e.len() - i,
    {
        let ghost shorter = e.subrange(0, i as int);
        let ghost longer = e.subrange(0, i + 1);
        proof {
            assert(longer.drop_last() =~= shorter);
            assert(longer.last() == e[i as int]);
            assert(longer[best as int] == e[best as int]);
        }
        let m = classes.cardinality_at(i);
        let above: bool = !top.at_least(&m);
        let level: bool = m.at_least(&top);
        if above || (level && classes.class_at(i).precedes(classes.class_at(best))) {
            best = i;
            top = m;
        }
        i += 1;
    }
    proof {
        assert(e.subrange(0, i as int) =~= e);
    }
    if reaches_threshold(&top, &total, p) {
        Some(best)
    } else {
        None
    }
}

} // verus!
