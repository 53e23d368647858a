//! Behaviour labels and classes of behaviours.

use vstd::prelude::*;
use vstd::relations::sorted_by;
use vstd::relations::total_ordering;

verus! {

/// The qualitative long-term behaviour of one attractor.
#[derive(Clone, Copy, Debug, PartialEq, Eq, PartialOrd, Ord, Hash, Structural)]
pub enum Behaviour {
    Stability,
    Oscillation,
    Disorder,
}

/// The place of a behaviour in the canonical order:
/// stability, then oscillation, then disorder.
pub open spec fn rank(b: Behaviour) -> int {
    match b {
        Behaviour::Stability => 0,
        Behaviour::Oscillation => 1,
        Behaviour::Disorder => 2,
    }
}

/// The canonical order on behaviours.
pub open spec fn behaviour_leq() -> spec_fn(Behaviour, Behaviour) -> bool {
    |a: Behaviour, b: Behaviour| rank(a) <= rank(b)
}

/// A sequence of behaviours is canonical when it is sorted.
pub open spec fn canonical(s: Seq<Behaviour>) -> bool {
    sorted_by(s, behaviour_leq())
}

/// Where a behaviour enters a sequence: before the first label that ranks above it.
pub open spec fn insert_position(s: Seq<Behaviour>, b: Behaviour) -> int
    decreases s.len(),
{
    if s.len() == 0 {
        0
    } else if rank(b) < rank(s[0]) {
        0
    } else {
        1 + insert_position(s.drop_first(), b)
    }
}

/// A sequence of behaviours with one more label, entered at its place.
pub open spec fn extended(s: Seq<Behaviour>, b: Behaviour) -> Seq<Behaviour> {
    s.insert(insert_position(s, b), b)
}

/// The order in which classes are compared: a shorter proper prefix comes
/// first, otherwise the first differing label decides.
pub open spec fn class_less(a: Seq<Behaviour>, b: Seq<Behaviour>) -> bool
    decreases a.len(),
{
    if b.len() == 0 {
        false
    } else if a.len() == 0 {
        true
    } else if rank(a[0]) != rank(b[0]) {
        rank(a[0]) < rank(b[0])
    } else {
        class_less(a.drop_first(), b.drop_first())
    }
}

/// The name of a behaviour.
pub open spec fn name_of(b: Behaviour) -> Seq<char> {
    match b {
        Behaviour::Stability => "Stability"@,
        Behaviour::Oscillation => "Oscillation"@,
        Behaviour::Disorder => "Disorder"@,
    }
}

impl Behaviour {
    /// The name of this behaviour.
    pub fn name(self) -> (r: &'static str)
        ensures
            r@ == name_of(self),
    {
        match self {
            Behaviour::Stability => "Stability",
            Behaviour::Oscillation => "Oscillation",
            Behaviour::Disorder => "Disorder",
        }
    }

    /// The place of this behaviour in the canonical order.
    pub fn rank(self) -> (r: u8)
        ensures
            r == rank(self),
    {
        match self {
            Behaviour::Stability => 0,
            Behaviour::Oscillation => 1,
            Behaviour::Disorder => 2,
        }
    }
}

/// The rank orders the behaviours totally.
pub proof fn lemma_behaviour_order_total()
    ensures
        total_ordering(behaviour_leq()),
{
    assert forall|x: Behaviour, y: Behaviour|
        #[trigger] behaviour_leq()(x, y) && #[trigger] behaviour_leq()(y, x) implies x == y by {
        assert(rank(x) == rank(y));
    }
}

/// The position at which a label enters lies inside the sequence, everything
/// before it ranks no higher than the label and the label at it ranks higher.
pub proof fn lemma_insert_position(s: Seq<Behaviour>, b: Behaviour)
    ensures
        0 <= insert_position(s, b) <= s.len(),
        forall|i: int| 0 <= i < insert_position(s, b) ==> rank(#[trigger] s[i]) <= rank(b),
        insert_position(s, b) < s.len() ==> rank(b) < rank(s[insert_position(s, b)]),
    decreases s.len(),
{
    if s.len() == 0 {
    } else if rank(b) < rank(s[0]) {
    } else {
        let t = s.drop_first();
        lemma_insert_position(t, b);
        let p = insert_position(t, b);
        assert forall|i: int| 0 <= i < p + 1 implies rank(#[trigger] s[i]) <= rank(b) by {
            if i > 0 {
                assert(s[i] == t[i - 1]);
            }
        }
        if p + 1 < s.len() {
            assert(s[p + 1] == t[p]);
        }
    }
}

/// The first index whose label ranks above `b`, when all before rank no higher,
/// is the position at which `b` enters.
pub proof fn lemma_insert_position_is(s: Seq<Behaviour>, b: Behaviour, p: int)
    requires
        0 <= p <= s.len(),
        forall|i: int| 0 <= i < p ==> rank(#[trigger] s[i]) <= rank(b),
        p < s.len() ==> rank(b) < rank(s[p]),
    ensures
        insert_position(s, b) == p,
    decreases s.len(),
{
    if s.len() == 0 {
    } else if p == 0 {
    } else {
        let t = s.drop_first();
        assert(rank(s[0]) <= rank(b));
        assert forall|i: int| 0 <= i < p - 1 implies rank(#[trigger] t[i]) <= rank(b) by {
            assert(t[i] == s[i + 1]);
        }
        if p - 1 < t.len() {
            assert(t[p - 1] == s[p]);
        }
        lemma_insert_position_is(t, b, p - 1);
    }
}

/// Extending a canonical sequence gives a canonical sequence with one more
/// occurrence of the label.
pub proof fn lemma_extended_canonical(s: Seq<Behaviour>, b: Behaviour)
    requires
        canonical(s),
    ensures
        canonical(extended(s, b)),
        extended(s, b).to_multiset() == s.to_multiset().insert(b),
        extended(s, b).len() == s.len() + 1,
{
    lemma_insert_position(s, b);
    let p = insert_position(s, b);
    let e = extended(s, b);
    vstd::seq_lib::to_multiset_insert(s, p, b);
    assert forall|i: int, j: int| 0 <= i < j < e.len() implies #[trigger] behaviour_leq()(
        e[i],
        e[j],
    ) by {
        if j < p {
            assert(behaviour_leq()(s[i], s[j]));
        } else if j == p {
            assert(rank(s[i]) <= rank(b));
        } else if i == p {
            assert(behaviour_leq()(s[p], s[j - 1]) || j - 1 == p);
        } else if i < p {
            assert(behaviour_leq()(s[i], s[j - 1]));
        } else {
            assert(behaviour_leq()(s[i - 1], s[j - 1]));
        }
    }
}

/// The order in which two labels enter a canonical sequence does not matter.
pub proof fn lemma_extended_commutes(s: Seq<Behaviour>, a: Behaviour, b: Behaviour)
    requires
        canonical(s),
    ensures
        extended(extended(s, a), b) == extended(extended(s, b), a),
{
    lemma_extended_canonical(s, a);
    lemma_extended_canonical(s, b);
    lemma_extended_canonical(extended(s, a), b);
    lemma_extended_canonical(extended(s, b), a);
    lemma_behaviour_order_total();
    let x = extended(extended(s, a), b);
    let y = extended(extended(s, b), a);
    assert(x.to_multiset() =~= y.to_multiset());
    vstd::seq_lib::lemma_sorted_unique(x, y, behaviour_leq());
}

} // verus!
