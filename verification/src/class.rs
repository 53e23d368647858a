//! A class: the behaviours that the attractors of one colour exhibit, as a
//! canonical (sorted) sequence of labels.

use crate::behaviour::Behaviour;
use crate::behaviour::canonical;
use crate::behaviour::class_less;
use crate::behaviour::extended;
use crate::behaviour::lemma_extended_canonical;
use crate::behaviour::lemma_insert_position_is;
use crate::behaviour::name_of;
use crate::behaviour::rank;
use vstd::prelude::*;

verus! {

/// A canonical sequence of behaviour labels. Two classes are equal when their
/// sequences are equal.
#[derive(Debug, Eq, Hash)]
pub struct Class {
    labels: Vec<Behaviour>,
}

impl View for Class {
    type V = Seq<Behaviour>;

    closed spec fn view(&self) -> Seq<Behaviour> {
        self.labels@
    }
}

/// What sorting a sequence of labels gives: the labels entered one by one.
pub open spec fn canonical_of(s: Seq<Behaviour>) -> Seq<Behaviour>
    decreases s.len(),
{
    if s.len() == 0 {
        Seq::empty()
    } else {
        extended(canonical_of(s.drop_last()), s.last())
    }
}

impl Class {
    #[verifier::type_invariant]
    spec fn sorted(&self) -> bool {
        canonical(self.labels@)
    }

    /// The class of a colour with no attractor yet.
    pub fn new_empty() -> (r: Class)
        ensures
            r@ == Seq::<Behaviour>::empty(),
    {
        Class { labels: Vec::new() }
    }

    /// The labels of a class are sorted.
    pub fn is_canonical(&self) -> (r: bool)
        ensures
            r,
            canonical(self@),
    {
        proof {
            use_type_invariant(self);
        }
        true
    }

    /// The number of labels.
    pub fn len(&self) -> (r: usize)
        ensures
            r == self@.len(),
    {
        self.labels.len()
    }

    /// Whether the class has no label.
    pub fn is_empty(&self) -> (r: bool)
        ensures
            r == (self@.len() == 0),
    {
        self.labels.len() == 0
    }

    /// The label at a position.
    pub fn get(&self, index: usize) -> (r: Option<Behaviour>)
        ensures
            r == if index < self@.len() {
                Some(self@[index as int])
            } else {
                None
            },
    {
        if index < self.labels.len() {
            Some(self.labels[index])
        } else {
            None
        }
    }

    /// The labels, in canonical order.
    pub fn get_vector(&self) -> (r: Vec<Behaviour>)
        ensures
            r@ == self@,
    {
        let mut out: Vec<Behaviour> = Vec::new();
        let mut i: usize = 0;
        while i < self.labels.len()
            invariant
                i <= self.labels.len(),
                out@ == self.labels@.subrange(0, i as int),
            decreases self.labels.len() - i,
        {
            out.push(self.labels[i]);
            proof {
                assert(out@ =~= self.labels@.subrange(0, i + 1));
            }
            i += 1;
        }
        proof {
            assert(out@ =~= self.labels@);
        }
        out
    }

    /// The names of the labels, in canonical order.
    pub fn get_str_vector(&self) -> (r: Vec<String>)
        ensures
            r@.len() == self@.len(),
            forall|i: int| 0 <= i < r@.len() ==> (#[trigger] r@[i])@ == name_of(self@[i]),
    {
        let mut out: Vec<String> = Vec::new();
        let mut i: usize = 0;
        while i < self.labels.len()
            invariant
                i <= self.labels.len(),
                out@.len() == i,
                forall|k: int| 0 <= k < i ==> (#[trigger] out@[k])@ == name_of(self.labels@[k]),
            decreases self.labels.len() - i,
        {
            out.push(self.labels[i].name().to_owned());
            i += 1;
        }
        out
    }

    /// This class with one more label, entered at its canonical place.
    pub fn clone_extended(&self, behaviour: Behaviour) -> (r: Class)
        ensures
            r@ == extended(self@, behaviour),
    {
        proof {
            use_type_invariant(self);
        }
        let mut out: Vec<Behaviour> = self.get_vector();
        let mut p: usize = 0;
        while p < out.len() && out[p].rank() <= behaviour.rank()
            invariant
                p <= out.len(),
                forall|i: int| 0 <= i < p ==> rank(#[trigger] out@[i]) <= rank(behaviour),
            decreases out.len() - p,
        {
            p += 1;
        }
        proof {
            lemma_insert_position_is(out@, behaviour, p as int);
            lemma_extended_canonical(self.labels@, behaviour);
        }
        out.insert(p, behaviour);
        Class { labels: out }
    }

    /// The class of the given labels, whatever their order.
    pub fn from_vector(labels: &Vec<Behaviour>) -> (r: Class)
        ensures
            r@ == canonical_of(labels@),
    {
        let mut out = Class::new_empty();
        let mut i: usize = 0;
        while i < labels.len()
            invariant
                i <= labels.len(),
                out@ == canonical_of(labels@.subrange(0, i as int)),
            decreases labels.len() - i,
        {
            proof {
                assert(labels@.subrange(0, i + 1).drop_last() =~= labels@.subrange(0, i as int));
            }
            out = out.clone_extended(labels[i]);
            i += 1;
        }
        proof {
            assert(labels@.subrange(0, i as int) =~= labels@);
        }
        out
    }

    /// Whether two classes hold the same labels.
    pub fn equals(&self, other: &Class) -> (r: bool)
        ensures
            r == (self@ == other@),
    {
        if self.labels.len() != other.labels.len() {
            return false;
        }
        let mut i: usize = 0;
        while i < self.labels.len()
            invariant
                i <= self.labels.len(),
                self.labels.len() == other.labels.len(),
                forall|k: int| 0 <= k < i ==> self.labels@[k] == other.labels@[k],
            decreases self.labels.len() - i,
        {
            if self.labels[i] != other.labels[i] {
                return false;
            }
            i += 1;
        }
        proof {
            assert(self.labels@ =~= other.labels@);
        }
        true
    }

    /// Whether this class comes before another in the order of classes.
    pub fn precedes(&self, other: &Class) -> (r: bool)
        ensures
            r == class_less(self@, other@),
    {
        let mut i: usize = 0;
        proof {
            assert(self.labels@.subrange(0, self.labels@.len() as int) =~= self.labels@);
            assert(other.labels@.subrange(0, other.labels@.len() as int) =~= other.labels@);
        }
        while i < self.labels.len() && i < other.labels.len()
            invariant
                i <= self.labels.len(),
                i <= other.labels.len(),
                class_less(self.labels@, other.labels@) == class_less(
                    self.labels@.subrange(i as int, self.labels@.len() as int),
                    other.labels@.subrange(i as int, other.labels@.len() as int),
                ),
            decreases self.labels.len() - i,
        {
            let ghost a = self.labels@.subrange(i as int, self.labels@.len() as int);
            let ghost b = other.labels@.subrange(i as int, other.labels@.len() as int);
            proof {
                assert(a[0] == self.labels@[i as int]);
                assert(b[0] == other.labels@[i as int]);
                assert(a.drop_first() =~= self.labels@.subrange(
                    i + 1,
                    self.labels@.len() as int,
                ));
                assert(b.drop_first() =~= other.labels@.subrange(
                    i + 1,
                    other.labels@.len() as int,
                ));
            }
            let x: u8 = self.labels[i].rank();
            let y: u8 = other.labels[i].rank();
            if x != y {
                return x < y;
            }
            i += 1;
        }
        i < other.labels.len()
    }
}

impl Clone for Class {
    fn clone(&self) -> (r: Class)
        ensures
            r@ == self@,
    {
        proof {
            use_type_invariant(self);
        }
        Class { labels: self.get_vector() }
    }
}

impl PartialEq for Class {
    fn eq(&self, other: &Class) -> (r: bool) {
        self.equals(other)
    }
}

impl vstd::std_specs::cmp::PartialEqSpecImpl for Class {
    open spec fn obeys_eq_spec() -> bool {
        true
    }

    open spec fn eq_spec(&self, other: &Class) -> bool {
        self@ == other@
    }
}

} // verus!
