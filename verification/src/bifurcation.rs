//! Bifurcation functions: finite maps from classes to the colours that
//! exhibit them.

use crate::behaviour::Behaviour;
use crate::behaviour::canonical;
use crate::class::Class;
use crate::colors::Color;
use crate::colors::color_set;
use crate::colors::color_space;
use crate::colors::duplicate;
use crate::colors::intersect;
use crate::colors::is_empty;
use crate::colors::union;
use crate::mass::Mass;
use biodivine_lib_param_bn::symbolic_async_graph::GraphColors;
use vstd::prelude::*;

verus! {

/// What a bifurcation function holds, in the order in which it is stored:
/// each class with its colours.
pub type Entries = Seq<(Seq<Behaviour>, Set<Color>)>;

/// What a bifurcation function is: a map from classes to sets of colours.
pub type Partition = Map<Seq<Behaviour>, Set<Color>>;

/// Whether a class occurs among the entries.
pub open spec fn has_class(e: Entries, k: Seq<Behaviour>) -> bool {
    exists|i: int| 0 <= i < e.len() && (#[trigger] e[i]).0 == k
}

/// An index at which a class occurs among the entries.
pub open spec fn index_of(e: Entries, k: Seq<Behaviour>) -> int {
    choose|i: int| 0 <= i < e.len() && (#[trigger] e[i]).0 == k
}

/// No class occurs twice.
pub open spec fn distinct_classes(e: Entries) -> bool {
    forall|i: int, j: int|
        0 <= i < e.len() && 0 <= j < e.len() && i != j ==> (#[trigger] e[i]).0 != (#[trigger] e[j]).0
}

/// Every class is canonical and every set of colours is finite and not empty.
pub open spec fn proper_entries(e: Entries) -> bool {
    forall|i: int|
        0 <= i < e.len() ==> canonical((#[trigger] e[i]).0) && e[i].1.finite() && !e[i].1.is_empty()
}

/// The map that the entries stand for.
pub open spec fn map_of(e: Entries) -> Partition {
    Map::new(|k: Seq<Behaviour>| has_class(e, k), |k: Seq<Behaviour>| e[index_of(e, k)].1)
}

/// The colours of a class in a map; none where the class is absent.
pub open spec fn colors_for(m: Partition, k: Seq<Behaviour>) -> Set<Color> {
    if m.dom().contains(k) {
        m[k]
    } else {
        Set::empty()
    }
}

/// The entries after colours were added to a class: nothing changes for an
/// empty set; a class that is present gets the union; a new class is appended.
pub open spec fn added(e: Entries, k: Seq<Behaviour>, s: Set<Color>) -> Entries {
    if s.is_empty() {
        e
    } else if has_class(e, k) {
        e.update(index_of(e, k), (k, e[index_of(e, k)].1.union(s)))
    } else {
        e.push((k, s))
    }
}

/// The entries cut down to the given colours, in their order; a class with
/// no colour left is dropped.
pub open spec fn restricted(e: Entries, s: Set<Color>) -> Entries
    decreases e.len(),
{
    if e.len() == 0 {
        Seq::empty()
    } else {
        let rest = restricted(e.drop_last(), s);
        let cut = e.last().1.intersect(s);
        if cut.is_empty() {
            rest
        } else {
            rest.push((e.last().0, cut))
        }
    }
}

/// The number of colours over all entries.
pub open spec fn total_mass(e: Entries) -> nat
    decreases e.len(),
{
    if e.len() == 0 {
        0
    } else {
        total_mass(e.drop_last()) + e.last().1.len()
    }
}

/// Distinct classes hold disjoint colours.
pub open spec fn is_partition(m: Partition) -> bool {
    forall|a: Seq<Behaviour>, b: Seq<Behaviour>|
        m.dom().contains(a) && m.dom().contains(b) && a != b ==> (#[trigger] m[a]).disjoint(
            #[trigger] m[b],
        )
}

/// Whether some class of the map holds the colour.
pub open spec fn covers(m: Partition, c: Color) -> bool {
    exists|k: Seq<Behaviour>| m.dom().contains(k) && (#[trigger] m[k]).contains(c)
}

/// The class that holds a colour; the empty class where none does.
pub open spec fn class_at(m: Partition, c: Color) -> Seq<Behaviour> {
    if covers(m, c) {
        choose|k: Seq<Behaviour>| m.dom().contains(k) && (#[trigger] m[k]).contains(c)
    } else {
        Seq::empty()
    }
}

/// Whether some entry holds the colour.
pub open spec fn held(e: Entries, c: Color) -> bool {
    exists|i: int| 0 <= i < e.len() && (#[trigger] e[i]).1.contains(c)
}

/// In a partition, the class that holds a colour is the only one that does.
pub proof fn lemma_class_at(m: Partition, k: Seq<Behaviour>, c: Color)
    requires
        is_partition(m),
        m.dom().contains(k),
        m[k].contains(c),
    ensures
        covers(m, c),
        class_at(m, c) == k,
{
    let found = class_at(m, c);
    if found != k {
        assert(m[found].disjoint(m[k]));
    }
}

/// With distinct classes, each entry is what the map holds for its class.
pub proof fn lemma_map_of(e: Entries)
    requires
        distinct_classes(e),
    ensures
        forall|i: int|
            0 <= i < e.len() ==> map_of(e).dom().contains((#[trigger] e[i]).0) && map_of(e)[e[i].0]
                == e[i].1,
        forall|k: Seq<Behaviour>| #[trigger]
            map_of(e).dom().contains(k) ==> 0 <= index_of(e, k) < e.len() && e[index_of(e, k)].0
                == k,
{
    assert forall|i: int| 0 <= i < e.len() implies map_of(e).dom().contains((#[trigger] e[i]).0)
        && map_of(e)[e[i].0] == e[i].1 by {
        let k = e[i].0;
        assert(has_class(e, k));
        let j = index_of(e, k);
        assert(j == i);
    }
}

/// Adding colours to a class changes the map at that class only.
pub proof fn lemma_added(e: Entries, k: Seq<Behaviour>, s: Set<Color>)
    requires
        distinct_classes(e),
    ensures
        distinct_classes(added(e, k, s)),
        map_of(added(e, k, s)) == if s.is_empty() {
            map_of(e)
        } else {
            map_of(e).insert(k, colors_for(map_of(e), k).union(s))
        },
{
    let f = added(e, k, s);
    lemma_map_of(e);
    if s.is_empty() {
    } else if has_class(e, k) {
        let p = index_of(e, k);
        assert forall|i: int, j: int|
            0 <= i < f.len() && 0 <= j < f.len() && i != j implies (#[trigger] f[i]).0 != (
        #[trigger] f[j]).0 by {
            assert(f[i].0 == e[i].0);
            assert(f[j].0 == e[j].0);
        }
        lemma_map_of(f);
        let target = map_of(e).insert(k, colors_for(map_of(e), k).union(s));
        assert forall|x: Seq<Behaviour>| map_of(f).dom().contains(x) <==> target.dom().contains(
            x,
        ) by {
            if has_class(f, x) {
                let i = index_of(f, x);
                assert(e[i].0 == x);
            }
            if has_class(e, x) {
                let i = index_of(e, x);
                assert(f[i].0 == x);
            }
        }
        assert forall|x: Seq<Behaviour>| map_of(f).dom().contains(x) implies map_of(f)[x]
            == target[x] by {
            let i = index_of(f, x);
            assert(e[i].0 == x);
            if x != k {
                assert(i != p);
                assert(f[i] == e[i]);
            }
        }
        assert(map_of(f) =~= target);
    } else {
        assert forall|i: int, j: int|
            0 <= i < f.len() && 0 <= j < f.len() && i != j implies (#[trigger] f[i]).0 != (
        #[trigger] f[j]).0 by {
            if i < e.len() {
                assert(f[i] == e[i]);
            }
            if j < e.len() {
                assert(f[j] == e[j]);
            }
        }
        lemma_map_of(f);
        let target = map_of(e).insert(k, colors_for(map_of(e), k).union(s));
        assert(f[e.len() as int].0 == k);
        assert forall|x: Seq<Behaviour>| map_of(f).dom().contains(x) <==> target.dom().contains(
            x,
        ) by {
            if has_class(f, x) {
                let i = index_of(f, x);
                if i < e.len() {
                    assert(e[i].0 == x);
                }
            }
            if has_class(e, x) {
                let i = index_of(e, x);
                assert(f[i].0 == x);
            }
        }
        assert forall|x: Seq<Behaviour>| map_of(f).dom().contains(x) implies map_of(f)[x]
            == target[x] by {
            let i = index_of(f, x);
            if i < e.len() {
                assert(f[i] == e[i]);
            } else {
                assert(Set::<Color>::empty().union(s) =~= s);
            }
        }
        assert(map_of(f) =~= target);
    }
}

/// A finite map from classes to sets of colours, stored entry by entry. No
/// class occurs twice, no entry is empty, and all sets share one encoding.
pub struct BifurcationFunction {
    pub(crate) items: Vec<(Class, GraphColors)>,
}

impl View for BifurcationFunction {
    type V = Partition;

    open spec fn view(&self) -> Partition {
        map_of(self.entries())
    }
}

impl BifurcationFunction {
    /// The entries in the order in which they are stored.
    pub open(crate) spec fn entries(&self) -> Entries {
        Seq::new(
            self.items@.len(),
            |i: int| (self.items@[i].0@, color_set(self.items@[i].1)),
        )
    }

    /// The encodings of the stored sets, entry by entry.
    pub open(crate) spec fn spaces(&self) -> Seq<Seq<nat>> {
        Seq::new(self.items@.len(), |i: int| color_space(self.items@[i].1))
    }

    /// Whether every stored set has the given encoding.
    pub open spec fn within(&self, space: Seq<nat>) -> bool {
        forall|i: int| 0 <= i < self.spaces().len() ==> #[trigger] self.spaces()[i] == space
    }

    /// The invariant of the type.
    pub open spec fn wf(&self) -> bool {
        &&& self.spaces().len() == self.entries().len()
        &&& distinct_classes(self.entries())
        &&& proper_entries(self.entries())
        &&& forall|i: int, j: int|
            0 <= i < self.spaces().len() && 0 <= j < self.spaces().len()
                ==> #[trigger] self.spaces()[i] == #[trigger] self.spaces()[j]
    }

    /// The number of colours over all classes.
    pub open spec fn mass(&self) -> nat {
        total_mass(self.entries())
    }

    /// The function that maps no class.
    pub fn new() -> (r: BifurcationFunction)
        ensures
            r.wf(),
            r.entries() == Seq::<(Seq<Behaviour>, Set<Color>)>::empty(),
            r@ == Map::<Seq<Behaviour>, Set<Color>>::empty(),
    {
        let r = BifurcationFunction { items: Vec::new() };
        proof {
            assert(r.entries() =~= Seq::empty());
            assert(r@ =~= Map::empty());
        }
        r
    }

    /// The number of classes.
    pub fn len(&self) -> (r: usize)
        ensures
            r == self.entries().len(),
    {
        self.items.len()
    }

    /// Whether no class is mapped.
    pub fn is_empty(&self) -> (r: bool)
        ensures
            r == (self.entries().len() == 0),
    {
        self.items.len() == 0
    }

    /// The class of an entry.
    pub fn class_at(&self, index: usize) -> (r: &Class)
        requires
            index < self.entries().len(),
        ensures
            r@ == self.entries()[index as int].0,
    {
        &self.items[index].0
    }

    /// The colours of an entry.
    pub fn colors_at(&self, index: usize) -> (r: &GraphColors)
        requires
            index < self.entries().len(),
        ensures
            color_set(*r) == self.entries()[index as int].1,
            color_space(*r) == self.spaces()[index as int],
    {
        &self.items[index].1
    }

    /// Where a class is stored, if it is mapped.
    pub fn position(&self, class: &Class) -> (r: Option<usize>)
        ensures
            match r {
                Some(i) => i < self.entries().len() && self.entries()[i as int].0 == class@,
                None => !has_class(self.entries(), class@),
            },
    {
        let mut i: usize = 0;
        while i < self.items.len()
            invariant
                i <= self.items.len(),
                forall|j: int| 0 <= j < i ==> (#[trigger] self.entries()[j]).0 != class@,
            decreases self.items.len() - i,
        {
            if self.items[i].0.equals(class) {
                return Some(i);
            }
            i += 1;
        }
        None
    }

    /// The colours of a class, if it is mapped.
    pub fn get(&self, class: &Class) -> (r: Option<&GraphColors>)
        requires
            self.wf(),
        ensures
            match r {
                Some(colors) => self@.dom().contains(class@) && color_set(*colors) == self@[class@]
                    && self.within(color_space(*colors)),
                None => !self@.dom().contains(class@),
            },
    {
        proof {
            lemma_map_of(self.entries());
        }
        match self.position(class) {
            Some(i) => {
                proof {
                    assert(self.spaces()[i as int] == color_space(self.items@[i as int].1));
                }
                Some(&self.items[i].1)
            },
            None => None,
        }
    }
    /// The single entry of a function that maps one class.
    pub fn into_only(self) -> (r: (Class, GraphColors))
        requires
            self.entries().len() == 1,
        ensures
            r.0@ == self.entries()[0].0,
            color_set(r.1) == self.entries()[0].1,
            color_space(r.1) == self.spaces()[0],
    {
        let mut items = self.items;
        match items.pop() {
            Some(entry) => entry,
            None => vstd::pervasive::unreached(),
        }
    }

    /// The function that maps one class to the given colours; it maps
    /// nothing where the set is empty.
    pub fn single(class: Class, colors: GraphColors) -> (r: BifurcationFunction)
        ensures
            r.wf(),
            r.within(color_space(colors)),
            r.entries() == added(Seq::empty(), class@, color_set(colors)),
    {
        let mut r = BifurcationFunction::new();
        r.add(class, colors);
        r
    }

    /// Whether colours can be added: the set has the encoding of the sets
    /// stored here.
    pub fn fits(&self, colors: &GraphColors) -> (r: bool)
        requires
            self.wf(),
        ensures
            r == self.within(color_space(*colors)),
    {
        if self.items.len() == 0 {
            return true;
        }
        let same = crate::colors::same_encoding(&self.items[0].1, colors);
        proof {
            assert(self.spaces()[0] == color_space(self.items@[0].1));
            if same {
                assert forall|i: int| 0 <= i < self.spaces().len() implies #[trigger] self.spaces()[i]
                    == color_space(*colors) by {
                    assert(self.spaces()[i] == self.spaces()[0]);
                }
            }
        }
        same
    }

    /// The number of colours of an entry.
    pub fn cardinality_at(&self, index: usize) -> (r: Mass)
        requires
            index < self.entries().len(),
        ensures
            r@ == self.entries()[index as int].1.len(),
    {
        Mass::from_digits(crate::colors::cardinality(&self.items[index].1))
    }

    /// The number of colours over all classes.
    pub fn total_cardinality(&self) -> (r: Mass)
        ensures
            r@ == self.mass(),
    {
        let ghost e = self.entries();
        let mut sum = Mass::zero();
        let mut i: usize = 0;
        proof {
            assert(e.subrange(0, 0) =~= Seq::empty());
        }
        while i < self.items.len()
            invariant
                i <= self.items.len(),
                e == self.entries(),
                sum@ == total_mass(e.subrange(0, i as int)),
            decreases self.items.len() - i,
        {
            proof {
                assert(e.subrange(0, i + 1).drop_last() =~= e.subrange(0, i as int));
                assert(e.subrange(0, i + 1).last() == e[i as int]);
            }
            let next = self.cardinality_at(i);
            sum = sum.plus(&next);
            i += 1;
        }
        proof {
            assert(e.subrange(0, i as int) =~= e);
        }
        sum
    }

    /// Adds colours to a class. An empty set changes nothing; a class that is
    /// mapped gets the union of its colours and the new ones; a class that is
    /// not becomes the last entry.
    pub fn add(&mut self, class: Class, colors: GraphColors)
        requires
            old(self).wf(),
            old(self).within(color_space(colors)),
        ensures
            final(self).wf(),
            final(self).within(color_space(colors)),
            final(self).entries() == added(old(self).entries(), class@, color_set(colors)),
            final(self)@ == if color_set(colors).is_empty() {
                old(self)@
            } else {
                old(self)@.insert(class@, colors_for(old(self)@, class@).union(color_set(colors)))
            },
    {
        let ghost before = self.entries();
        proof {
            lemma_added(before, class@, color_set(colors));
        }
        if is_empty(&colors) {
            return ;
        }
        let sorted: bool = class.is_canonical();
        match self.position(&class) {
            Some(i) => {
                proof {
                    assert(has_class(before, class@));
                    assert(index_of(before, class@) == i);
                    assert(self.spaces()[i as int] == color_space(self.items@[i as int].1));
                }
                let merged = union(&self.items[i].1, &colors);
                proof {
                    assert(self.spaces()[i as int] == color_space(self.items@[i as int].1));
                    assert(color_set(merged).contains(color_set(colors).choose()));
                }
                self.items.set(i, (class, merged));
                proof {
                    assert(self.entries() =~= added(before, class@, color_set(colors)));
                    assert forall|j: int| 0 <= j < self.spaces().len() implies #[trigger] self.spaces()[j]
                        == color_space(colors) by {
                        if j != i {
                            assert(self.items@[j] == old(self).items@[j]);
                            assert(old(self).spaces()[j] == color_space(colors));
                        }
                    }
                    assert forall|j: int| 0 <= j < self.entries().len() implies canonical(
                        (#[trigger] self.entries()[j]).0,
                    ) && self.entries()[j].1.finite() && !self.entries()[j].1.is_empty() by {
                        if j != i {
                            assert(self.entries()[j] == before[j]);
                        } else {
                            assert(before[i as int].1.finite());
                        }
                    }
                }
            },
            None => {
                self.items.push((class, colors));
                proof {
                    assert(self.entries() =~= added(before, class@, color_set(colors)));
                    assert forall|j: int| 0 <= j < self.spaces().len() implies #[trigger] self.spaces()[j]
                        == color_space(colors) by {
                        if j < before.len() {
                            assert(self.items@[j] == old(self).items@[j]);
                            assert(old(self).spaces()[j] == color_space(colors));
                        }
                    }
                    assert forall|j: int| 0 <= j < self.entries().len() implies canonical(
                        (#[trigger] self.entries()[j]).0,
                    ) && self.entries()[j].1.finite() && !self.entries()[j].1.is_empty() by {
                        if j < before.len() {
                            assert(self.entries()[j] == before[j]);
                        }
                    }
                }
            },
        }
    }

    /// Adds colours to a class if the set has the encoding of the sets stored
    /// here, and says whether it did; the function stays as it is otherwise.
    pub fn insert(&mut self, class: Class, colors: GraphColors) -> (r: bool)
        requires
            old(self).wf(),
        ensures
            final(self).wf(),
            r == old(self).within(color_space(colors)),
            final(self).entries() == if r {
                added(old(self).entries(), class@, color_set(colors))
            } else {
                old(self).entries()
            },
            r ==> final(self).within(color_space(colors)),
            !r ==> final(self).spaces() == old(self).spaces(),
    {
        if self.fits(&colors) {
            self.add(class, colors);
            true
        } else {
            false
        }
    }

    /// A copy: the same classes with the same colours, in the same order.
    pub fn duplicate(&self) -> (r: BifurcationFunction)
        ensures
            r.entries() == self.entries(),
            r.spaces() == self.spaces(),
            r@ == self@,
            r.wf() == self.wf(),
    {
        let mut items: Vec<(Class, GraphColors)> = Vec::new();
        let mut i: usize = 0;
        while i < self.items.len()
            invariant
                i <= self.items.len(),
                items@.len() == i,
                forall|j: int|
                    0 <= j < i ==> (#[trigger] items@[j]).0@ == self.items@[j].0@ && items@[j].1
                        == self.items@[j].1,
            decreases self.items.len() - i,
        {
            let class = self.items[i].0.clone();
            let colors = duplicate(&self.items[i].1);
            items.push((class, colors));
            i += 1;
        }
        let r = BifurcationFunction { items };
        proof {
            assert(r.entries() =~= self.entries());
            assert(r.spaces() =~= self.spaces());
        }
        r
    }

    /// This function cut down to the given colours: each class keeps the
    /// colours that lie in the given set, and a class that keeps none is dropped.
    pub fn restricted(&self, filter: &GraphColors) -> (r: BifurcationFunction)
        requires
            self.wf(),
            self.within(color_space(*filter)),
        ensures
            r.wf(),
            r.within(color_space(*filter)),
            r.entries() == restricted(self.entries(), color_set(*filter)),
    {
        let mut items: Vec<(Class, GraphColors)> = Vec::new();
        let ghost mut origin: Seq<int> = Seq::empty();
        let ghost e = self.entries();
        let ghost fs = color_set(*filter);
        let mut i: usize = 0;
        proof {
            assert(e.subrange(0, 0) =~= Seq::empty());
        }
        while i < self.items.len()
            invariant
                i <= self.items.len(),
                e == self.entries(),
                fs == color_set(*filter),
                self.wf(),
                self.within(color_space(*filter)),
                origin.len() == items@.len(),
                forall|j: int| 0 <= j < origin.len() ==> 0 <= #[trigger] origin[j] < i,
                forall|j: int, k: int| 0 <= j < k < origin.len() ==> origin[j] < origin[k],
                forall|j: int|
                    0 <= j < items@.len() ==> (#[trigger] items@[j]).0@ == e[origin[j]].0
                        && color_set(items@[j].1) == e[origin[j]].1.intersect(fs)
                        && !color_set(items@[j].1).is_empty()
                        && color_space(items@[j].1) == color_space(*filter),
                Seq::new(items@.len(), |j: int| (items@[j].0@, color_set(items@[j].1)))
                    == restricted(e.subrange(0, i as int), fs),
            decreases self.items.len() - i,
        {
            proof {
                assert(e.subrange(0, i + 1).drop_last() =~= e.subrange(0, i as int));
                assert(e.subrange(0, i + 1).last() == e[i as int]);
                assert(self.spaces()[i as int] == color_space(self.items@[i as int].1));
            }
            let cut = intersect(&self.items[i].1, filter);
            if !is_empty(&cut) {
                let class = self.items[i].0.clone();
                let ghost prev = Seq::new(
                    items@.len(),
                    |j: int| (items@[j].0@, color_set(items@[j].1)),
                );
                items.push((class, cut));
                proof {
                    origin = origin.push(i as int);
                    assert(Seq::new(items@.len(), |j: int| (items@[j].0@, color_set(items@[j].1)))
                        =~= prev.push((e[i as int].0, e[i as int].1.intersect(fs))));
                }
            }
            i += 1;
        }
        let r = BifurcationFunction { items };
        proof {
            assert(e.subrange(0, i as int) =~= e);
            assert(r.entries() =~= restricted(e, fs));
            assert forall|a: int, b: int|
                0 <= a < r.entries().len() && 0 <= b < r.entries().len() && a != b implies (
            #[trigger] r.entries()[a]).0 != (#[trigger] r.entries()[b]).0 by {
                assert(r.items@[a].0@ == e[origin[a]].0);
                assert(r.items@[b].0@ == e[origin[b]].0);
                if a < b {
                    assert(origin[a] < origin[b]);
                } else {
                    assert(origin[b] < origin[a]);
                }
            }
            assert forall|j: int| 0 <= j < r.entries().len() implies canonical(
                (#[trigger] r.entries()[j]).0,
            ) && r.entries()[j].1.finite() && !r.entries()[j].1.is_empty() by {
                assert(r.items@[j].0@ == e[origin[j]].0);
                assert(e[origin[j]].1.finite());
            }
            assert forall|j: int| 0 <= j < r.spaces().len() implies #[trigger] r.spaces()[j]
                == color_space(*filter) by {
                assert(color_space(r.items@[j].1) == color_space(*filter));
            }
        }
        r
    }
}

} // verus!
