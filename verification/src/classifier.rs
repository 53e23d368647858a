//! The classifier: the partition of the colours by the behaviours of the
//! attractors found so far.

use crate::behaviour::Behaviour;
use crate::behaviour::canonical;
use crate::behaviour::extended;
use crate::bifurcation::BifurcationFunction;
use crate::bifurcation::class_at;
use crate::bifurcation::colors_for;
use crate::bifurcation::covers;
use crate::bifurcation::Entries;
use crate::bifurcation::held;
use crate::bifurcation::is_partition;
use crate::bifurcation::lemma_class_at;
use crate::bifurcation::lemma_map_of;
use crate::bifurcation::map_of;
use crate::bifurcation::Partition;
use crate::class::Class;
use crate::colors::Color;
use crate::colors::color_set;
use crate::colors::color_space;
use crate::colors::duplicate;
use crate::colors::intersect;
use crate::colors::is_empty;
use crate::colors::minus;
use crate::colors::same_encoding;
use biodivine_lib_param_bn::symbolic_async_graph::GraphColoredVertices;
use biodivine_lib_param_bn::symbolic_async_graph::GraphColors;
use vstd::prelude::*;

verus! {

/// The class of a colour after one more attractor: one label longer where the
/// attractor exists for the colour, unchanged where it does not.
pub open spec fn relabelled(k: Seq<Behaviour>, inside: bool, b: Behaviour) -> Seq<Behaviour> {
    if inside {
        extended(k, b)
    } else {
        k
    }
}

/// Whether one of the first `upto` entries holds the colour and hands it to
/// class `k` once the colours in `fs` get the label `b`.
pub open spec fn handed_on(
    e: Entries,
    upto: int,
    fs: Set<Color>,
    b: Behaviour,
    k: Seq<Behaviour>,
    c: Color,
) -> bool {
    exists|i: int|
        0 <= i < upto && (#[trigger] e[i]).1.contains(c) && k == relabelled(
            e[i].0,
            fs.contains(c),
            b,
        )
}

/// What a refined map holds, stated colour by colour.
pub open spec fn refined_member(
    e: Entries,
    fs: Set<Color>,
    b: Behaviour,
    k: Seq<Behaviour>,
    c: Color,
) -> bool {
    handed_on(e, e.len() as int, fs, b, k, c) || (fs.contains(c) && !held(e, c) && k == seq![b])
}

/// What a refined map holds for one colour.
proof fn lemma_refined_at(e: Entries, m: Partition, fs: Set<Color>, b: Behaviour, c: Color)
    requires
        crate::bifurcation::distinct_classes(e),
        is_partition(map_of(e)),
        forall|k: Seq<Behaviour>, c: Color| #[trigger]
            colors_for(m, k).contains(c) <==> refined_member(e, fs, b, k, c),
    ensures
        class_at(m, c) == relabelled(class_at(map_of(e), c), fs.contains(c), b),
        covers(m, c) <==> covers(map_of(e), c) || fs.contains(c),
{
    let old_m = map_of(e);
    lemma_map_of(e);
    if held(e, c) {
        let i = choose|i: int| 0 <= i < e.len() && (#[trigger] e[i]).1.contains(c);
        lemma_class_at(old_m, e[i].0, c);
        let target = relabelled(e[i].0, fs.contains(c), b);
        assert(handed_on(e, e.len() as int, fs, b, target, c));
        assert(colors_for(m, target).contains(c));
        assert(m.dom().contains(target) && m[target].contains(c));
        assert forall|k: Seq<Behaviour>| m.dom().contains(k) && (#[trigger] m[k]).contains(
            c,
        ) implies k == target by {
            assert(colors_for(m, k).contains(c));
            assert(refined_member(e, fs, b, k, c));
            let j = choose|j: int|
                0 <= j < e.len() && (#[trigger] e[j]).1.contains(c) && k == relabelled(
                    e[j].0,
                    fs.contains(c),
                    b,
                );
            lemma_class_at(old_m, e[j].0, c);
        }
    } else {
        assert(!covers(old_m, c)) by {
            if covers(old_m, c) {
                let k = choose|k: Seq<Behaviour>|
                    old_m.dom().contains(k) && (#[trigger] old_m[k]).contains(c);
                let i = crate::bifurcation::index_of(e, k);
                assert(e[i].1.contains(c));
            }
        }
        assert(extended(Seq::<Behaviour>::empty(), b) =~= seq![b]);
        if fs.contains(c) {
            assert(refined_member(e, fs, b, seq![b], c));
            assert(colors_for(m, seq![b]).contains(c));
            assert(m.dom().contains(seq![b]) && m[seq![b]].contains(c));
            assert forall|k: Seq<Behaviour>| m.dom().contains(k) && (#[trigger] m[k]).contains(
                c,
            ) implies k == seq![b] by {
                assert(colors_for(m, k).contains(c));
                assert(refined_member(e, fs, b, k, c));
            }
        } else {
            assert forall|k: Seq<Behaviour>| m.dom().contains(k) implies !(#[trigger] m[k]).contains(
                c,
            ) by {
                if m[k].contains(c) {
                    assert(colors_for(m, k).contains(c));
                    assert(refined_member(e, fs, b, k, c));
                }
            }
        }
    }
}

/// A map that holds exactly what the refinement of a partition should hold is
/// a partition, and relabels each colour as the refinement says.
pub proof fn lemma_refined(e: Entries, m: Partition, fs: Set<Color>, b: Behaviour)
    requires
        crate::bifurcation::distinct_classes(e),
        is_partition(map_of(e)),
        forall|k: Seq<Behaviour>, c: Color| #[trigger]
            colors_for(m, k).contains(c) <==> refined_member(e, fs, b, k, c),
    ensures
        is_partition(m),
        forall|c: Color| #[trigger]
            class_at(m, c) == relabelled(class_at(map_of(e), c), fs.contains(c), b),
        forall|c: Color| #[trigger] covers(m, c) <==> covers(map_of(e), c) || fs.contains(c),
{
    let old_m = map_of(e);
    lemma_map_of(e);
    assert forall|c: Color| #[trigger]
        class_at(m, c) == relabelled(class_at(map_of(e), c), fs.contains(c), b) by {
        lemma_refined_at(e, m, fs, b, c);
    }
    assert forall|c: Color| #[trigger] covers(m, c) <==> covers(map_of(e), c) || fs.contains(
        c,
    ) by {
        lemma_refined_at(e, m, fs, b, c);
    }
    assert forall|x: Seq<Behaviour>, y: Seq<Behaviour>|
        m.dom().contains(x) && m.dom().contains(y) && x != y implies (#[trigger] m[x]).disjoint(
        #[trigger] m[y],
    ) by {
        assert forall|c: Color| !(m[x].contains(c) && m[y].contains(c)) by {
            if m[x].contains(c) && m[y].contains(c) {
                assert(covers(m, c));
                let found = class_at(m, c);
                assert(colors_for(m, x).contains(c));
                assert(colors_for(m, y).contains(c));
                assert(refined_member(e, fs, b, x, c));
                assert(refined_member(e, fs, b, y, c));
                if held(e, c) {
                    let i = choose|i: int|
                        0 <= i < e.len() && (#[trigger] e[i]).1.contains(c) && x == relabelled(
                            e[i].0,
                            fs.contains(c),
                            b,
                        );
                    let j = choose|j: int|
                        0 <= j < e.len() && (#[trigger] e[j]).1.contains(c) && y == relabelled(
                            e[j].0,
                            fs.contains(c),
                            b,
                        );
                    lemma_class_at(old_m, e[i].0, c);
                    lemma_class_at(old_m, e[j].0, c);
                }
            }
        }
    }
}

/// The partition after the colours in `colors` got one more attractor of the
/// given behaviour: each class is cut in two, the colours inside move to the
/// class with one more label, and colours that no class held start the class
/// of that label alone.
pub fn refine(classes: &BifurcationFunction, behaviour: Behaviour, colors: &GraphColors) -> (r:
    BifurcationFunction)
    requires
        classes.wf(),
        is_partition(classes@),
        classes.within(color_space(*colors)),
    ensures
        r.wf(),
        r.within(color_space(*colors)),
        is_partition(r@),
        forall|c: Color| #[trigger]
            class_at(r@, c) == relabelled(
                class_at(classes@, c),
                color_set(*colors).contains(c),
                behaviour,
            ),
        forall|c: Color| #[trigger]
            covers(r@, c) <==> covers(classes@, c) || color_set(*colors).contains(c),
{
    let ghost e = classes.entries();
    let ghost fs = color_set(*colors);
    let mut next = BifurcationFunction::new();
    let mut fresh = duplicate(colors);
    let mut i: usize = 0;
    while i < classes.len()
        invariant
            i <= e.len(),
            e == classes.entries(),
            fs == color_set(*colors),
            classes.wf(),
            classes.within(color_space(*colors)),
            next.wf(),
            next.within(color_space(*colors)),
            color_space(fresh) == color_space(*colors),
            forall|c: Color| #[trigger]
                color_set(fresh).contains(c) <==> fs.contains(c) && !held(
                    e.subrange(0, i as int),
                    c,
                ),
            forall|k: Seq<Behaviour>, c: Color| #[trigger]
                colors_for(next@, k).contains(c) <==> handed_on(e, i as int, fs, behaviour, k, c),
        decreases e.len() - i,
    {
        let class = classes.class_at(i);
        let held_colors = classes.colors_at(i);
        proof {
            assert(classes.spaces()[i as int] == color_space(*colors));
        }
        let inside = intersect(held_colors, colors);
        let outside = minus(held_colors, colors);
        let ghost before = next@;
        let ghost k_in = extended(class@, behaviour);
        let ghost k_out = class@;
        next.add(class.clone_extended(behaviour), inside);
        let ghost between = next@;
        next.add(class.clone(), outside);
        let ghost fresh_before = color_set(fresh);
        fresh = minus(&fresh, held_colors);
        proof {
            assert forall|c: Color| #[trigger]
                color_set(fresh).contains(c) <==> fs.contains(c) && !held(
                    e.subrange(0, i + 1),
                    c,
                ) by {
                let shorter = e.subrange(0, i as int);
                let longer = e.subrange(0, i + 1);
                if held(shorter, c) {
                    let j = choose|j: int|
                        0 <= j < shorter.len() && (#[trigger] shorter[j]).1.contains(c);
                    assert(longer[j].1.contains(c));
                }
                if e[i as int].1.contains(c) {
                    assert(longer[i as int].1.contains(c));
                }
                if held(longer, c) {
                    let j = choose|j: int|
                        0 <= j < longer.len() && (#[trigger] longer[j]).1.contains(c);
                    if j < i {
                        assert(shorter[j].1.contains(c));
                    }
                }
            }
            assert forall|k: Seq<Behaviour>, c: Color| #[trigger]
                colors_for(next@, k).contains(c) <==> handed_on(
                    e,
                    i + 1,
                    fs,
                    behaviour,
                    k,
                    c,
                ) by {
                let here = e[i as int].1.contains(c) && k == relabelled(
                    e[i as int].0,
                    fs.contains(c),
                    behaviour,
                );
                assert(handed_on(e, i + 1, fs, behaviour, k, c) <==> handed_on(
                    e,
                    i as int,
                    fs,
                    behaviour,
                    k,
                    c,
                ) || here) by {
                    if handed_on(e, i + 1, fs, behaviour, k, c) {
                        let j = choose|j: int|
                            0 <= j < i + 1 && (#[trigger] e[j]).1.contains(c) && k == relabelled(
                                e[j].0,
                                fs.contains(c),
                                behaviour,
                            );
                        if j < i {
                            assert(handed_on(e, i as int, fs, behaviour, k, c));
                        }
                    }
                    if handed_on(e, i as int, fs, behaviour, k, c) {
                        let j = choose|j: int|
                            0 <= j < i && (#[trigger] e[j]).1.contains(c) && k == relabelled(
                                e[j].0,
                                fs.contains(c),
                                behaviour,
                            );
                        assert(0 <= j < i + 1);
                    }
                    if here {
                        assert(e[i as int].1.contains(c));
                    }
                }
                assert(colors_for(before, k).contains(c) <==> handed_on(
                    e,
                    i as int,
                    fs,
                    behaviour,
                    k,
                    c,
                ));
                assert(colors_for(between, k).contains(c) <==> colors_for(before, k).contains(c)
                    || (k == k_in && color_set(inside).contains(c)));
                assert(colors_for(next@, k).contains(c) <==> colors_for(between, k).contains(c)
                    || (k == k_out && color_set(outside).contains(c)));
            }
        }
        i += 1;
    }
    let ghost before = next@;
    next.add(Class::new_empty().clone_extended(behaviour), fresh);
    proof {
        assert(e.subrange(0, i as int) =~= e);
        assert(extended(Seq::<Behaviour>::empty(), behaviour) =~= seq![behaviour]);
        assert forall|k: Seq<Behaviour>, c: Color| #[trigger]
            colors_for(next@, k).contains(c) <==> refined_member(e, fs, behaviour, k, c) by {
            assert(colors_for(before, k).contains(c) <==> handed_on(
                e,
                e.len() as int,
                fs,
                behaviour,
                k,
                c,
            ));
            assert(colors_for(next@, k).contains(c) <==> colors_for(before, k).contains(c) || (k
                == seq![behaviour] && color_set(fresh).contains(c)));
        }
        lemma_refined(e, next@, fs, behaviour);
    }
    next
}

/// What one attractor exhibits: behaviours, each with the colours for which
/// the attractor shows it.
pub type Labels = Seq<(Behaviour, Set<Color>)>;

/// No colour is given two behaviours.
pub open spec fn disjoint_labels(l: Labels) -> bool {
    forall|i: int, j: int|
        0 <= i < l.len() && 0 <= j < l.len() && i != j ==> (#[trigger] l[i]).1.disjoint(
            (#[trigger] l[j]).1,
        )
}

/// Whether the attractor exists for a colour.
pub open spec fn exists_at(l: Labels, c: Color) -> bool {
    exists|j: int| 0 <= j < l.len() && (#[trigger] l[j]).1.contains(c)
}

/// The behaviour that the attractor shows for a colour, if it exists there.
pub open spec fn behaviour_at(l: Labels, c: Color) -> Option<Behaviour> {
    if exists_at(l, c) {
        Some(l[choose|j: int| 0 <= j < l.len() && (#[trigger] l[j]).1.contains(c)].0)
    } else {
        None
    }
}

/// The class of a colour after an attractor was added to it.
pub open spec fn labelled(k: Seq<Behaviour>, l: Labels, c: Color) -> Seq<Behaviour> {
    match behaviour_at(l, c) {
        Some(b) => extended(k, b),
        None => k,
    }
}

/// The class of a colour under a sequence of attractors: the behaviours of
/// those that exist for it, as a canonical sequence.
pub open spec fn signature(log: Seq<Labels>, c: Color) -> Seq<Behaviour>
    decreases log.len(),
{
    if log.len() == 0 {
        Seq::empty()
    } else {
        labelled(signature(log.drop_last(), c), log.last(), c)
    }
}

/// Whether one of the attractors exists for a colour.
pub open spec fn in_domain(log: Seq<Labels>, c: Color) -> bool {
    exists|i: int| 0 <= i < log.len() && exists_at(#[trigger] log[i], c)
}

/// With disjoint labels, taking the next label into account relabels exactly
/// the colours of that label.
pub proof fn lemma_labelled_step(l: Labels, j: int, k: Seq<Behaviour>, c: Color)
    requires
        disjoint_labels(l),
        0 <= j < l.len(),
    ensures
        labelled(k, l.subrange(0, j + 1), c) == relabelled(
            labelled(k, l.subrange(0, j), c),
            l[j].1.contains(c),
            l[j].0,
        ),
        exists_at(l.subrange(0, j + 1), c) <==> exists_at(l.subrange(0, j), c) || l[j].1.contains(
            c,
        ),
{
    let shorter = l.subrange(0, j);
    let longer = l.subrange(0, j + 1);
    if exists_at(shorter, c) {
        let a = choose|a: int| 0 <= a < shorter.len() && (#[trigger] shorter[a]).1.contains(c);
        assert(longer[a].1.contains(c));
        assert(l[a].1.contains(c));
        assert(l[a].1.disjoint(l[j].1));
        let b = choose|b: int| 0 <= b < longer.len() && (#[trigger] longer[b]).1.contains(c);
        assert(l[b].1.contains(c));
        if a != b {
            assert(l[a].1.disjoint(l[b].1));
        }
    } else if l[j].1.contains(c) {
        assert(longer[j].1.contains(c));
        let b = choose|b: int| 0 <= b < longer.len() && (#[trigger] longer[b]).1.contains(c);
        assert(l[b].1.contains(c));
        if b != j {
            assert(shorter[b].1.contains(c));
        }
    } else {
        if exists_at(longer, c) {
            let b = choose|b: int| 0 <= b < longer.len() && (#[trigger] longer[b]).1.contains(c);
            if b < j {
                assert(shorter[b].1.contains(c));
            }
        }
    }
}

/// Two sets of one encoding that share no colour.
pub open spec fn apart(x: GraphColors, y: GraphColors) -> bool {
    color_space(x) == color_space(y) && color_set(x).disjoint(color_set(y))
}

/// One attractor as the classifier takes it: the states and colours of the
/// attractor, and the colours for which it shows each behaviour. No colour has
/// two behaviours, and all sets share one encoding.
pub struct AttractorComponent {
    pub(crate) vertices: GraphColoredVertices,
    pub(crate) behaviours: Vec<(Behaviour, GraphColors)>,
}

impl AttractorComponent {
    /// The behaviours with their colours, as stored.
    pub open(crate) spec fn labels(&self) -> Labels {
        Seq::new(
            self.behaviours@.len(),
            |j: int| (self.behaviours@[j].0, color_set(self.behaviours@[j].1)),
        )
    }

    /// The encodings of the stored sets.
    pub open(crate) spec fn spaces(&self) -> Seq<Seq<nat>> {
        Seq::new(self.behaviours@.len(), |j: int| color_space(self.behaviours@[j].1))
    }

    /// Whether every stored set has the given encoding.
    pub open spec fn within(&self, space: Seq<nat>) -> bool {
        forall|j: int| 0 <= j < self.spaces().len() ==> #[trigger] self.spaces()[j] == space
    }

    /// The invariant of the type.
    pub open spec fn wf(&self) -> bool {
        &&& self.spaces().len() == self.labels().len()
        &&& disjoint_labels(self.labels())
        &&& forall|i: int, j: int|
            0 <= i < self.spaces().len() && 0 <= j < self.spaces().len()
                ==> #[trigger] self.spaces()[i] == #[trigger] self.spaces()[j]
    }

    /// Takes the behaviours of one attractor. The result is nothing where two
    /// of the sets overlap or differ in their encoding.
    pub fn new(vertices: GraphColoredVertices, behaviours: Vec<(Behaviour, GraphColors)>) -> (r:
        Option<AttractorComponent>)
        ensures
            match r {
                Some(component) => component.wf() && component.labels() == Seq::new(
                    behaviours@.len(),
                    |j: int| (behaviours@[j].0, color_set(behaviours@[j].1)),
                ) && component.spaces() == Seq::new(
                    behaviours@.len(),
                    |j: int| color_space(behaviours@[j].1),
                ) && component.states() == vertices,
                None => exists|i: int, j: int|
                    0 <= i < j < behaviours@.len() && !apart(
                        #[trigger] behaviours@[i].1,
                        #[trigger] behaviours@[j].1,
                    ),
            },
    {
        let mut j: usize = 0;
        while j < behaviours.len()
            invariant
                j <= behaviours.len(),
                forall|a: int, b: int|
                    0 <= a < b < j ==> apart(#[trigger] behaviours@[a].1, #[trigger] behaviours@[b].1),
            decreases behaviours.len() - j,
        {
            let mut i: usize = 0;
            while i < j
                invariant
                    i <= j,
                    j < behaviours.len(),
                    forall|a: int|
                        0 <= a < i ==> apart(#[trigger] behaviours@[a].1, behaviours@[j as int].1),
                decreases j - i,
            {
                if !same_encoding(&behaviours[i].1, &behaviours[j].1) {
                    proof {
                        assert(!apart(behaviours@[i as int].1, behaviours@[j as int].1));
                    }
                    return None;
                }
                let common = intersect(&behaviours[i].1, &behaviours[j].1);
                let ghost s = color_set(behaviours@[i as int].1);
                let ghost t = color_set(behaviours@[j as int].1);
                if !is_empty(&common) {
                    proof {
                        if s.disjoint(t) {
                            assert(s.intersect(t) =~= Set::empty());
                        }
                        assert(!apart(behaviours@[i as int].1, behaviours@[j as int].1));
                    }
                    return None;
                }
                proof {
                    assert(s.disjoint(t)) by {
                        assert forall|c: Color| !(s.contains(c) && t.contains(c)) by {
                            if s.contains(c) && t.contains(c) {
                                assert(s.intersect(t).contains(c));
                            }
                        }
                    }
                }
                i += 1;
            }
            j += 1;
        }
        let component = AttractorComponent { vertices, behaviours };
        proof {
            assert forall|a: int, b: int|
                0 <= a < component.labels().len() && 0 <= b < component.labels().len() && a
                    != b implies (#[trigger] component.labels()[a]).1.disjoint(
                (#[trigger] component.labels()[b]).1,
            ) by {
                if a < b {
                    assert(apart(component.behaviours@[a].1, component.behaviours@[b].1));
                } else {
                    assert(apart(component.behaviours@[b].1, component.behaviours@[a].1));
                }
            }
            assert forall|a: int, b: int|
                0 <= a < component.spaces().len() && 0 <= b < component.spaces().len() implies #[trigger] component.spaces()[a]
                == #[trigger] component.spaces()[b] by {
                if a < b {
                    assert(apart(component.behaviours@[a].1, component.behaviours@[b].1));
                } else if b < a {
                    assert(apart(component.behaviours@[b].1, component.behaviours@[a].1));
                }
            }
        }
        Some(component)
    }

    /// The states and colours of the attractor, as they were given.
    pub open(crate) spec fn states(&self) -> GraphColoredVertices {
        self.vertices
    }

    /// The states and colours of the attractor.
    pub fn vertices(&self) -> (r: &GraphColoredVertices)
        ensures
            *r == self.states(),
    {
        &self.vertices
    }

    /// The number of behaviours stored.
    pub fn len(&self) -> (r: usize)
        ensures
            r == self.labels().len(),
    {
        self.behaviours.len()
    }

    /// The behaviour of an entry.
    pub fn behaviour(&self, index: usize) -> (r: Behaviour)
        requires
            index < self.labels().len(),
        ensures
            r == self.labels()[index as int].0,
    {
        self.behaviours[index].0
    }

    /// The colours of an entry.
    pub fn colors(&self, index: usize) -> (r: &GraphColors)
        requires
            index < self.labels().len(),
        ensures
            color_set(*r) == self.labels()[index as int].1,
            color_space(*r) == self.spaces()[index as int],
    {
        &self.behaviours[index].1
    }
}

/// Adding one attractor to a sequence adds its colours to the domain and its
/// label to the signature of each of them.
pub proof fn lemma_log_push(log: Seq<Labels>, l: Labels, c: Color)
    ensures
        signature(log.push(l), c) == labelled(signature(log, c), l, c),
        in_domain(log.push(l), c) <==> in_domain(log, c) || exists_at(l, c),
{
    let longer = log.push(l);
    assert(longer.drop_last() =~= log);
    assert(longer.last() == l);
    if in_domain(log, c) {
        let i = choose|i: int| 0 <= i < log.len() && exists_at(#[trigger] log[i], c);
        assert(exists_at(longer[i], c));
    }
    if exists_at(l, c) {
        assert(exists_at(longer[log.len() as int], c));
    }
    if in_domain(longer, c) {
        let i = choose|i: int| 0 <= i < longer.len() && exists_at(#[trigger] longer[i], c);
        if i < log.len() {
            assert(exists_at(log[i], c));
        }
    }
}

/// The running partition of the colours by the behaviours of the attractors
/// seen so far, and the attractors themselves in the order in which they came.
pub struct Classifier {
    pub(crate) classes: BifurcationFunction,
    pub(crate) attractors: Vec<AttractorComponent>,
}

impl Classifier {
    /// The partition as a map from classes to colours.
    pub open(crate) spec fn partition(&self) -> Partition {
        self.classes@
    }

    /// The attractors seen, each as its behaviours with their colours.
    pub open(crate) spec fn log(&self) -> Seq<Labels> {
        Seq::new(self.attractors@.len(), |i: int| self.attractors@[i].labels())
    }

    /// The attractors seen, each as its states and colours as they were given.
    pub open(crate) spec fn states_log(&self) -> Seq<GraphColoredVertices> {
        Seq::new(self.attractors@.len(), |i: int| self.attractors@[i].states())
    }

    /// The classes with their colours, in the order in which they are stored.
    pub open(crate) spec fn stored(&self) -> Entries {
        self.classes.entries()
    }

    /// The invariant of the type: the stored map is a partition, and the class
    /// of each colour is the signature of the colour under the attractors seen.
    pub open(crate) spec fn wf(&self) -> bool {
        &&& self.classes.wf()
        &&& is_partition(self.classes@)
        &&& forall|c: Color| #[trigger] class_at(self.classes@, c) == signature(self.log(), c)
        &&& forall|c: Color| #[trigger] covers(self.classes@, c) <==> in_domain(self.log(), c)
        &&& forall|i: int| 0 <= i < self.log().len() ==> disjoint_labels(#[trigger] self.log()[i])
    }

    /// Whether the sets of a component have the encoding of the sets stored here.
    pub open(crate) spec fn admits(&self, component: &AttractorComponent) -> bool {
        forall|j: int|
            0 <= j < component.spaces().len() ==> self.classes.within(
                #[trigger] component.spaces()[j],
            )
    }

    /// A classifier that has seen no attractor: no colour has a class.
    pub fn new() -> (r: Classifier)
        ensures
            r.wf(),
            r.partition() == Map::<Seq<Behaviour>, Set<Color>>::empty(),
            r.log() == Seq::<Labels>::empty(),
            r.states_log() == Seq::<GraphColoredVertices>::empty(),
    {
        let r = Classifier { classes: BifurcationFunction::new(), attractors: Vec::new() };
        proof {
            assert(r.log() =~= Seq::empty());
            assert(r.states_log() =~= Seq::empty());
            assert forall|c: Color| !covers(r.classes@, c) by {}
            assert forall|c: Color| !in_domain(r.log(), c) by {}
        }
        r
    }

    /// Whether a component can be added: its sets have the encoding of the
    /// sets stored here.
    pub fn accepts(&self, component: &AttractorComponent) -> (r: bool)
        requires
            self.wf(),
            component.wf(),
        ensures
            r == self.admits(component),
    {
        if self.classes.len() == 0 || component.len() == 0 {
            return true;
        }
        let mine = self.classes.colors_at(0);
        let theirs = component.colors(0);
        let same = same_encoding(mine, theirs);
        proof {
            if same {
                assert forall|j: int| 0 <= j < component.spaces().len() implies self.classes.within(
                    #[trigger] component.spaces()[j],
                ) by {
                    assert(component.spaces()[j] == component.spaces()[0]);
                    assert forall|i: int| 0 <= i < self.classes.spaces().len() implies #[trigger] self.classes.spaces()[i]
                        == component.spaces()[j] by {
                        assert(self.classes.spaces()[i] == self.classes.spaces()[0]);
                    }
                }
            } else {
                assert(!self.classes.within(component.spaces()[0]));
            }
        }
        same
    }

    /// Takes one more attractor. Where the attractor exists, the class of a
    /// colour gets the behaviour that the attractor shows there; elsewhere the
    /// class stays. The attractor is appended to the log as it was given, with
    /// its states and colours and its behaviours.
    pub fn add_component(&mut self, component: AttractorComponent)
        requires
            old(self).wf(),
            component.wf(),
            old(self).admits(&component),
        ensures
            final(self).wf(),
            final(self).log() == old(self).log().push(component.labels()),
            final(self).states_log() == old(self).states_log().push(component.states()),
            is_partition(final(self).partition()),
            forall|c: Color| #[trigger]
                class_at(final(self).partition(), c) == labelled(
                    class_at(old(self).partition(), c),
                    component.labels(),
                    c,
                ),
            forall|c: Color| #[trigger]
                covers(final(self).partition(), c) <==> covers(old(self).partition(), c)
                    || exists_at(component.labels(), c),
    {
        let ghost before = self.classes@;
        let ghost l = component.labels();
        let ghost old_log = self.log();
        let mut current = self.classes.duplicate();
        let mut j: usize = 0;
        proof {
            assert forall|c: Color| #[trigger]
                labelled(class_at(before, c), l.subrange(0, 0), c) == class_at(before, c) by {
                assert(!exists_at(l.subrange(0, 0), c));
            }
            assert forall|c: Color| !exists_at(l.subrange(0, 0), c) by {}
        }
        while j < component.len()
            invariant
                j <= l.len(),
                l == component.labels(),
                component.wf(),
                current.wf(),
                is_partition(current@),
                forall|i: int|
                    0 <= i < component.spaces().len() ==> current.within(
                        #[trigger] component.spaces()[i],
                    ),
                forall|c: Color| #[trigger]
                    class_at(current@, c) == labelled(class_at(before, c), l.subrange(0, j as int), c),
                forall|c: Color| #[trigger]
                    covers(current@, c) <==> covers(before, c) || exists_at(
                        l.subrange(0, j as int),
                        c,
                    ),
            decreases l.len() - j,
        {
            let behaviour = component.behaviour(j);
            let colors = component.colors(j);
            proof {
                assert(current.within(component.spaces()[j as int]));
            }
            let ghost previous = current@;
            let next = refine(&current, behaviour, colors);
            proof {
                assert forall|i: int| 0 <= i < component.spaces().len() implies next.within(
                    #[trigger] component.spaces()[i],
                ) by {
                    assert(component.spaces()[i] == component.spaces()[j as int]);
                }
                assert forall|c: Color| #[trigger]
                    class_at(next@, c) == labelled(class_at(before, c), l.subrange(0, j + 1), c) by {
                    lemma_labelled_step(l, j as int, class_at(before, c), c);
                    assert(class_at(previous, c) == labelled(
                        class_at(before, c),
                        l.subrange(0, j as int),
                        c,
                    ));
                }
                assert forall|c: Color| #[trigger]
                    covers(next@, c) <==> covers(before, c) || exists_at(l.subrange(0, j + 1), c) by {
                    lemma_labelled_step(l, j as int, class_at(before, c), c);
                    assert(covers(previous, c) <==> covers(before, c) || exists_at(
                        l.subrange(0, j as int),
                        c,
                    ));
                }
            }
            current = next;
            j += 1;
        }
        proof {
            assert(l.subrange(0, j as int) =~= l);
        }
        let ghost old_states = self.states_log();
        let ghost given = component.states();
        self.classes = current;
        self.attractors.push(component);
        proof {
            assert(self.log() =~= old_log.push(l));
            assert(self.states_log() =~= old_states.push(given));
            assert forall|c: Color| #[trigger]
                class_at(self.classes@, c) == signature(self.log(), c) by {
                lemma_log_push(old_log, l, c);
                assert(class_at(before, c) == signature(old_log, c));
            }
            assert forall|c: Color| #[trigger]
                covers(self.classes@, c) <==> in_domain(self.log(), c) by {
                lemma_log_push(old_log, l, c);
                assert(covers(before, c) <==> in_domain(old_log, c));
            }
            assert forall|i: int| 0 <= i < self.log().len() implies disjoint_labels(
                #[trigger] self.log()[i],
            ) by {
                if i < old_log.len() {
                    assert(self.log()[i] == old_log[i]);
                }
            }
        }
    }

    /// The partition as it stands: a copy of the running map, class by class
    /// in the order in which it is stored. Its classes hold disjoint colours,
    /// a colour has a class exactly where one of the attractors seen exists
    /// for it, and that class is the colour's signature.
    pub fn export_result(&self) -> (r: BifurcationFunction)
        requires
            self.wf(),
        ensures
            r.wf(),
            r.entries() == self.stored(),
            r@ == self.partition(),
            is_partition(r@),
            forall|c: Color| #[trigger] covers(r@, c) <==> in_domain(self.log(), c),
            forall|c: Color| #[trigger] class_at(r@, c) == signature(self.log(), c),
    {
        self.classes.duplicate()
    }

    /// The number of attractors seen.
    pub fn attractor_count(&self) -> (r: usize)
        ensures
            r == self.log().len(),
    {
        self.attractors.len()
    }

    /// One of the attractors seen, by the order in which they came.
    pub fn attractor(&self, index: usize) -> (r: Option<&AttractorComponent>)
        ensures
            match r {
                Some(component) => index < self.log().len() && component.labels()
                    == self.log()[index as int] && component.states() == self.states_log()[index as int],
                None => index >= self.log().len(),
            },
    {
        if index < self.attractors.len() {
            Some(&self.attractors[index])
        } else {
            None
        }
    }
}

} // verus!
