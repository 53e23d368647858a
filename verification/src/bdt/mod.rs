//! The bifurcation decision tree: an arena of nodes, each holding the classes
//! of a part of the colours, split by attributes of the network.

pub mod decide;
pub mod expand;
pub mod gains;
pub mod growth;
pub mod json;
pub mod majority;
pub mod settle;
pub mod view;

use crate::behaviour::canonical;
use crate::bifurcation::BifurcationFunction;
use crate::bifurcation::restricted;
use crate::class::Class;
use crate::colors::Color;
use crate::colors::color_set;
use crate::colors::color_space;
use crate::colors::intersect;
use crate::colors::is_empty;
use crate::colors::same_encoding;
use biodivine_lib_param_bn::symbolic_async_graph::GraphColors;
use view::node_of;
use view::NodeView;
use view::partition_of;
use view::TreeView;
use vstd::prelude::*;

verus! {

/// The id of a node. Ids are given out once and never again.
#[derive(Clone, Copy, Debug, PartialEq, Eq, Hash, Structural)]
pub struct BdtNodeId(pub(crate) usize);

/// The id of an attribute: its position in the list of attributes.
#[derive(Clone, Copy, Debug, PartialEq, Eq, Hash, Structural)]
pub struct AttributeId(pub(crate) usize);

impl View for BdtNodeId {
    type V = int;

    open(crate) spec fn view(&self) -> int {
        self.0 as int
    }
}

impl View for AttributeId {
    type V = int;

    open(crate) spec fn view(&self) -> int {
        self.0 as int
    }
}

impl BdtNodeId {
    /// The id as a number.
    pub fn to_index(&self) -> (r: usize)
        ensures
            r == self@,
    {
        self.0
    }

    /// The id of the given number, if it names a node of the tree.
    pub fn try_from_index(index: usize, collection: &Bdt) -> (r: Option<BdtNodeId>)
        ensures
            match r {
                Some(id) => id@ == index && collection@.live(index as int),
                None => !collection@.live(index as int),
            },
    {
        if collection.contains(BdtNodeId(index)) {
            Some(BdtNodeId(index))
        } else {
            None
        }
    }
}

impl AttributeId {
    /// The id as a number.
    pub fn to_index(&self) -> (r: usize)
        ensures
            r == self@,
    {
        self.0
    }

    /// The id of the given number, if it names an attribute of the tree.
    pub fn try_from_index(index: usize, collection: &Bdt) -> (r: Option<AttributeId>)
        ensures
            match r {
                Some(id) => id@ == index && index < collection.attribute_sets().len(),
                None => index >= collection.attribute_sets().len(),
            },
    {
        if index < collection.attribute_count() {
            Some(AttributeId(index))
        } else {
            None
        }
    }
}

/// A named condition on colours: the colours that meet it and the colours
/// that do not, two disjoint sets of one encoding.
pub struct Attribute {
    pub(crate) name: String,
    pub(crate) positive: GraphColors,
    pub(crate) negative: GraphColors,
}

impl Attribute {
    /// The colours that meet the condition.
    pub open(crate) spec fn positive(&self) -> Set<Color> {
        color_set(self.positive)
    }

    /// The colours that do not meet the condition.
    pub open(crate) spec fn negative(&self) -> Set<Color> {
        color_set(self.negative)
    }

    /// The name of the condition.
    pub open(crate) spec fn label(&self) -> Seq<char> {
        self.name@
    }

    /// The encoding of the two sets.
    pub open(crate) spec fn space(&self) -> Seq<nat> {
        color_space(self.positive)
    }

    /// The invariant of the type.
    pub open(crate) spec fn wf(&self) -> bool {
        &&& color_space(self.positive) == color_space(self.negative)
        &&& color_set(self.positive).disjoint(color_set(self.negative))
    }

    /// An attribute of the given name. The result is nothing where the two
    /// sets overlap or differ in their encoding.
    pub fn new(name: String, positive: GraphColors, negative: GraphColors) -> (r: Option<Attribute>)
        ensures
            match r {
                Some(attribute) => attribute.wf() && attribute.label() == name@
                    && attribute.positive() == color_set(positive) && attribute.negative()
                    == color_set(negative) && attribute.space() == color_space(positive),
                None => color_space(positive) != color_space(negative) || !color_set(
                    positive,
                ).disjoint(color_set(negative)),
            },
    {
        if !same_encoding(&positive, &negative) {
            return None;
        }
        let common = intersect(&positive, &negative);
        let ghost s = color_set(positive);
        let ghost t = color_set(negative);
        if !is_empty(&common) {
            proof {
                if s.disjoint(t) {
                    assert(s.intersect(t) =~= Set::empty());
                }
            }
            return None;
        }
        proof {
            assert(s.disjoint(t)) by {
                assert forall|c: Color| !(s.contains(c) && t.contains(c)) by {
                    if s.contains(c) && t.contains(c) {
                        assert(s.intersect(t).contains(c));
                    }
                }
            }
        }
        Some(Attribute { name, positive, negative })
    }

    /// The name of the condition.
    pub fn name(&self) -> (r: &String)
        ensures
            r@ == self.label(),
    {
        &self.name
    }

    /// The colours that meet the condition.
    pub fn positive_colors(&self) -> (r: &GraphColors)
        ensures
            color_set(*r) == self.positive(),
            color_space(*r) == self.space(),
    {
        &self.positive
    }

    /// The colours that do not meet the condition.
    pub fn negative_colors(&self) -> (r: &GraphColors)
        requires
            self.wf(),
        ensures
            color_set(*r) == self.negative(),
            color_space(*r) == self.space(),
    {
        &self.negative
    }

    /// The classes of the colours that meet the condition, and the classes of
    /// those that do not.
    pub fn split(&self, classes: &BifurcationFunction) -> (r: (
        BifurcationFunction,
        BifurcationFunction,
    ))
        requires
            self.wf(),
            classes.wf(),
            classes.within(self.space()),
        ensures
            r.0.wf(),
            r.1.wf(),
            r.0.within(self.space()),
            r.1.within(self.space()),
            r.0.entries() == restricted(classes.entries(), self.positive()),
            r.1.entries() == restricted(classes.entries(), self.negative()),
    {
        (classes.restricted(&self.positive), classes.restricted(&self.negative))
    }
}

/// A node of the tree.
pub enum BdtNode {
    /// All colours of the node have one class.
    Leaf { class: Class, params: GraphColors },
    /// The node was split by an attribute; `classes` is what it held before.
    Decision { attribute: AttributeId, left: BdtNodeId, right: BdtNodeId, classes: BifurcationFunction },
    /// The node holds several classes and was not split.
    Unprocessed { classes: BifurcationFunction },
}

impl View for BdtNode {
    type V = NodeView;

    open(crate) spec fn view(&self) -> NodeView {
        match self {
            BdtNode::Leaf { class, params } => NodeView::Leaf {
                class: class@,
                colors: color_set(*params),
            },
            BdtNode::Decision { attribute, left, right, classes } => NodeView::Decision {
                attribute: attribute.0 as int,
                left: left.0 as int,
                right: right.0 as int,
                classes: classes.entries(),
            },
            BdtNode::Unprocessed { classes } => NodeView::Unprocessed { classes: classes.entries() },
        }
    }
}

impl BdtNode {
    /// What must hold of what a node stores: a leaf has a canonical class and
    /// a finite set of colours that is not empty; the classes of another node
    /// are well formed; all sets have the given encoding.
    pub open spec fn content_ok(&self, space: Seq<nat>) -> bool {
        match self {
            BdtNode::Leaf { class, params } => canonical(class@) && color_set(*params).finite()
                && !color_set(*params).is_empty() && color_space(*params) == space,
            BdtNode::Decision { classes, .. } => classes.wf() && classes.within(space),
            BdtNode::Unprocessed { classes } => classes.wf() && classes.within(space),
        }
    }

    /// The node that holds the given classes: a leaf where there is one
    /// class, else an unprocessed node.
    pub fn new(classes: BifurcationFunction) -> (r: BdtNode)
        requires
            classes.wf(),
        ensures
            r@ == node_of(classes.entries()),
            forall|space: Seq<nat>| classes.within(space) ==> r.content_ok(space),
    {
        if classes.len() == 1 {
            proof {
                assert(classes.entries()[0].1.finite());
            }
            let ghost spaces = classes.spaces();
            let (class, params) = classes.into_only();
            let sorted: bool = class.is_canonical();
            proof {
                assert forall|space: Seq<nat>| classes.within(space) implies color_space(params)
                    == space by {
                    assert(spaces[0] == space);
                }
            }
            BdtNode::Leaf { class, params }
        } else {
            BdtNode::Unprocessed { classes }
        }
    }

    /// Whether the node is a leaf.
    pub fn is_leaf(&self) -> (r: bool)
        ensures
            r == (self@ is Leaf),
    {
        match self {
            BdtNode::Leaf { .. } => true,
            _ => false,
        }
    }

    /// Whether the node is a decision.
    pub fn is_decision(&self) -> (r: bool)
        ensures
            r == (self@ is Decision),
    {
        match self {
            BdtNode::Decision { .. } => true,
            _ => false,
        }
    }

    /// Whether the node is unprocessed.
    pub fn is_unprocessed(&self) -> (r: bool)
        ensures
            r == (self@ is Unprocessed),
    {
        match self {
            BdtNode::Unprocessed { .. } => true,
            _ => false,
        }
    }

    /// The classes of the node with their colours, as a function of its own.
    pub fn classes(&self) -> (r: BifurcationFunction)
        ensures
            r.entries() == match self@ {
                NodeView::Leaf { class, colors } => crate::bifurcation::added(
                    Seq::empty(),
                    class,
                    colors,
                ),
                _ => partition_of(self@),
            },
            forall|space: Seq<nat>|
                self.content_ok(space) ==> r.wf() && r.within(space) && r.entries() == partition_of(
                    self@,
                ),
    {
        match self {
            BdtNode::Leaf { class, params } => {
                let r = BifurcationFunction::single(class.clone(), crate::colors::duplicate(params));
                proof {
                    assert(!crate::bifurcation::has_class(Seq::empty(), class@));
                    assert(Seq::<(Seq<crate::behaviour::Behaviour>, Set<Color>)>::empty().push(
                        (class@, color_set(*params)),
                    ) =~= seq![(class@, color_set(*params))]);
                }
                r
            },
            BdtNode::Decision { classes, .. } => classes.duplicate(),
            BdtNode::Unprocessed { classes } => classes.duplicate(),
        }
    }
}

/// What the arena keeps for a live id: the node and the id of its parent.
pub struct Slot {
    pub(crate) node: BdtNode,
    pub(crate) parent: Option<usize>,
}

/// The tree. Node 0 is the root; a removed id stays empty for good.
pub struct Bdt {
    pub(crate) storage: Vec<Option<Slot>>,
    pub(crate) attributes: Vec<Attribute>,
    pub(crate) precision: Option<u32>,
    pub(crate) space: Ghost<Seq<nat>>,
}

/// The colours that meet and that do not meet each attribute.
pub type AttributeSets = Seq<(Set<Color>, Set<Color>)>;

/// Each decision of the tree splits what its node held: the left child holds
/// the classes of the colours that meet the attribute, the right child those
/// of the colours that do not.
pub open spec fn splits_ok(t: TreeView, attributes: AttributeSets) -> bool {
    forall|i: int| #[trigger]
        t.is_decision(i) ==> {
            let held = partition_of(t.nodes[i].unwrap());
            let a = attributes[t.attribute_of(i)];
            &&& partition_of(t.nodes[t.left_of(i)].unwrap()) == restricted(held, a.0)
            &&& partition_of(t.nodes[t.right_of(i)].unwrap()) == restricted(held, a.1)
        }
}

impl View for Bdt {
    type V = TreeView;

    open(crate) spec fn view(&self) -> TreeView {
        TreeView {
            nodes: Seq::new(
                self.storage@.len(),
                |j: int|
                    match self.storage@[j] {
                        Some(slot) => Some(slot.node@),
                        None => None,
                    },
            ),
            parents: Seq::new(
                self.storage@.len(),
                |j: int|
                    match self.storage@[j] {
                        Some(slot) => match slot.parent {
                            Some(p) => Some(p as int),
                            None => None,
                        },
                        None => None,
                    },
            ),
        }
    }
}

impl Bdt {
    /// The two sets of each attribute.
    pub open(crate) spec fn attribute_sets(&self) -> AttributeSets {
        Seq::new(
            self.attributes@.len(),
            |a: int| (self.attributes@[a].positive(), self.attributes@[a].negative()),
        )
    }

    /// The names of the attributes.
    pub open(crate) spec fn attribute_names(&self) -> Seq<Seq<char>> {
        Seq::new(self.attributes@.len(), |a: int| self.attributes@[a].label())
    }

    /// The encoding that all sets of the tree share.
    pub open(crate) spec fn encoding(&self) -> Seq<nat> {
        self.space@
    }

    /// The precision with which the tree is shown, if one is set.
    pub open(crate) spec fn precision(&self) -> Option<u32> {
        self.precision
    }

    /// The invariant of the type: the nodes form a tree, every node stores
    /// well-formed classes, the attributes are well formed, all sets share
    /// one encoding, and every decision splits what its node held.
    pub open(crate) spec fn wf(&self) -> bool {
        &&& self@.structured(self.attributes@.len() as int)
        &&& forall|j: int|
            0 <= j < self.storage@.len() ==> match #[trigger] self.storage@[j] {
                Some(slot) => slot.node.content_ok(self.space@),
                None => true,
            }
        &&& forall|a: int|
            0 <= a < self.attributes@.len() ==> (#[trigger] self.attributes@[a]).wf()
                && self.attributes@[a].space() == self.space@
        &&& splits_ok(self@, self.attribute_sets())
    }

    /// The tree of one node that holds the given classes, over the given
    /// attributes, with no precision set. The result is nothing where the
    /// sets differ in their encoding.
    pub fn new(classes: BifurcationFunction, attributes: Vec<Attribute>) -> (r: Option<Bdt>)
        requires
            classes.wf(),
            forall|a: int| 0 <= a < attributes@.len() ==> (#[trigger] attributes@[a]).wf(),
        ensures
            match r {
                Some(tree) => {
                    &&& tree.wf()
                    &&& tree@.nodes == seq![Some(node_of(classes.entries()))]
                    &&& tree@.parents == seq![None::<int>]
                    &&& tree.attribute_sets() == Seq::new(
                        attributes@.len(),
                        |a: int| (attributes@[a].positive(), attributes@[a].negative()),
                    )
                    &&& tree.attribute_names() == Seq::new(
                        attributes@.len(),
                        |a: int| attributes@[a].label(),
                    )
                    &&& tree.precision() is None
                },
                None => exists|a: int|
                    0 <= a < attributes@.len() && (!classes.within(
                        (#[trigger] attributes@[a]).space(),
                    ) || attributes@[a].space() != attributes@[0].space()),
            },
    {
        let mut a: usize = 0;
        while a < attributes.len()
            invariant
                a <= attributes.len(),
                classes.wf(),
                forall|b: int|
                    0 <= b < a ==> classes.within((#[trigger] attributes@[b]).space())
                        && attributes@[b].space() == attributes@[0].space(),
            decreases attributes.len() - a,
        {
            if !classes.fits(&attributes[a].positive) {
                return None;
            }
            if !same_encoding(&attributes[0].positive, &attributes[a].positive) {
                return None;
            }
            a += 1;
        }
        let ghost space = if attributes@.len() > 0 {
            attributes@[0].space()
        } else if classes.spaces().len() > 0 {
            classes.spaces()[0]
        } else {
            Seq::empty()
        };
        proof {
            if attributes@.len() > 0 {
                assert(classes.within(attributes@[0].space()));
            }
            assert(classes.within(space));
        }
        let ghost held = classes.entries();
        let root = BdtNode::new(classes);
        let mut storage: Vec<Option<Slot>> = Vec::new();
        storage.push(Some(Slot { node: root, parent: None }));
        let tree = Bdt { storage, attributes, precision: None, space: Ghost(space) };
        proof {
            assert(tree@.nodes =~= seq![Some(node_of(held))]);
            assert(tree@.parents =~= seq![None::<int>]);
            assert(tree.attribute_sets() =~= Seq::new(
                attributes@.len(),
                |a: int| (attributes@[a].positive(), attributes@[a].negative()),
            ));
            assert(tree.attribute_names() =~= Seq::new(
                attributes@.len(),
                |a: int| attributes@[a].label(),
            ));
            assert(!tree@.is_decision(0));
        }
        Some(tree)
    }

    /// The id of the root.
    pub fn root_id(&self) -> (r: BdtNodeId)
        ensures
            r@ == 0,
    {
        BdtNodeId(0)
    }

    /// The number of ids given out so far, removed ones included.
    pub fn capacity(&self) -> (r: usize)
        ensures
            r == self@.nodes.len(),
    {
        self.storage.len()
    }

    /// The number of attributes.
    pub fn attribute_count(&self) -> (r: usize)
        ensures
            r == self.attribute_sets().len(),
    {
        self.attributes.len()
    }

    /// Whether an id names a node of the tree.
    pub fn contains(&self, id: BdtNodeId) -> (r: bool)
        ensures
            r == self@.live(id@),
    {
        id.0 < self.storage.len() && self.storage[id.0].is_some()
    }

    /// The node of an id, if the id names one.
    pub fn node(&self, id: BdtNodeId) -> (r: Option<&BdtNode>)
        ensures
            match r {
                Some(node) => self@.live(id@) && self@.nodes[id@] == Some(node@),
                None => !self@.live(id@),
            },
    {
        if id.0 < self.storage.len() {
            match &self.storage[id.0] {
                Some(slot) => Some(&slot.node),
                None => None,
            }
        } else {
            None
        }
    }

    /// The parent of a node; nothing for the root and for an id that names
    /// no node.
    pub fn parent(&self, id: BdtNodeId) -> (r: Option<BdtNodeId>)
        ensures
            match r {
                Some(p) => p@ == self@.parent_of(id@),
                None => self@.parent_of(id@) == -1,
            },
    {
        if id.0 < self.storage.len() {
            match &self.storage[id.0] {
                Some(slot) => match slot.parent {
                    Some(p) => Some(BdtNodeId(p)),
                    None => None,
                },
                None => None,
            }
        } else {
            None
        }
    }

    /// The attribute of an id, if the id names one.
    pub fn attribute(&self, id: AttributeId) -> (r: Option<&Attribute>)
        ensures
            match r {
                Some(attribute) => id@ < self.attribute_sets().len() && self.attribute_sets()[id@]
                    == (attribute.positive(), attribute.negative()) && self.attribute_names()[id@]
                    == attribute.label(),
                None => id@ >= self.attribute_sets().len(),
            },
    {
        if id.0 < self.attributes.len() {
            Some(&self.attributes[id.0])
        } else {
            None
        }
    }

    /// Sets the precision with which the tree is shown, in hundredths of a
    /// percent. A value above 10000 switches the collapsing of nodes off. The
    /// nodes stay as they are.
    pub fn set_precision(&mut self, precision: u32)
        ensures
            final(self).precision() == if precision <= 10000 {
                Some(precision)
            } else {
                None
            },
            final(self)@ == old(self)@,
            final(self).attribute_sets() == old(self).attribute_sets(),
            final(self).attribute_names() == old(self).attribute_names(),
            final(self).wf() == old(self).wf(),
    {
        if precision <= 10000 {
            self.precision = Some(precision);
        } else {
            self.precision = None;
        }
    }

    /// The precision with which the tree is shown, in hundredths of a
    /// percent; 10000 where none is set.
    pub fn get_precision(&self) -> (r: u32)
        ensures
            r == match self.precision() {
                Some(p) => p,
                None => 10000u32,
            },
    {
        match self.precision {
            Some(p) => p,
            None => 10000,
        }
    }
}

} // verus!
