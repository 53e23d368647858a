//! What the tree shows of itself: records for its nodes, with nodes that one
//! class dominates shown as leaves.

use crate::bdt::Bdt;
use crate::bdt::BdtNode;
use crate::bdt::BdtNodeId;
use crate::bdt::expand::ids_of;
use crate::bdt::majority::get_majority_class;
use crate::bdt::majority::majority;
use crate::bdt::view::NodeView;
use crate::bdt::view::partition_of;
use crate::bdt::view::TreeView;
use crate::behaviour::Behaviour;
use crate::bifurcation::BifurcationFunction;
use crate::bifurcation::Entries;
use crate::bifurcation::total_mass;
use crate::class::Class;
use crate::mass::Mass;
use vstd::prelude::*;

verus! {

/// One class of a node with the number of its colours.
pub struct ClassJson {
    pub cardinality: Mass,
    pub class: Class,
}

/// The record of one node. Its cardinality is the number of all colours of
/// the node, over all its classes.
pub enum NodeJson {
    /// A leaf, or a node shown as one because a class has the majority;
    /// `all_classes` then lists what the node holds.
    Leaf { id: Option<usize>, cardinality: Mass, class: Class, all_classes: Option<Vec<ClassJson>> },
    /// An unprocessed node.
    Unprocessed { id: Option<usize>, cardinality: Mass, classes: Vec<ClassJson> },
    /// A decision.
    Decision {
        id: Option<usize>,
        cardinality: Mass,
        classes: Vec<ClassJson>,
        attribute_id: usize,
        attribute_name: Option<String>,
        left: usize,
        right: usize,
    },
}

/// What a list of classes is: each class with the number of its colours.
pub type ClassList = Seq<(nat, Seq<Behaviour>)>;

/// What the record of a node is.
pub enum NodeJsonView {
    Leaf { id: Option<int>, cardinality: nat, class: Seq<Behaviour>, all_classes: Option<ClassList> },
    Unprocessed { id: Option<int>, cardinality: nat, classes: ClassList },
    Decision {
        id: Option<int>,
        cardinality: nat,
        classes: ClassList,
        attribute_id: int,
        attribute_name: Option<Seq<char>>,
        left: int,
        right: int,
    },
}

/// The list of the given classes, in their order.
pub open spec fn listing(e: Entries) -> ClassList {
    Seq::new(e.len(), |i: int| (e[i].1.len(), e[i].0))
}

/// The record of a node at a precision, without an id and without the name
/// of its attribute. A leaf is shown as it is; another node is shown as a
/// leaf of its majority class if it has one, and as it is if not. Every
/// record carries the number of all colours of its node: a node shown as a
/// leaf gives them all to its majority class.
pub open spec fn rendered(node: NodeView, precision: Option<u32>) -> NodeJsonView {
    match node {
        NodeView::Leaf { class, colors } => NodeJsonView::Leaf {
            id: None,
            cardinality: colors.len(),
            class,
            all_classes: None,
        },
        NodeView::Unprocessed { classes } => match majority(classes, precision) {
            Some(i) => NodeJsonView::Leaf {
                id: None,
                cardinality: total_mass(classes),
                class: classes[i].0,
                all_classes: Some(listing(classes)),
            },
            None => NodeJsonView::Unprocessed {
                id: None,
                cardinality: total_mass(classes),
                classes: listing(classes),
            },
        },
        NodeView::Decision { attribute, left, right, classes } => match majority(
            classes,
            precision,
        ) {
            Some(i) => NodeJsonView::Leaf {
                id: None,
                cardinality: total_mass(classes),
                class: classes[i].0,
                all_classes: Some(listing(classes)),
            },
            None => NodeJsonView::Decision {
                id: None,
                cardinality: total_mass(classes),
                classes: listing(classes),
                attribute_id: attribute,
                attribute_name: None,
                left,
                right,
            },
        },
    }
}

/// The number of colours that a record carries.
pub open spec fn cardinality_of(record: NodeJsonView) -> nat {
    match record {
        NodeJsonView::Leaf { cardinality, .. } => cardinality,
        NodeJsonView::Unprocessed { cardinality, .. } => cardinality,
        NodeJsonView::Decision { cardinality, .. } => cardinality,
    }
}

/// A record with the id of its node and, for a decision, the name of its
/// attribute.
pub open spec fn labelled_record(
    record: NodeJsonView,
    id: int,
    names: Seq<Seq<char>>,
) -> NodeJsonView {
    match record {
        NodeJsonView::Leaf { cardinality, class, all_classes, .. } => NodeJsonView::Leaf {
            id: Some(id),
            cardinality,
            class,
            all_classes,
        },
        NodeJsonView::Unprocessed { cardinality, classes, .. } => NodeJsonView::Unprocessed {
            id: Some(id),
            cardinality,
            classes,
        },
        NodeJsonView::Decision {
            cardinality,
            classes,
            attribute_id,
            left,
            right,
            ..
        } => NodeJsonView::Decision {
            id: Some(id),
            cardinality,
            classes,
            attribute_id,
            attribute_name: Some(names[attribute_id]),
            left,
            right,
        },
    }
}

impl View for ClassJson {
    type V = (nat, Seq<Behaviour>);

    open spec fn view(&self) -> (nat, Seq<Behaviour>) {
        (self.cardinality@, self.class@)
    }
}

/// The views of a list of classes.
pub open spec fn class_views(list: Seq<ClassJson>) -> ClassList {
    Seq::new(list.len(), |i: int| list[i]@)
}

/// The view of an id, if there is one.
pub open spec fn id_view(id: Option<usize>) -> Option<int> {
    match id {
        Some(i) => Some(i as int),
        None => None,
    }
}

impl View for NodeJson {
    type V = NodeJsonView;

    open spec fn view(&self) -> NodeJsonView {
        match self {
            NodeJson::Leaf { id, cardinality, class, all_classes } => NodeJsonView::Leaf {
                id: id_view(*id),
                cardinality: cardinality@,
                class: class@,
                all_classes: match all_classes {
                    Some(list) => Some(class_views(list@)),
                    None => None,
                },
            },
            NodeJson::Unprocessed { id, cardinality, classes } => NodeJsonView::Unprocessed {
                id: id_view(*id),
                cardinality: cardinality@,
                classes: class_views(classes@),
            },
            NodeJson::Decision {
                id,
                cardinality,
                classes,
                attribute_id,
                attribute_name,
                left,
                right,
            } => NodeJsonView::Decision {
                id: id_view(*id),
                cardinality: cardinality@,
                classes: class_views(classes@),
                attribute_id: *attribute_id as int,
                attribute_name: match attribute_name {
                    Some(name) => Some(name@),
                    None => None,
                },
                left: *left as int,
                right: *right as int,
            },
        }
    }
}

/// The record of one class with its colours.
pub fn class_to_json(classes: &BifurcationFunction, index: usize) -> (r: ClassJson)
    requires
        index < classes.entries().len(),
    ensures
        r@ == listing(classes.entries())[index as int],
{
    ClassJson {
        cardinality: classes.cardinality_at(index),
        class: classes.class_at(index).clone(),
    }
}

/// The records of the classes of a function, in their order.
pub fn class_list_to_json(classes: &BifurcationFunction) -> (r: Vec<ClassJson>)
    ensures
        class_views(r@) == listing(classes.entries()),
{
    let mut list: Vec<ClassJson> = Vec::new();
    let mut i: usize = 0;
    while i < classes.len()
        invariant
            i <= classes.entries().len(),
            list@.len() == i,
            forall|k: int| 0 <= k < i ==> (#[trigger] list@[k])@ == listing(classes.entries())[k],
        decreases classes.entries().len() - i,
    {
        list.push(class_to_json(classes, i));
        i += 1;
    }
    proof {
        assert(class_views(list@) =~= listing(classes.entries()));
    }
    list
}

/// The record of classes shown as a leaf of the class at `index`: the class
/// gets all colours of the classes.
fn collapsed(classes: &BifurcationFunction, index: usize) -> (r: NodeJson)
    requires
        index < classes.entries().len(),
    ensures
        r@ == (NodeJsonView::Leaf {
            id: None,
            cardinality: total_mass(classes.entries()),
            class: classes.entries()[index as int].0,
            all_classes: Some(listing(classes.entries())),
        }),
{
    NodeJson::Leaf {
        id: None,
        cardinality: classes.total_cardinality(),
        class: classes.class_at(index).clone(),
        all_classes: Some(class_list_to_json(classes)),
    }
}

impl BdtNode {
    /// The record of the node at a precision, without an id.
    pub fn to_json(&self, precision: Option<u32>) -> (r: NodeJson)
        ensures
            r@ == rendered(self@, precision),
    {
        match self {
            BdtNode::Leaf { class, params } => NodeJson::Leaf {
                id: None,
                cardinality: Mass::from_digits(crate::colors::cardinality(params)),
                class: class.clone(),
                all_classes: None,
            },
            BdtNode::Unprocessed { classes } => match get_majority_class(classes, precision) {
                Some(i) => collapsed(classes, i),
                None => NodeJson::Unprocessed {
                    id: None,
                    cardinality: classes.total_cardinality(),
                    classes: class_list_to_json(classes),
                },
            },
            BdtNode::Decision { attribute, left, right, classes } => match get_majority_class(
                classes,
                precision,
            ) {
                Some(i) => collapsed(classes, i),
                None => NodeJson::Decision {
                    id: None,
                    cardinality: classes.total_cardinality(),
                    classes: class_list_to_json(classes),
                    attribute_id: attribute.0,
                    attribute_name: None,
                    left: left.0,
                    right: right.0,
                },
            },
        }
    }
}

/// Whether a node is shown as a decision at a precision.
pub open spec fn expanded(t: TreeView, precision: Option<u32>, p: int) -> bool {
    t.is_decision(p) && majority(partition_of(t.nodes[p].unwrap()), precision) is None
}

/// Whether a node is shown at all: the root is, and so is a node whose
/// parent is shown as a decision.
pub open spec fn shown(t: TreeView, precision: Option<u32>, j: int) -> bool
    decreases j,
{
    j == 0 || (t.live(j) && 0 <= t.parent_of(j) < j && shown(t, precision, t.parent_of(j))
        && expanded(t, precision, t.parent_of(j)))
}

/// The record of a node of the tree, with its id and the name of its attribute.
pub open spec fn record(
    t: TreeView,
    names: Seq<Seq<char>>,
    precision: Option<u32>,
    j: int,
) -> NodeJsonView {
    labelled_record(rendered(t.nodes[j].unwrap(), precision), j, names)
}

/// The records of the nodes among the first `upto` ids that are shown and
/// wanted, by ascending id.
pub open spec fn export(
    t: TreeView,
    names: Seq<Seq<char>>,
    precision: Option<u32>,
    wanted: Set<int>,
    upto: int,
) -> Seq<NodeJsonView>
    decreases upto,
{
    if upto <= 0 {
        Seq::empty()
    } else {
        let rest = export(t, names, precision, wanted, upto - 1);
        if t.live(upto - 1) && shown(t, precision, upto - 1) && wanted.contains(upto - 1) {
            rest.push(record(t, names, precision, upto - 1))
        } else {
            rest
        }
    }
}

/// Where no id is wanted, no record is given.
pub proof fn lemma_export_nothing(
    t: TreeView,
    names: Seq<Seq<char>>,
    precision: Option<u32>,
    wanted: Set<int>,
    upto: int,
)
    requires
        forall|j: int| !wanted.contains(j),
    ensures
        export(t, names, precision, wanted, upto) == Seq::<NodeJsonView>::empty(),
    decreases upto,
{
    if upto > 0 {
        lemma_export_nothing(t, names, precision, wanted, upto - 1);
    }
}

/// The views of a list of records.
pub open spec fn record_views(list: Seq<NodeJson>) -> Seq<NodeJsonView> {
    Seq::new(list.len(), |i: int| list[i]@)
}

impl Bdt {
    /// The record of a node with its id and, for a decision, the name of its
    /// attribute; nothing where the id names no node.
    pub fn node_to_json(&self, id: BdtNodeId) -> (r: Option<NodeJson>)
        requires
            self.wf(),
        ensures
            match r {
                Some(json) => self@.live(id@) && json@ == record(
                    self@,
                    self.attribute_names(),
                    self.precision(),
                    id@,
                ),
                None => !self@.live(id@),
            },
    {
        let n: usize = id.0;
        let node: &BdtNode = match self.node(id) {
            Some(node) => node,
            None => {
                return None;
            },
        };
        proof {
            if self@.is_decision(n as int) {
                assert(self@.decision_ok(n as int, self.attributes@.len() as int));
            }
        }
        let plain = node.to_json(self.precision);
        let json = match plain {
            NodeJson::Leaf { cardinality, class, all_classes, .. } => NodeJson::Leaf {
                id: Some(n),
                cardinality,
                class,
                all_classes,
            },
            NodeJson::Unprocessed { cardinality, classes, .. } => NodeJson::Unprocessed {
                id: Some(n),
                cardinality,
                classes,
            },
            NodeJson::Decision { cardinality, classes, attribute_id, left, right, .. } => {
                let name: Option<String> = if attribute_id < self.attributes.len() {
                    Some(self.attributes[attribute_id].name.clone())
                } else {
                    None
                };
                NodeJson::Decision {
                    id: Some(n),
                    cardinality,
                    classes,
                    attribute_id,
                    attribute_name: name,
                    left,
                    right,
                }
            },
        };
        Some(json)
    }

    /// The records of the given nodes, in the given order.
    pub fn nodes_to_json(&self, ids: &Vec<BdtNodeId>) -> (r: Vec<NodeJson>)
        requires
            self.wf(),
            forall|k: int| 0 <= k < ids@.len() ==> self@.live(#[trigger] ids@[k]@),
        ensures
            record_views(r@) == Seq::new(
                ids@.len(),
                |k: int| record(self@, self.attribute_names(), self.precision(), ids@[k]@),
            ),
    {
        let mut out: Vec<NodeJson> = Vec::new();
        let mut k: usize = 0;
        while k < ids.len()
            invariant
                k <= ids@.len(),
                self.wf(),
                forall|i: int| 0 <= i < ids@.len() ==> self@.live(#[trigger] ids@[i]@),
                out@.len() == k,
                forall|i: int|
                    0 <= i < k ==> (#[trigger] out@[i])@ == record(
                        self@,
                        self.attribute_names(),
                        self.precision(),
                        ids@[i]@,
                    ),
            decreases ids@.len() - k,
        {
            proof {
                assert(self@.live(ids@[k as int]@));
            }
            match self.node_to_json(ids[k]) {
                Some(json) => {
                    out.push(json);
                },
                None => {},
            }
            k += 1;
        }
        proof {
            assert(record_views(out@) =~= Seq::new(
                ids@.len(),
                |k: int| record(self@, self.attribute_names(), self.precision(), ids@[k]@),
            ));
        }
        out
    }

    /// The records of the nodes that are shown and, where ids are given, are
    /// among them.
    fn export_where(&self, ids: Option<&Vec<BdtNodeId>>) -> (r: Vec<NodeJson>)
        requires
            self.wf(),
        ensures
            record_views(r@) == export(
                self@,
                self.attribute_names(),
                self.precision(),
                match ids {
                    Some(list) => ids_of(list@).to_set(),
                    None => Set::full(),
                },
                self@.nodes.len() as int,
            ),
    {
        let ghost t = self@;
        let ghost names = self.attribute_names();
        let ghost precision = self.precision();
        let ghost wanted: Set<int> = match ids {
            Some(list) => ids_of(list@).to_set(),
            None => Set::full(),
        };
        let mut open: Vec<bool> = Vec::new();
        let mut out: Vec<NodeJson> = Vec::new();
        let mut j: usize = 0;
        while j < self.storage.len()
            invariant
                j <= self.storage@.len(),
                self.wf(),
                t == self@,
                names == self.attribute_names(),
                precision == self.precision(),
                wanted == match ids {
                    Some(list) => ids_of(list@).to_set(),
                    None => Set::<int>::full(),
                },
                open@.len() == j,
                forall|k: int|
                    0 <= k < j ==> #[trigger] open@[k] == (t.live(k) && shown(t, precision, k)
                        && expanded(t, precision, k)),
                record_views(out@) == export(t, names, precision, wanted, j as int),
            decreases self.storage@.len() - j,
        {
            let parent: Option<usize> = match &self.storage[j] {
                Some(slot) => slot.parent,
                None => None,
            };
            let live: bool = self.storage[j].is_some();
            let visible: bool = live && (j == 0 || match parent {
                Some(p) => p < j && open[p],
                None => false,
            });
            proof {
                if live && j > 0 {
                    assert(t.live(j as int));
                    assert(t.child_ok(j as int));
                }
                assert(visible == (t.live(j as int) && shown(t, precision, j as int)));
            }
            let mut is_open: bool = false;
            if visible {
                match self.node_to_json(BdtNodeId(j)) {
                    Some(json) => {
                        is_open = match &json {
                            NodeJson::Decision { .. } => true,
                            _ => false,
                        };
                        let take: bool = match ids {
                            Some(list) => Self::listed(list, j),
                            None => true,
                        };
                        if take {
                            let ghost before = record_views(out@);
                            out.push(json);
                            proof {
                                assert(record_views(out@) =~= before.push(
                                    record(t, names, precision, j as int),
                                ));
                            }
                        }
                    },
                    None => {},
                }
            }
            open.push(is_open);
            j += 1;
        }
        out
    }

    /// The records of all nodes that are shown at the precision of the tree,
    /// by ascending id.
    pub fn to_json(&self) -> (r: Vec<NodeJson>)
        requires
            self.wf(),
        ensures
            record_views(r@) == export(
                self@,
                self.attribute_names(),
                self.precision(),
                Set::full(),
                self@.nodes.len() as int,
            ),
    {
        self.export_where(None)
    }

    /// The records of the nodes that are shown at the precision of the tree
    /// and whose id is among the given ones, by ascending id.
    pub fn to_json_partial(&self, ids: &Vec<BdtNodeId>) -> (r: Vec<NodeJson>)
        requires
            self.wf(),
        ensures
            record_views(r@) == export(
                self@,
                self.attribute_names(),
                self.precision(),
                ids_of(ids@).to_set(),
                self@.nodes.len() as int,
            ),
    {
        self.export_where(Some(ids))
    }
}

} // verus!
