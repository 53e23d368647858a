//! What a finished computation hands on: a summary of the classes found, and
//! the data from which a decision tree is built.

use crate::bdt::Attribute;
use crate::bdt::Bdt;
use crate::bdt::view::node_of;
use crate::behaviour::Behaviour;
use crate::bifurcation::added;
use crate::bifurcation::BifurcationFunction;
use crate::bifurcation::Entries;
use crate::class::Class;
use crate::classifier::Classifier;
use crate::colors::Color;
use crate::colors::color_set;
use crate::colors::color_space;
use crate::colors::duplicate;
use crate::colors::same_encoding;
use crate::mass::Mass;
use crate::progress::GraphTaskContext;
use crate::progress::percent_text;
use crate::progress::progress_of;
use biodivine_lib_param_bn::symbolic_async_graph::GraphColors;
use vstd::prelude::*;

verus! {

/// One class of the result with the number of its colours.
pub struct ResultsSummaryRow {
    pub sat_count: Mass,
    pub phenotype: Vec<Behaviour>,
}

/// The state of a computation: whether it is finished, its progress as a
/// percentage, the classes found so far, and the time taken in milliseconds.
pub struct ResultsSummary {
    pub is_finished: bool,
    pub progress: String,
    pub data: Vec<ResultsSummaryRow>,
    pub elapsed: u64,
}

/// The rows of a summary: each class with the number of its colours.
pub open spec fn summary_rows(e: Entries) -> Seq<(nat, Seq<Behaviour>)> {
    Seq::new(e.len(), |i: int| (e[i].1.len(), e[i].0))
}

/// The summary of a computation: each class of the classifier once, with the
/// number of its colours, the progress of the task, and the time taken.
pub fn get_results(classifier: &Classifier, task: &GraphTaskContext, elapsed: u64) -> (r:
    ResultsSummary)
    requires
        classifier.wf(),
    ensures
        r.elapsed == elapsed,
        r.is_finished == (task.tracker().remaining() == 0),
        r.progress@ == percent_text(
            progress_of(task.tracker().total(), task.tracker().remaining()),
        ),
        exists|e: Entries|
            crate::bifurcation::distinct_classes(e) && crate::bifurcation::map_of(e)
                == classifier.partition() && Seq::new(
                r.data@.len(),
                |i: int| (r.data@[i].sat_count@, r.data@[i].phenotype@),
            ) == #[trigger] summary_rows(e),
{
    let classes = classifier.export_result();
    let ghost e = classes.entries();
    let mut data: Vec<ResultsSummaryRow> = Vec::new();
    let mut i: usize = 0;
    while i < classes.len()
        invariant
            i <= e.len(),
            e == classes.entries(),
            data@.len() == i,
            forall|k: int|
                0 <= k < i ==> (#[trigger] data@[k]).sat_count@ == e[k].1.len()
                    && data@[k].phenotype@ == e[k].0,
        decreases e.len() - i,
    {
        data.push(
            ResultsSummaryRow {
                sat_count: classes.cardinality_at(i),
                phenotype: classes.class_at(i).get_vector(),
            },
        );
        i += 1;
    }
    let progress = task.progress();
    let r = ResultsSummary {
        is_finished: progress.is_finished(),
        progress: progress.get_percent_string(),
        data,
        elapsed,
    };
    proof {
        assert(Seq::new(r.data@.len(), |i: int| (r.data@[i].sat_count@, r.data@[i].phenotype@))
            =~= summary_rows(e));
    }
    r
}

/// A copy of the given bytes.
fn copy_bytes(bytes: &Vec<u8>) -> (r: Vec<u8>)
    ensures
        r@ == bytes@,
{
    let mut out: Vec<u8> = Vec::new();
    let mut i: usize = 0;
    while i < bytes.len()
        invariant
            i <= bytes@.len(),
            out@ == bytes@.subrange(0, i as int),
        decreases bytes@.len() - i,
    {
        out.push(bytes[i]);
        proof {
            assert(out@ =~= bytes@.subrange(0, i + 1));
        }
        i += 1;
    }
    proof {
        assert(out@ =~= bytes@);
    }
    out
}

/// The data that a finished computation hands on: the text of the network,
/// and each class of the classifier, in the order in which the classifier
/// exports them, with the bytes given for its colours. The result is
/// nothing where there is not one list of bytes for each class.
pub fn get_tree_data(classifier: &Classifier, network: String, encoded: &Vec<Vec<u8>>) -> (r:
    Option<TreeData>)
    requires
        classifier.wf(),
    ensures
        match r {
            Some(data) => {
                &&& encoded@.len() == classifier.stored().len()
                &&& data.network_text() == network@
                &&& data.classes() == Seq::new(
                    encoded@.len(),
                    |i: int| classifier.stored()[i].0,
                )
                &&& data.bytes() == Seq::new(encoded@.len(), |i: int| encoded@[i]@)
            },
            None => encoded@.len() != classifier.stored().len(),
        },
{
    let classes = classifier.export_result();
    if encoded.len() != classes.len() {
        return None;
    }
    let mut data: Vec<(Class, Vec<u8>)> = Vec::new();
    let mut i: usize = 0;
    while i < classes.len()
        invariant
            i <= classes.entries().len(),
            encoded@.len() == classes.entries().len(),
            data@.len() == i,
            forall|k: int|
                0 <= k < i ==> (#[trigger] data@[k]).0@ == classes.entries()[k].0 && data@[k].1@
                    == encoded@[k]@,
        decreases classes.entries().len() - i,
    {
        data.push((classes.class_at(i).clone(), copy_bytes(&encoded[i])));
        i += 1;
    }
    let r = TreeData { network, data };
    proof {
        assert(r.classes() =~= Seq::new(encoded@.len(), |i: int| classifier.stored()[i].0));
        assert(r.bytes() =~= Seq::new(encoded@.len(), |i: int| encoded@[i]@));
    }
    Some(r)
}

/// The data from which a decision tree is built: the network as text, and
/// each class of the result with its colours as bytes.
pub struct TreeData {
    network: String,
    data: Vec<(Class, Vec<u8>)>,
}

/// Why no tree was built.
#[derive(Clone, Copy, Debug, PartialEq, Eq, Structural)]
pub enum BuildError {
    /// There is not one set of colours for each class.
    LengthMismatch,
    /// The sets of colours differ in their encoding.
    EncodingMismatch,
}

/// The entries that the first `upto` classes make with their colours.
pub open spec fn assembled(
    classes: Seq<Seq<Behaviour>>,
    sets: Seq<Set<Color>>,
    upto: int,
) -> Entries
    decreases upto,
{
    if upto <= 0 {
        Seq::empty()
    } else {
        added(assembled(classes, sets, upto - 1), classes[upto - 1], sets[upto - 1])
    }
}

/// Whether all sets of colours and all attributes share one encoding.
pub open spec fn uniform(decoded: Seq<GraphColors>, attributes: Seq<Attribute>) -> bool {
    &&& forall|i: int|
        0 <= i < decoded.len() ==> color_space(#[trigger] decoded[i]) == color_space(decoded[0])
    &&& forall|a: int|
        0 <= a < attributes.len() ==> (#[trigger] attributes[a]).space() == attributes[0].space()
    &&& decoded.len() > 0 && attributes.len() > 0 ==> attributes[0].space() == color_space(
        decoded[0],
    )
}

impl TreeData {
    /// The text of the network.
    pub closed spec fn network_text(&self) -> Seq<char> {
        self.network@
    }

    /// The classes, in the order in which they are stored.
    pub closed spec fn classes(&self) -> Seq<Seq<Behaviour>> {
        Seq::new(self.data@.len(), |i: int| self.data@[i].0@)
    }

    /// The bytes of the colours of each class.
    pub closed spec fn bytes(&self) -> Seq<Seq<u8>> {
        Seq::new(self.data@.len(), |i: int| self.data@[i].1@)
    }

    /// The data of a network and the classes found for it.
    pub fn new(network: String, data: Vec<(Class, Vec<u8>)>) -> (r: TreeData)
        ensures
            r.network_text() == network@,
            r.classes() == Seq::new(data@.len(), |i: int| data@[i].0@),
            r.bytes() == Seq::new(data@.len(), |i: int| data@[i].1@),
    {
        TreeData { network, data }
    }

    /// The text of the network.
    pub fn network(&self) -> (r: &String)
        ensures
            r@ == self.network_text(),
    {
        &self.network
    }

    /// The number of classes.
    pub fn len(&self) -> (r: usize)
        ensures
            r == self.classes().len(),
    {
        self.data.len()
    }

    /// The class of an entry.
    pub fn class_at(&self, index: usize) -> (r: &Class)
        requires
            index < self.classes().len(),
        ensures
            r@ == self.classes()[index as int],
    {
        &self.data[index].0
    }

    /// The bytes of the colours of an entry.
    pub fn bytes_at(&self, index: usize) -> (r: &Vec<u8>)
        requires
            index < self.classes().len(),
        ensures
            r@ == self.bytes()[index as int],
    {
        &self.data[index].1
    }

    /// The tree of one node that holds the classes of the data with the
    /// given colours, one set for each class in the order of the data, over
    /// the given attributes.
    pub fn build_tree(&self, decoded: &Vec<GraphColors>, attributes: Vec<Attribute>) -> (r: Result<
        Bdt,
        BuildError,
    >)
        requires
            forall|a: int| 0 <= a < attributes@.len() ==> (#[trigger] attributes@[a]).wf(),
        ensures
            match r {
                Ok(tree) => {
                    &&& decoded@.len() == self.classes().len()
                    &&& uniform(decoded@, attributes@)
                    &&& tree.wf()
                    &&& tree@.nodes == seq![
                        Some(
                            node_of(
                                assembled(
                                    self.classes(),
                                    Seq::new(decoded@.len(), |i: int| color_set(decoded@[i])),
                                    decoded@.len() as int,
                                ),
                            ),
                        ),
                    ]
                    &&& tree@.parents == seq![None::<int>]
                    &&& tree.attribute_sets() == Seq::new(
                        attributes@.len(),
                        |a: int| (attributes@[a].positive(), attributes@[a].negative()),
                    )
                    &&& tree.attribute_names() == Seq::new(
                        attributes@.len(),
                        |a: int| attributes@[a].label(),
                    )
                    &&& tree.precision() is None
                },
                Err(BuildError::LengthMismatch) => decoded@.len() != self.classes().len(),
                Err(BuildError::EncodingMismatch) => decoded@.len() == self.classes().len()
                    && !uniform(decoded@, attributes@),
            },
    {
        if decoded.len() != self.data.len() {
            return Err(BuildError::LengthMismatch);
        }
        let ghost sets = Seq::new(decoded@.len(), |i: int| color_set(decoded@[i]));
        let mut classes = BifurcationFunction::new();
        let mut i: usize = 0;
        while i < decoded.len()
            invariant
                i <= decoded@.len(),
                decoded@.len() == self.data@.len(),
                sets == Seq::new(decoded@.len(), |i: int| color_set(decoded@[i])),
                classes.wf(),
                forall|k: int|
                    0 <= k < i ==> color_space(#[trigger] decoded@[k]) == color_space(decoded@[0]),
                i > 0 ==> classes.within(color_space(decoded@[0])),
                classes.entries() == assembled(self.classes(), sets, i as int),
            decreases decoded@.len() - i,
        {
            if !same_encoding(&decoded[0], &decoded[i]) {
                return Err(BuildError::EncodingMismatch);
            }
            proof {
                if i == 0 {
                    assert(classes.entries().len() == 0);
                }
                assert(classes.within(color_space(decoded@[i as int])));
            }
            classes.add(self.data[i].0.clone(), duplicate(&decoded[i]));
            i += 1;
        }
        let mut a: usize = 0;
        proof {
            assert(decoded@.len() == self.classes().len());
        }
        while a < attributes.len()
            invariant
                a <= attributes@.len(),
                decoded@.len() == self.classes().len(),
                forall|b: int|
                    0 <= b < a ==> (#[trigger] attributes@[b]).space() == attributes@[0].space(),
                decoded@.len() > 0 && a > 0 ==> attributes@[0].space() == color_space(decoded@[0]),
            decreases attributes@.len() - a,
        {
            if !same_encoding(&attributes[0].positive, &attributes[a].positive) {
                proof {
                    assert(attributes@[a as int].space() != attributes@[0].space());
                }
                return Err(BuildError::EncodingMismatch);
            }
            if decoded.len() > 0 {
                if !same_encoding(&attributes[a].positive, &decoded[0]) {
                    proof {
                        assert(attributes@[a as int].space() == attributes@[0].space());
                        assert(attributes@[0].space() != color_space(decoded@[0]));
                    }
                    return Err(BuildError::EncodingMismatch);
                }
            }
            a += 1;
        }
        proof {
            assert forall|b: int| 0 <= b < attributes@.len() implies classes.within(
                (#[trigger] attributes@[b]).space(),
            ) by {
                if decoded@.len() == 0 {
                    assert(classes.entries().len() == 0);
                }
            }
        }
        match Bdt::new(classes, attributes) {
            Some(tree) => Ok(tree),
            None => Err(BuildError::EncodingMismatch),
        }
    }
}

} // verus!
