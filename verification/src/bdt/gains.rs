//! The attributes that can be applied at a node, ranked by their scores.

use crate::bdt::Bdt;
use crate::bdt::BdtNodeId;
use crate::bdt::decide::sides;
use crate::bdt::expand::total;
use crate::bdt::expand::valid_scores;
use crate::bdt::json::class_list_to_json;
use crate::bdt::json::class_views;
use crate::bdt::json::ClassJson;
use crate::bdt::json::ClassList;
use crate::bdt::json::listing;
use crate::bifurcation::BifurcationFunction;
use vstd::prelude::*;

verus! {

/// Whether attribute `a` ranks before attribute `b`: it has the higher
/// score, or the same score and the smaller id.
pub open spec fn ranks_before(scores: Seq<Option<i64>>, a: int, b: int) -> bool {
    scores[a].unwrap() > scores[b].unwrap() || (scores[a].unwrap() == scores[b].unwrap() && a < b)
}

/// Whether a list is the ranking of the attributes that have a score among
/// the first `upto`: it holds each of them, and each entry ranks before
/// those behind it.
pub open spec fn is_ranking(scores: Seq<Option<i64>>, list: Seq<usize>, upto: int) -> bool {
    &&& forall|k: int|
        0 <= k < list.len() ==> 0 <= (#[trigger] list[k]) < upto && scores[list[k] as int] is Some
    &&& forall|k: int, m: int|
        0 <= k < m < list.len() ==> ranks_before(scores, list[k] as int, list[m] as int)
    &&& forall|a: int|
        0 <= a < upto && (#[trigger] scores[a]) is Some ==> exists|k: int|
            0 <= k < list.len() && list[k] == a
}

/// The attributes that have a score, by descending score; of two with the
/// same score the one with the smaller id first.
pub fn rank_attributes(scores: &Vec<Option<i64>>) -> (r: Vec<usize>)
    ensures
        is_ranking(scores@, r@, scores@.len() as int),
{
    let mut out: Vec<usize> = Vec::new();
    let mut a: usize = 0;
    while a < scores.len()
        invariant
            a <= scores@.len(),
            is_ranking(scores@, out@, a as int),
        decreases scores@.len() - a,
    {
        match scores[a] {
            Some(s) => {
                let mut p: usize = 0;
                while p < out.len() && score_of(scores, out[p]) >= s
                    invariant
                        p <= out@.len(),
                        a < scores@.len(),
                        scores@[a as int] == Some(s),
                        is_ranking(scores@, out@, a as int),
                        forall|k: int|
                            0 <= k < p ==> scores@[(#[trigger] out@[k]) as int].unwrap() >= s,
                    decreases out@.len() - p,
                {
                    p += 1;
                }
                let ghost before = out@;
                out.insert(p, a);
                proof {
                    assert forall|k: int| 0 <= k < out@.len() implies 0 <= (#[trigger] out@[k]) < a
                        + 1 && scores@[out@[k] as int] is Some by {
                        if k < p {
                            assert(out@[k] == before[k]);
                        } else if k > p {
                            assert(out@[k] == before[k - 1]);
                        }
                    }
                    assert forall|k: int, m: int| 0 <= k < m < out@.len() implies ranks_before(
                        scores@,
                        out@[k] as int,
                        out@[m] as int,
                    ) by {
                        if m < p {
                            assert(out@[k] == before[k] && out@[m] == before[m]);
                        } else if m == p {
                            assert(out@[k] == before[k]);
                            assert(before[k] < a);
                        } else if k == p {
                            assert(out@[m] == before[m - 1]);
                            if p < before.len() {
                                assert(scores@[before[p as int] as int].unwrap() < s);
                                if m - 1 > p {
                                    assert(ranks_before(
                                        scores@,
                                        before[p as int] as int,
                                        before[m - 1] as int,
                                    ));
                                }
                            }
                        } else if k < p {
                            assert(out@[k] == before[k] && out@[m] == before[m - 1]);
                        } else {
                            assert(out@[k] == before[k - 1] && out@[m] == before[m - 1]);
                        }
                    }
                    assert forall|b: int| 0 <= b < a + 1 && (#[trigger] scores@[b]) is Some implies exists|
                        k: int,
                    |
                        0 <= k < out@.len() && out@[k] == b by {
                        if b == a {
                            assert(out@[p as int] == a);
                        } else {
                            let k = choose|k: int| 0 <= k < before.len() && before[k] == b;
                            if k < p {
                                assert(out@[k] == b);
                            } else {
                                assert(out@[k + 1] == b);
                            }
                        }
                    }
                }
            },
            None => {
                proof {
                    assert forall|b: int| 0 <= b < a + 1 && (#[trigger] scores@[b]) is Some implies exists|
                        k: int,
                    |
                        0 <= k < out@.len() && out@[k] == b by {
                        assert(b < a);
                    }
                }
            },
        }
        a += 1;
    }
    out
}

/// The score of an attribute that has one.
fn score_of(scores: &Vec<Option<i64>>, a: usize) -> (r: i64)
    requires
        a < scores@.len(),
        scores@[a as int] is Some,
    ensures
        r == scores@[a as int].unwrap(),
{
    match scores[a] {
        Some(s) => s,
        None => 0,
    }
}

/// One attribute that can be applied at a node: its id and name, the classes
/// of the two sides, and its score.
pub struct AttributeGainJson {
    pub id: usize,
    pub name: String,
    pub left: Vec<ClassJson>,
    pub right: Vec<ClassJson>,
    pub gain: i64,
}

/// What the record of an attribute is.
pub struct AttributeGainView {
    pub id: int,
    pub name: Seq<char>,
    pub left: ClassList,
    pub right: ClassList,
    pub gain: i64,
}

impl View for AttributeGainJson {
    type V = AttributeGainView;

    open spec fn view(&self) -> AttributeGainView {
        AttributeGainView {
            id: self.id as int,
            name: self.name@,
            left: class_views(self.left@),
            right: class_views(self.right@),
            gain: self.gain,
        }
    }
}

impl Bdt {
    /// Whether the records are those of the given scores at a node: one for
    /// each attribute that has a score, in the order of the ranking, each
    /// with the name of its attribute, the classes of its two sides and its
    /// score.
    pub open spec fn gains_of(
        &self,
        n: int,
        scores: Seq<Option<i64>>,
        records: Seq<AttributeGainJson>,
    ) -> bool {
        &&& is_ranking(
            scores,
            Seq::new(records.len(), |k: int| records[k].id),
            scores.len() as int,
        )
        &&& forall|k: int|
            0 <= k < records.len() ==> (#[trigger] records[k])@ == (AttributeGainView {
                id: records[k].id as int,
                name: self.attribute_names()[records[k].id as int],
                left: listing(sides(self@, self.attribute_sets(), n, records[k].id as int).0),
                right: listing(sides(self@, self.attribute_sets(), n, records[k].id as int).1),
                gain: scores[records[k].id as int].unwrap(),
            })
    }

    /// The attributes that can be applied at a node, each with the classes
    /// of its two sides and the score that the scoring function gives it,
    /// by descending score. The list is empty where the id names no node.
    pub fn attribute_gains_json<
        F: Fn(&BifurcationFunction, &BifurcationFunction, &BifurcationFunction) -> i64,
    >(&self, id: BdtNodeId, scorer: &F) -> (r: Vec<AttributeGainJson>)
        requires
            self.wf(),
            total(scorer),
        ensures
            !self@.live(id@) ==> r@.len() == 0,
            self@.live(id@) ==> exists|scores: Seq<Option<i64>>| #[trigger]
                valid_scores(scorer, self@, self.attribute_sets(), id@, scores) && self.gains_of(
                    id@,
                    scores,
                    r@,
                ),
    {
        let mut out: Vec<AttributeGainJson> = Vec::new();
        if !self.contains(id) {
            return out;
        }
        let ghost t = self@;
        let ghost sets = self.attribute_sets();
        let ghost n = id@;
        proof {
            assert(self.storage@[n].unwrap().node.content_ok(self.space@));
        }
        let held: BifurcationFunction = match &self.storage[id.0] {
            Some(slot) => slot.node.classes(),
            None => BifurcationFunction::new(),
        };
        let scores = self.score_attributes(id, scorer);
        let order = rank_attributes(&scores);
        let mut k: usize = 0;
        while k < order.len()
            invariant
                k <= order@.len(),
                self.wf(),
                t == self@,
                sets == self.attribute_sets(),
                t.live(n),
                held.wf(),
                held.within(self.space@),
                held.entries() == crate::bdt::view::partition_of(t.nodes[n].unwrap()),
                scores@.len() == self.attributes@.len(),
                is_ranking(scores@, order@, scores@.len() as int),
                out@.len() == k,
                forall|i: int|
                    0 <= i < k ==> (#[trigger] out@[i]).id == order@[i] && out@[i]@ == (
                    AttributeGainView {
                        id: order@[i] as int,
                        name: self.attribute_names()[order@[i] as int],
                        left: listing(sides(t, sets, n, order@[i] as int).0),
                        right: listing(sides(t, sets, n, order@[i] as int).1),
                        gain: scores@[order@[i] as int].unwrap(),
                    }),
            decreases order@.len() - k,
        {
            let a: usize = order[k];
            proof {
                assert(0 <= order@[k as int] < scores@.len());
                assert(self.attributes@[a as int].wf());
                assert(sets[a as int] == (
                    self.attributes@[a as int].positive(),
                    self.attributes@[a as int].negative(),
                ));
            }
            let (left, right) = self.attributes[a].split(&held);
            let record = AttributeGainJson {
                id: a,
                name: self.attributes[a].name.clone(),
                left: class_list_to_json(&left),
                right: class_list_to_json(&right),
                gain: score_of(&scores, a),
            };
            out.push(record);
            k += 1;
        }
        proof {
            assert(Seq::new(out@.len(), |k: int| out@[k].id) =~= order@);
            assert(self.gains_of(n, scores@, out@));
        }
        out
    }
}

} // verus!
