//! Symbolic colour sets.
//!
//! A colour is one valuation of the parameters of a Boolean network. Sets of
//! colours are held symbolically by `GraphColors` of `biodivine_lib_param_bn`,
//! as decision diagrams that constrain the parameter variables only, which
//! is what the documentation of that type says of its values.
//!
//! The items marked `external_body` here are not proved: each states what the
//! library assumes of one operation of that type. All else in the library is
//! proved from them.

use crate::mass::value_of;
use biodivine_lib_param_bn::biodivine_std::traits::Set as SymbolicSet;
use biodivine_lib_param_bn::symbolic_async_graph::GraphColoredVertices;
use biodivine_lib_param_bn::symbolic_async_graph::GraphColors;
use vstd::prelude::*;

verus! {

/// `biodivine_lib_param_bn::symbolic_async_graph::GraphColors`, opaque to the verifier.
#[verifier::external_type_specification]
#[verifier::external_body]
pub struct ExGraphColors(biodivine_lib_param_bn::symbolic_async_graph::GraphColors);

/// `biodivine_lib_param_bn::symbolic_async_graph::GraphColoredVertices`, opaque
/// to the verifier: the library only keeps such values.
#[verifier::external_type_specification]
#[verifier::external_body]
pub struct ExGraphColoredVertices(
    biodivine_lib_param_bn::symbolic_async_graph::GraphColoredVertices,
);

/// One colour: the values of the parameter variables, in the order of the encoding.
pub type Color = Seq<bool>;

/// The colours that a symbolic set holds.
pub uninterp spec fn color_set(colors: GraphColors) -> Set<Seq<bool>>;

/// The encoding a symbolic set was made with: the number of decision-diagram
/// variables, followed by the positions of the parameter variables among them.
/// Binary operations are defined between sets of one encoding only.
pub uninterp spec fn color_space(colors: GraphColors) -> Seq<nat>;

/// The pairs of a state and a colour that a symbolic set of coloured vertices
/// holds: the values of the state variables and of the parameter variables.
pub uninterp spec fn colored_vertex_set(set: GraphColoredVertices) -> Set<(Seq<bool>, Seq<bool>)>;

/// The number of colours in a set.
pub open spec fn mass(colors: GraphColors) -> nat {
    color_set(colors).len()
}

/// `GraphColors::union` (the `Set` trait of `biodivine_std`): the disjunction of
/// the two diagrams, in the encoding of the operands. The outside function panics
/// on operands with different variable counts, which the precondition leaves out.
#[verifier::external_body]
pub(crate) fn union(a: &GraphColors, b: &GraphColors) -> (r: GraphColors)
    requires
        color_space(*a) == color_space(*b),
    ensures
        color_set(r) == color_set(*a).union(color_set(*b)),
        color_space(r) == color_space(*a),
{
    a.union(b)
}

/// `GraphColors::intersect` (the `Set` trait of `biodivine_std`): the conjunction
/// of the two diagrams, in the encoding of the operands.
#[verifier::external_body]
pub(crate) fn intersect(a: &GraphColors, b: &GraphColors) -> (r: GraphColors)
    requires
        color_space(*a) == color_space(*b),
    ensures
        color_set(r) == color_set(*a).intersect(color_set(*b)),
        color_space(r) == color_space(*a),
{
    a.intersect(b)
}

/// `GraphColors::minus` (the `Set` trait of `biodivine_std`): the first diagram
/// and not the second, in the encoding of the operands.
#[verifier::external_body]
pub(crate) fn minus(a: &GraphColors, b: &GraphColors) -> (r: GraphColors)
    requires
        color_space(*a) == color_space(*b),
    ensures
        color_set(r) == color_set(*a).difference(color_set(*b)),
        color_space(r) == color_space(*a),
{
    a.minus(b)
}

/// `GraphColors::is_empty` (the `Set` trait of `biodivine_std`): whether the
/// diagram is the constant false. A set over finitely many parameter variables
/// is finite, which is stated here because every set that the library keeps
/// passes through this test.
#[verifier::external_body]
pub(crate) fn is_empty(a: &GraphColors) -> (r: bool)
    ensures
        r <==> color_set(*a) == Set::<Seq<bool>>::empty(),
        r || color_set(*a).finite(),
{
    a.is_empty()
}

/// `GraphColors::exact_cardinality`, handed out by `BigUint::to_u32_digits`:
/// the number of colours in the set, as its digits to the base 2^32, the
/// least significant first.
#[verifier::external_body]
pub(crate) fn cardinality(a: &GraphColors) -> (r: Vec<u32>)
    ensures
        value_of(r@) == mass(*a),
{
    a.exact_cardinality().to_u32_digits()
}

/// `GraphColoredVertices::exact_cardinality`, handed out by
/// `BigUint::to_u32_digits`: the number of pairs of a state and a colour in
/// the set, as its digits to the base 2^32, the least significant first.
#[verifier::external_body]
pub(crate) fn vertex_cardinality(set: &GraphColoredVertices) -> (r: Vec<u32>)
    ensures
        value_of(r@) == colored_vertex_set(*set).len(),
{
    set.exact_cardinality().to_u32_digits()
}

/// `GraphColors::clone`, derived by the outside crate: an equal value.
#[verifier::external_body]
pub(crate) fn duplicate(a: &GraphColors) -> (r: GraphColors)
    ensures
        r == *a,
{
    a.clone()
}

/// `Bdd::num_vars` on the diagram of a set (`GraphColors::as_bdd`): the number
/// of decision-diagram variables, which is the first entry of the encoding.
#[verifier::external_body]
fn variable_count(a: &GraphColors) -> (r: u16)
    ensures
        r == color_space(*a).first(),
{
    a.as_bdd().num_vars()
}

/// `GraphColors::copy` of the first set around the diagram of the second,
/// compared with the second by the derived `==`: the two are equal exactly
/// when both sets list the same parameter variables, which are the entries of
/// the encoding behind the first.
#[verifier::external_body]
fn same_parameters(a: &GraphColors, b: &GraphColors) -> (r: bool)
    ensures
        r == (color_space(*a).drop_first() == color_space(*b).drop_first()),
        r ==> color_space(*a).len() == color_space(*b).len(),
{
    a.copy(b.as_bdd().clone()) == *b
}

/// Whether two sets were made with one encoding.
pub(crate) fn same_encoding(a: &GraphColors, b: &GraphColors) -> (r: bool)
    ensures
        r == (color_space(*a) == color_space(*b)),
{
    let same = variable_count(a) == variable_count(b) && same_parameters(a, b);
    proof {
        let s = color_space(*a);
        let t = color_space(*b);
        if same {
            assert forall|i: int| 0 <= i < s.len() implies s[i] == t[i] by {
                if i > 0 {
                    assert(s[i] == s.drop_first()[i - 1]);
                    assert(t[i] == t.drop_first()[i - 1]);
                }
            }
            assert(s =~= t);
        }
    }
    same
}

} // verus!
