//! Classification of the colours of a parametrised Boolean network by the
//! long-term behaviour of its attractors, and the bifurcation decision tree
//! that explains the classes by the parameters of the network.
//!
//! - [`colors`]: the symbolic colour sets of `biodivine_lib_param_bn` and what
//!   is assumed of them.
//! - [`mass`]: numbers of colours of any size.
//! - [`behaviour`], [`class`]: behaviour labels and canonical classes of them.
//! - [`bifurcation`]: maps from classes to colours.
//! - [`classifier`]: the running partition of the colours as attractors come.
//! - [`bdt`]: the decision tree, its splits, its growth and its records.
//! - [`decision_tree`]: the tree driven by plain numbers.
//! - [`progress`], [`computation`]: progress of a task and what a finished
//!   computation hands on.
//! - [`laws`]: what holds of all of these together.

pub mod bdt;
pub mod behaviour;
pub mod bifurcation;
pub mod class;
pub mod classifier;
pub mod colors;
pub mod computation;
pub mod decision_tree;
pub mod laws;
pub mod mass;
pub mod progress;
