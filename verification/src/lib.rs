//! An equivalence graph (e-graph) of terms with a verified union-find core.

mod eq_graph;
pub mod model;
mod tables;
mod ty;

pub use crate::eq_graph::{Graph, HirClass, HirId, TermKey};
pub use crate::ty::{Expr, ExprModel, Term, Type};
