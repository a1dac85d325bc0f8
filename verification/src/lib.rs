//! An automated theorem prover for classical first-order logic by analytic
//! tableaux, with the operations on formulas that it rests on, a parser
//! for the surface syntax, truth tables, and the extended Euclidean
//! algorithm.
//!
//! Executable values are described by mathematical models: a
//! [`Connective`] stands for a [`ast::Formula`], a [`tableau::Tableau`]
//! for an [`engine::TableauModel`]. The contracts of the functions are
//! stated over the models.

pub mod ast;
pub mod dot;
pub mod engine;
pub mod euclid;
pub mod formula;
pub mod invariants;
pub mod knowledge;
pub mod ordered;
pub mod parse;
pub mod pretty;
pub mod roundtrip;
pub mod table;
pub mod tableau;
pub mod text;
pub mod theory;

pub use crate::ast::Connective;
pub use crate::parse::{parse, ParseError};
pub use crate::table::{all_permutations, Table};
