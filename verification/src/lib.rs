//! Binary decision diagrams over named boolean variables.
//!
//! A propositional formula is parsed into an abstract syntax tree, expanded
//! into a full decision tree, and then canonicalized into a reduced diagram.
//! Reduced diagrams can be combined under arbitrary binary boolean operators,
//! restricted on a variable, and quantified existentially or universally.

pub mod assignment;
pub mod binary_decision_diagram;
pub mod formula;
pub mod names;
