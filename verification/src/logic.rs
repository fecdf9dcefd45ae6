//! Containers for propositional formulae in disjunctive normal form.

pub mod con;
pub mod dis;
