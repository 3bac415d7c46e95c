//! Safety ordering of Datalog rule bodies.
//!
//! A rule body is a list of clauses. Some clauses bind variables, others only
//! read them. This crate arranges the clauses of a rule so that every variable
//! is bound before it is read, or reports the clauses for which no such place
//! was found.

pub mod bindings;
pub mod laws;
pub mod lemmas;
pub mod model;
pub mod program;
pub mod reorder;
