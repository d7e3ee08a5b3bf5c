//! A constraint-satisfaction solving engine.
//!
//! The engine models a finite set of variables, each restricted to a finite
//! domain of candidate integer values, and a set of constraints over ordered
//! lists of variables.  A depth-first backtracking search combined with
//! forward-checking propagation finds one or all complete assignments that
//! satisfy every constraint.

pub mod constraint;
pub mod domain;
pub mod problem;
pub mod variable;
