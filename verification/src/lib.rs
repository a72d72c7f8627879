//! A minimal relational-programming engine in the microKanren tradition.
//!
//! First-order terms are unified against a triangular substitution; goals
//! built from the four primitive constructors (unification, fresh-variable
//! introduction, disjunction, conjunction) are run by a step-driven search
//! over streams of states with a fair interleaving discipline.

pub mod goal;
pub mod laws;
pub mod state;
pub mod stream;
pub mod term;
pub mod unify;
