//! A generic constraint-satisfaction solver: variables with finite domains,
//! binary and global constraints, and a depth-first search with forward checking.

pub mod constraint;
pub mod laws;
pub mod model;
pub mod solver;
pub mod variable;

pub use constraint::{
    BinaryConstraint, BinaryPredicate, ConstraintView, GlobalConstraint, StatePredicate,
};
pub use model::Problem;
pub use solver::ConstraintSolver;
pub use variable::{CspError, VarState, Variable};
