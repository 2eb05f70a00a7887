//! Constraint emission for a zero-knowledge DSL: turns a flattened program into
//! the three sparse matrices of a rank-1 constraint system, and schedules the
//! static-analysis passes that run before it.

pub mod expression;
pub mod linear;
pub mod normalize;
pub mod r1cs;
pub mod static_analysis;
