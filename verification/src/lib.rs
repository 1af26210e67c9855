//! Discrete modal state-space engine for a finite-element structural model.
//!
//! The library holds the structural core of the model: named input and output
//! groups with on/off degrees of freedom, the assembly of reduced modal
//! matrices from a user selection of groups, the bookkeeping of the discrete
//! per-mode solvers, and the routing of input and output vectors through the
//! selected groups.
//!
//! Scalar values (eigen frequencies, damping coefficients, matrix entries)
//! are carried as opaque 64-bit words holding the IEEE-754 binary64
//! representation of the value.  The library never performs arithmetic on
//! them: it copies, gathers and compares them.  For finite, non-negative
//! values the unsigned order of the words coincides with the numeric order,
//! which is all the truncation rules need.

use vstd::prelude::*;

pub mod codegen;
pub mod dss;
pub mod error;
pub mod fem;
pub mod io;
pub mod matrix;
pub mod solver;
pub mod switch;

pub use dss::DiscreteStateSpace;
pub use error::{FemError, StateSpaceError};
pub use fem::FEM;
pub use io::{GroupIo, IOData, Properties, IO};
pub use solver::{DiscreteModalSolver, Exponential, SetRange, SplitFem};
pub use switch::Switch;

verus! {

/// Words below this bound carry the non-negative finite values, in
/// increasing numeric order: the exponent field of a binary64 value
/// saturates at 0x7FF0_0000_0000_0000 and the sign bit sits above it.
pub open spec fn nonneg_finite_word(w: u64) -> bool {
    w < 0x7FF0_0000_0000_0000u64
}

} // verus!
