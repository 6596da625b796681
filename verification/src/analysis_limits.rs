//! Canonical iteration and convergence limits for AMIR dataflow analysis.
//!
//! In monotone dataflow frameworks the theoretical bound for fixpoint
//! convergence is proportional to `num_blocks * num_variables`; the headroom
//! constants guard against non-terminating loops on malformed IR.

use vstd::prelude::*;

verus! {

/// Headroom added to theoretical fixpoint iteration bounds.
pub const DATAFLOW_FIXPOINT_HEADROOM: usize = 1000;

/// Maximum outer iterations of the CFG simplification fixpoint loop.
pub const CFG_SIMPLIFY_MAX_OUTER_ITERS: u32 = 64;

/// Maximum rounds of the per-function optimization pipeline; a function
/// still changing after that many rounds signals an IR invariant violation.
pub const OPT_PIPELINE_MAX_ROUNDS: u32 = 64;

} // verus!
