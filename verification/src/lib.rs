//! Mid-level IR (AMIR) analyses and optimizations for the Arandu compiler:
//! sparse conditional constant propagation, mark-sweep dead code elimination,
//! CFG simplification, the optimization pipeline, borrow-fact paths and the
//! move-checker lattice.

pub mod amir;
pub mod borrow_facts;
pub mod borrow_interface;
pub mod coro_promote;
pub mod analysis_limits;
pub mod dce;
pub mod escape;
pub mod holder_paths;
pub mod id_set;
pub mod diagnostics;
pub mod instr_list;
pub mod literal_pool;
pub mod move_lattice;
pub mod optimize;
pub mod prune;
pub mod remap;
pub mod sccp;
pub mod simplify_cfg;
pub mod splice;
pub mod stmt_table;
pub mod validate;
