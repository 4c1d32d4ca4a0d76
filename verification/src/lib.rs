//! A bug finder for unchecked pointer dereferences: symbolic execution of
//! a function's control-flow graph into a constraint graph, and synthesis
//! of one satisfiability query per dereference — "can this path be taken
//! while the dereferenced pointer is zero?". A satisfying model becomes a
//! finding with a concrete argument witness; without a model there is no
//! finding.

pub mod analysis;
pub mod digits;
pub mod eval;
pub mod memory;
pub mod mir;
pub mod sir;
pub mod smt;
pub mod structures;
pub mod symb_exec;
