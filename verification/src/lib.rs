//! Block-generic layer and network composition.
//!
//! Everything *around* a sequence-mixing block: which real layer a virtual one
//! runs, where the class markers of a container land in a sequence that arrives
//! in any number of calls, how a padded or packed batch keeps the sequence of
//! each slot, what the passes of a stack do, and which weights the Muon
//! parameter groups over fused projections own.
//!
//! Every rule here is stated over whole numbers, flags and text. The tensors
//! that a program runs along these rules are its own.
use vstd::prelude::*;

pub mod modules;
pub mod optim;
pub mod prelude;
pub mod utils;

verus! {

} // verus!
