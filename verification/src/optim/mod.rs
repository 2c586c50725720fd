//! Muon support: which weights the optimizer may touch, and how the fused
//! projections are split before it sees them.
//!
//! Muon replaces a 2-D weight's momentum update with the nearest orthogonal
//! matrix. That only makes sense for a parameter that *is* one linear map. So a
//! [`MuonPlan`] is an allowlist: only the weights named by a [`ProjSpec`] are
//! moved off the fallback optimizer, and a fused projection carries its column
//! seams, so that each block is stepped on its own.
pub mod laws;
pub mod plan;
pub mod report;
pub mod segmented;
pub mod sgd;
pub mod spec;

pub use plan::MuonPlan;
pub use spec::{ProjScope, ProjSegment, ProjSpec, BLOCK_CONTAINERS};
