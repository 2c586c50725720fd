//! What a family of mixer blocks tells the builders.
use crate::optim::spec::ProjSpec;
use vstd::prelude::*;

verus! {

/// A block *config* that knows its `d_model`. Lets the generic builders size a
/// stack without knowing the family.
///
/// The specification functions name what the methods return. A verified family
/// defines them; a family in ordinary Rust leaves them as they are.
pub trait BlockConfig {
    /// The model width.
    open spec fn width(&self) -> usize {
        arbitrary()
    }

    /// The 2-D weights of the block that Muon can own.
    open spec fn projections(&self) -> Seq<ProjSpec> {
        arbitrary()
    }

    /// Model width, used to size the pre-norm of each layer.
    fn d_model(&self) -> (width: usize)
        ensures
            width == self.width(),
    ;

    /// The 2-D weights of the block that Muon can own, and where their fused
    /// columns split.
    fn muon_projections(&self) -> (specs: Vec<ProjSpec>)
        ensures
            specs@ == self.projections(),
    ;
}

} // verus!
