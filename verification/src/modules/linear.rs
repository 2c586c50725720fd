//! The shape of a dense projection.
use vstd::prelude::*;

verus! {

/// The shape of a dense projection from `d_input` to `d_output` features.
#[derive(Debug, Clone, Copy, PartialEq, Eq, Structural)]
pub struct LinearShape {
    /// Input features: the rows of the weight.
    pub d_input: usize,
    /// Output features: the columns of the weight.
    pub d_output: usize,
    /// Whether the projection carries a bias term.
    pub has_bias: bool,
}

impl LinearShape {
    /// A projection from `d_input` to `d_output` features.
    pub fn new(d_input: usize, d_output: usize, has_bias: bool) -> (shape: Self)
        ensures
            shape == (LinearShape { d_input, d_output, has_bias }),
    {
        LinearShape { d_input, d_output, has_bias }
    }

    /// The dimensions of the weight.
    pub fn weight_dims(&self) -> (dims: [usize; 2])
        ensures
            dims[0] == self.d_input,
            dims[1] == self.d_output,
    {
        [self.d_input, self.d_output]
    }
}

} // verus!
