//! Plain SGD that a captured training step can replay.
//!
//! Plain SGD has no state, so a replay has nothing to advance but the weights
//! themselves. A step clips the gradient, adds the decay to it, and subtracts it
//! at the learning rate, in that order.
use crate::utils::graph;
use crate::utils::graph::WeightMeta;
use vstd::prelude::*;

verus! {

/// Plain SGD: optional weight decay and gradient clipping, no momentum. The
/// penalty and the clipping rule are the caller's.
#[derive(Debug, Clone, Copy, PartialEq, Eq, Structural)]
pub struct SgdConfig {
    /// Whether the weight, scaled by the penalty, is added to its gradient.
    pub weight_decay: bool,
    /// Whether the gradient of each parameter is clipped first.
    pub grad_clipping: bool,
}

/// One operation of a step.
#[derive(Debug, Clone, Copy, PartialEq, Eq, Structural)]
pub enum SgdOp {
    /// Clip the gradient.
    Clip,
    /// Add the scaled weight to the gradient.
    Decay,
    /// Subtract the gradient, scaled by the learning rate, from the weight.
    Descend,
}

/// What a step does with one parameter. It runs off the gradient graph, and the
/// association of the parameter is put back after it.
#[derive(Debug, Clone, PartialEq, Eq)]
pub struct SgdStep {
    /// The operations, in order.
    pub ops: Vec<SgdOp>,
    /// Whether the weight goes back to the autodiff side.
    pub lift: bool,
    /// Whether its checkpointing strategy is put back.
    pub checkpoint: bool,
    /// Whether it collects a gradient again.
    pub require_grad: bool,
}

impl SgdConfig {
    /// The operations of a step, in order.
    pub open spec fn ops(self) -> Seq<SgdOp> {
        let clip = if self.grad_clipping {
            seq![SgdOp::Clip]
        } else {
            Seq::empty()
        };
        let decay = if self.weight_decay {
            seq![SgdOp::Decay]
        } else {
            Seq::empty()
        };
        clip + decay + seq![SgdOp::Descend]
    }

    /// What a step does with a parameter. `None`: it has no gradient, and stays
    /// as it is.
    pub fn step(&self, weight: &WeightMeta, has_grad: bool) -> (step: Option<SgdStep>)
        ensures
            step is Some == has_grad,
            step matches Some(step) ==> {
                let restored = graph::weight_step(*weight, 0);
                &&& step.ops@ == self.ops()
                &&& step.lift == restored.lift
                &&& step.checkpoint == restored.checkpoint
                &&& step.require_grad == restored.require_grad
            },
    {
        if !has_grad {
            return None;
        }
        let mut ops: Vec<SgdOp> = Vec::new();
        if self.grad_clipping {
            ops.push(SgdOp::Clip);
        }
        if self.weight_decay {
            ops.push(SgdOp::Decay);
        }
        ops.push(SgdOp::Descend);
        assert(ops@ =~= self.ops());
        Some(
            SgdStep {
                ops,
                lift: weight.autodiff,
                checkpoint: weight.autodiff && weight.checkpointed,
                require_grad: weight.autodiff && weight.require_grad,
            },
        )
    }
}

} // verus!
