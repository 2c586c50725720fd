//! Network shapes: everything about a stack *except* the block that it is made
//! of.
//!
//! - [`NetworkShape`] is the whole stack: depth, virtual scheduling, residuals,
//!   the feed-forward, the init policy.
//! - [`LatentShape`] / [`VocabShape`] add only their own boundary to it.
//! - [`BidiShape`] is the bidirectional counterpart.
//!
//! The model config of a family is then the pair of a shape and a block config,
//! and no family restates anything about the surrounding architecture.
use crate::modules::bidi::{BidiLayersBuilder, BidiStackShape, OutputMergeConfig};
use crate::modules::block::BlockConfig;
use crate::modules::builder::{LayersBuilder, StackShape};
use crate::modules::layer::LayerUntied;
use crate::modules::layers::Layers;
use crate::modules::mlp::GatedMlpConfig;
use crate::modules::multi_gate::ResidualsConfig;
use crate::modules::network::{
    LatentNetworkBuilder, LatentNetworkShape, VocabNetworkBuilder, VocabNetworkShape,
};
use crate::optim::plan;
use crate::optim::plan::MuonPlan;
use crate::utils::class::{ClassLatent, ClassToken};
use crate::utils::init::InitPolicy;
use crate::utils::schedule::{BidiSchedule, GradHorizon, Schedule};
use crate::utils::text;
use crate::utils::untied::UntiedParam;
use vstd::prelude::*;

verus! {

/// The block-independent half of a network config.
#[derive(Debug)]
pub struct NetworkShape {
    /// Number of real weight sets.
    pub n_real_layers: usize,
    /// Optional virtual-layer scheduling: run `n` logical layers over the real
    /// weight sets.
    pub n_virtual_layers: Option<(usize, Schedule)>,
    /// Which virtual layers back-propagate. `None`: the whole stack.
    pub grad_horizon: Option<GradHorizon>,
    /// Stack-level class latents, spliced into the sequence before the first
    /// layer.
    pub class_latents: Vec<ClassLatent>,
    /// Suppress the first virtual layer's residual.
    pub ignore_first_residual: bool,
    /// Suppress the last virtual layer's residual.
    pub ignore_last_residual: bool,
    /// Inter-layer residual scheme.
    pub residuals: ResidualsConfig,
    /// Optional per-layer feed-forward sub-block. `None`: mixer-only layers.
    pub mlp: Option<GatedMlpConfig>,
    /// The parameters of the layer itself that are held once per application of
    /// its real layer, not tied across them.
    pub untied: Vec<LayerUntied>,
    /// Optional re-initialisation of the whole network after its build.
    pub init: Option<InitPolicy>,
}

impl NetworkShape {
    /// A stack of `n_real_layers` layers, with every knob off.
    pub fn new(n_real_layers: usize) -> (shape: Self)
        ensures
            shape.n_real_layers == n_real_layers,
            shape.n_virtual_layers is None,
            shape.grad_horizon is None,
            shape.class_latents@.len() == 0,
            !shape.ignore_first_residual,
            !shape.ignore_last_residual,
            shape.residuals is Standard,
            shape.mlp is None,
            shape.untied@.len() == 0,
            shape.init is None,
    {
        NetworkShape {
            n_real_layers,
            n_virtual_layers: None,
            grad_horizon: None,
            class_latents: Vec::new(),
            ignore_first_residual: false,
            ignore_last_residual: false,
            residuals: ResidualsConfig::Standard,
            mlp: None,
            untied: Vec::new(),
            init: None,
        }
    }

    /// The number of residual sub-blocks per layer of this stack.
    pub open spec fn branches(self) -> int {
        if self.mlp is Some {
            2
        } else {
            1
        }
    }

    /// The depth of the stack in applied layers.
    pub open spec fn depth(self) -> int {
        match self.n_virtual_layers {
            Some((n, _)) => n as int,
            None => self.n_real_layers as int,
        }
    }

    /// The number of residual sub-blocks per layer of this stack: the mixer,
    /// plus the feed-forward when there is one.
    pub fn residuals_per_layer(&self) -> (n: usize)
        ensures
            n == self.branches(),
    {
        if self.mlp.is_some() {
            2
        } else {
            1
        }
    }

    /// The depth of the stack in *applied* layers: the virtual count when there
    /// is one, else the real count.
    pub fn n_applied_layers(&self) -> (n: usize)
        ensures
            n == self.depth(),
    {
        match &self.n_virtual_layers {
            Some((n, _)) => *n,
            None => self.n_real_layers,
        }
    }

    /// The init policy to apply after the build, with its rescale resolved
    /// against the depth of this stack.
    pub fn init_policy(&self) -> (policy: Option<InitPolicy>)
        requires
            self.init is Some ==> self.branches() * self.depth() <= usize::MAX,
        ensures
            policy is Some == self.init is Some,
            policy matches Some(p) ==> {
                let given = self.init->Some_0;
                &&& p.zero_bias == given.zero_bias
                &&& text::views(p.residual_paths@) == text::views(given.residual_paths@)
                &&& p.residual_depth == (match given.residual_depth {
                    Some(stated) => Some(stated),
                    None => Some((self.branches() * self.depth()) as usize),
                })
            },
    {
        match &self.init {
            None => None,
            Some(init) => {
                let branches: usize = self.residuals_per_layer();
                let depth: usize = self.n_applied_layers();
                let policy = InitPolicy {
                    zero_bias: init.zero_bias,
                    residual_paths: copied(&init.residual_paths),
                    residual_depth: init.residual_depth,
                };
                Some(policy.with_default_residual_depth(branches * depth))
            },
        }
    }

    /// The layer-stack builder for a given block config.
    pub open spec fn spec_layers<C: BlockConfig>(self, block: C) -> LayersBuilder<C> {
        LayersBuilder {
            n_real_layers: self.n_real_layers,
            n_virtual_layers: self.n_virtual_layers,
            block,
            ignore_first_residual: self.ignore_first_residual,
            ignore_last_residual: self.ignore_last_residual,
            class_latents: self.class_latents,
            residuals: self.residuals,
            mlp: self.mlp,
            grad_horizon: self.grad_horizon,
            untied: self.untied,
        }
    }

    /// The layer-stack builder for a given block config.
    pub fn layers<C: BlockConfig>(&self, block: C) -> (layers: LayersBuilder<C>)
        ensures
            layers.alike(self.spec_layers(block)),
    {
        let n_virtual_layers = match &self.n_virtual_layers {
            Some((n, schedule)) => Some((*n, schedule.clone())),
            None => None,
        };
        let grad_horizon = match &self.grad_horizon {
            Some(horizon) => Some(horizon.clone()),
            None => None,
        };
        let class_latents = self.class_latents.clone();
        let untied = self.untied.clone();
        assert(class_latents@ =~= self.class_latents@);
        assert(untied@ =~= self.untied@);
        LayersBuilder::new(self.n_real_layers, block)
            .with_n_virtual_layers(n_virtual_layers)
            .with_grad_horizon(grad_horizon)
            .with_residuals(self.residuals)
            .with_ignore_first_residual(self.ignore_first_residual)
            .with_ignore_last_residual(self.ignore_last_residual)
            .with_class_latents(class_latents)
            .with_mlp(self.mlp)
            .with_untied(untied)
    }

    /// The shape of the bare layer stack.
    pub fn init<C: BlockConfig>(&self, block: C) -> (shape: StackShape)
        requires
            self.spec_layers(block).builds(),
        ensures
            self.spec_layers(block).is_shape(shape),
    {
        let layers = self.layers(block);
        proof {
            layers.lemma_alike(self.spec_layers(block), arbitrary());
        }
        let shape = layers.init();
        proof {
            layers.lemma_alike(self.spec_layers(block), shape);
        }
        shape
    }

    /// The untied parameters of each real layer that are tied back together
    /// after the redraw of the init policy, which would start each application
    /// from a draw of its own. Without a policy, none.
    pub fn retie(&self, layers: &Layers) -> (params: Vec<Vec<UntiedParam>>)
        requires
            forall|r: int|
                0 <= r < layers.real_layers@.len() ==> (#[trigger] layers.real_layers@[r]).wf(),
        ensures
            params@.len() == layers.real_layers@.len(),
            forall|r: int|
                0 <= r < params@.len() ==> (#[trigger] params@[r])@ == (if self.init is None
                    || layers.real_layers@[r].n_applications == 1 {
                    Seq::empty()
                } else {
                    layers.real_layers@[r].spec_untied_params()
                }),
    {
        if self.init.is_some() {
            return layers.retie();
        }
        let mut params: Vec<Vec<UntiedParam>> = Vec::new();
        let mut r: usize = 0;
        while r < layers.real_layers.len()
            invariant
                r <= layers.real_layers@.len(),
                params.len() == r,
                forall|s: int|
                    0 <= s < r ==> (#[trigger] params@[s])@ == Seq::<UntiedParam>::empty(),
            decreases layers.real_layers@.len() - r,
        {
            params.push(Vec::new());
            r = r + 1;
        }
        params
    }

    /// The Muon plan for a stack of this shape at `block`: the fused projections
    /// of the block, plus those of the optional feed-forward. The boundary
    /// weights of a network stay out on purpose.
    pub fn muon_plan<C: BlockConfig>(&self, block: &C) -> (plan: MuonPlan)
        requires
            self.mlp matches Some(mlp) ==> mlp.has_hidden(),
        ensures
            self.mlp is None ==> plan.specs@ == block.projections(),
            self.mlp matches Some(mlp) ==> {
                let n = block.projections().len() as int;
                &&& plan.specs@.len() == n + 2
                &&& plan.specs@.take(n) == block.projections()
                &&& plan::is_mlp_plan(plan.specs@.skip(n), mlp)
            },
    {
        let mlp = match &self.mlp {
            Some(mlp) => Some(mlp),
            None => None,
        };
        MuonPlan::new(block.muon_projections()).with_mlp(mlp)
    }
}

/// The same strings.
fn copied(texts: &Vec<String>) -> (copy: Vec<String>)
    ensures
        text::views(copy@) == text::views(texts@),
{
    let mut copy: Vec<String> = Vec::new();
    let mut i: usize = 0;
    while i < texts.len()
        invariant
            i <= texts@.len(),
            copy.len() == i,
            forall|j: int| 0 <= j < i ==> (#[trigger] copy@[j])@ == texts@[j]@,
        decreases texts@.len() - i,
    {
        copy.push(texts[i].clone());
        i = i + 1;
    }
    assert(text::views(copy@) =~= text::views(texts@));
    copy
}

/// The knobs that only a latent network has, on top of [`NetworkShape`].
#[derive(Debug)]
pub struct LatentShape {
    /// Input feature width.
    pub input_size: usize,
    /// Output feature width.
    pub output_size: usize,
    /// The knobs of the stack.
    pub stack: NetworkShape,
    /// Insert a final norm before the output projection.
    pub final_norm: bool,
    /// Network-level class tokens, spliced into the input (at its own width).
    pub class_tokens: Vec<ClassToken>,
}

impl LatentShape {
    /// The shape around a stack, with no final norm and no class tokens.
    pub fn new(input_size: usize, output_size: usize, stack: NetworkShape) -> (shape: Self)
        ensures
            shape.input_size == input_size,
            shape.output_size == output_size,
            shape.stack == stack,
            !shape.final_norm,
            shape.class_tokens@.len() == 0,
    {
        LatentShape {
            input_size,
            output_size,
            stack,
            final_norm: false,
            class_tokens: Vec::new(),
        }
    }

    /// The builder for this shape around a given block config.
    pub fn build<C: BlockConfig>(&self, block: C) -> (builder: LatentNetworkBuilder<C>)
        ensures
            builder.input_size == self.input_size,
            builder.layers.alike(self.stack.spec_layers(block)),
            builder.output_size == self.output_size,
            builder.final_norm == self.final_norm,
            builder.class_tokens@ == self.class_tokens@,
    {
        let class_tokens = self.class_tokens.clone();
        assert(class_tokens@ =~= self.class_tokens@);
        LatentNetworkBuilder {
            input_size: self.input_size,
            layers: self.stack.layers(block),
            output_size: self.output_size,
            final_norm: self.final_norm,
            class_tokens,
        }
    }

    /// The shape of the network.
    pub fn init<C: BlockConfig>(&self, block: C) -> (shape: LatentNetworkShape)
        requires
            self.stack.spec_layers(block).builds(),
        ensures
            shape.in_proj.d_input == self.input_size,
            shape.in_proj.d_output == block.width(),
            shape.in_proj.has_bias,
            self.stack.spec_layers(block).is_shape(shape.layers),
            shape.norm_f == (if self.final_norm {
                Some(block.width())
            } else {
                None
            }),
            shape.out_proj.d_input == block.width(),
            shape.out_proj.d_output == self.output_size,
            shape.out_proj.has_bias,
            shape.class_tokens_emb is Some == (self.class_tokens@.len() > 0),
            shape.class_tokens_emb matches Some(dims) ==> dims[0] == self.class_tokens@.len()
                && dims[1] == self.input_size,
    {
        let builder = self.build(block);
        proof {
            builder.layers.lemma_alike(self.stack.spec_layers(block), arbitrary());
        }
        let shape = builder.init();
        proof {
            builder.layers.lemma_alike(self.stack.spec_layers(block), shape.layers);
        }
        shape
    }
}

/// The knobs that only a vocabulary network has, on top of [`NetworkShape`].
#[derive(Debug)]
pub struct VocabShape {
    /// Unpadded vocabulary size.
    pub vocab_size: usize,
    /// The knobs of the stack.
    pub stack: NetworkShape,
    /// Round `vocab_size` up to a multiple of this (1 disables rounding).
    pub pad_vocab_size_multiple: usize,
    /// Tie the head to the (transposed) embedding weights.
    pub missing_lm_head: bool,
}

impl VocabShape {
    /// The shape around a stack, with an unpadded vocabulary and a tied head.
    pub fn new(vocab_size: usize, stack: NetworkShape) -> (shape: Self)
        ensures
            shape == (VocabShape {
                vocab_size,
                stack,
                pad_vocab_size_multiple: 1,
                missing_lm_head: true,
            }),
    {
        VocabShape { vocab_size, stack, pad_vocab_size_multiple: 1, missing_lm_head: true }
    }

    /// The builder for this shape around a given block config.
    pub open spec fn spec_build<C: BlockConfig>(self, block: C) -> VocabNetworkBuilder<C> {
        VocabNetworkBuilder {
            vocab_size: self.vocab_size,
            pad_vocab_size_multiple: self.pad_vocab_size_multiple,
            layers: self.stack.spec_layers(block),
            missing_lm_head: self.missing_lm_head,
        }
    }

    /// The builder for this shape around a given block config.
    pub fn build<C: BlockConfig>(&self, block: C) -> (builder: VocabNetworkBuilder<C>)
        ensures
            builder.vocab_size == self.vocab_size,
            builder.pad_vocab_size_multiple == self.pad_vocab_size_multiple,
            builder.layers.alike(self.stack.spec_layers(block)),
            builder.missing_lm_head == self.missing_lm_head,
    {
        VocabNetworkBuilder {
            vocab_size: self.vocab_size,
            pad_vocab_size_multiple: self.pad_vocab_size_multiple,
            layers: self.stack.layers(block),
            missing_lm_head: self.missing_lm_head,
        }
    }

    /// The shape of the network.
    pub fn init<C: BlockConfig>(&self, block: C) -> (shape: VocabNetworkShape)
        requires
            self.spec_build(block).builds(),
        ensures
            shape.embedding[0] == self.spec_build(block).vocab(),
            shape.embedding[1] == block.width(),
            self.stack.spec_layers(block).is_shape(shape.layers),
            shape.norm_f == block.width(),
            shape.lm_head is None == self.missing_lm_head,
            shape.lm_head matches Some(head) ==> head.d_input == block.width() && head.d_output
                == self.spec_build(block).vocab() && !head.has_bias,
    {
        let builder = self.build(block);
        proof {
            builder.layers.lemma_alike(self.stack.spec_layers(block), arbitrary());
            assert(builder.vocab() == self.spec_build(block).vocab());
        }
        let shape = builder.init();
        proof {
            builder.layers.lemma_alike(self.stack.spec_layers(block), shape.layers);
        }
        shape
    }
}

/// The block-independent knobs of a bidirectional stack.
///
/// It is its own shape, not a [`NetworkShape`]: the pairs carry per-pair merge
/// configs and a [`BidiSchedule`], and this path has no feed-forward or init
/// policy.
#[derive(Debug)]
pub struct BidiShape {
    /// Number of real (weight-bearing) layers. They pair up.
    pub n_real_layers: usize,
    /// One merge config per real pair, length `n_real_layers / 2`.
    pub outputs_merge: Vec<OutputMergeConfig>,
    /// Optional virtual-layer scheduling over the real pairs.
    pub n_virtual_layers: Option<(usize, BidiSchedule)>,
    /// Zero the first virtual pair's residual.
    pub ignore_first_residual: bool,
    /// Zero the last virtual pair's residual.
    pub ignore_last_residual: bool,
    /// Stack-level class latents, spliced once before the first pair.
    pub class_latents: Vec<ClassLatent>,
    /// Inter-pair residual scheme.
    pub residuals: ResidualsConfig,
    /// The parameters of the layers that are held once per application, not
    /// tied.
    pub untied: Vec<LayerUntied>,
}

impl BidiShape {
    /// A stack of `n_real_layers` layers, with every knob off.
    pub fn new(n_real_layers: usize, outputs_merge: Vec<OutputMergeConfig>) -> (shape: Self)
        ensures
            shape.n_real_layers == n_real_layers,
            shape.outputs_merge == outputs_merge,
            shape.n_virtual_layers is None,
            !shape.ignore_first_residual,
            !shape.ignore_last_residual,
            shape.class_latents@.len() == 0,
            shape.residuals is Standard,
            shape.untied@.len() == 0,
    {
        BidiShape {
            n_real_layers,
            outputs_merge,
            n_virtual_layers: None,
            ignore_first_residual: false,
            ignore_last_residual: false,
            class_latents: Vec::new(),
            residuals: ResidualsConfig::Standard,
            untied: Vec::new(),
        }
    }

    /// The builder for this shape around a given block config.
    pub open spec fn spec_build<C: BlockConfig>(self, block: C) -> BidiLayersBuilder<C> {
        BidiLayersBuilder {
            n_real_layers: self.n_real_layers,
            n_virtual_layers: self.n_virtual_layers,
            block,
            ignore_first_residual: self.ignore_first_residual,
            ignore_last_residual: self.ignore_last_residual,
            outputs_merge: self.outputs_merge,
            class_latents: self.class_latents,
            residuals: self.residuals,
            untied: self.untied,
        }
    }

    /// The builder for this shape around a given block config.
    pub fn build<C: BlockConfig>(&self, block: C) -> (builder: BidiLayersBuilder<C>)
        ensures
            builder.alike(self.spec_build(block)),
    {
        let n_virtual_layers = match &self.n_virtual_layers {
            Some((n, schedule)) => Some((*n, schedule.clone())),
            None => None,
        };
        let outputs_merge = self.outputs_merge.clone();
        let class_latents = self.class_latents.clone();
        let untied = self.untied.clone();
        assert(outputs_merge@ =~= self.outputs_merge@);
        assert(class_latents@ =~= self.class_latents@);
        assert(untied@ =~= self.untied@);
        BidiLayersBuilder {
            n_real_layers: self.n_real_layers,
            n_virtual_layers,
            block,
            ignore_first_residual: self.ignore_first_residual,
            ignore_last_residual: self.ignore_last_residual,
            outputs_merge,
            class_latents,
            residuals: self.residuals,
            untied,
        }
    }

    /// The shape of the bidirectional stack.
    pub fn init<C: BlockConfig>(&self, block: C) -> (shape: BidiStackShape)
        requires
            self.spec_build(block).builds(),
        ensures
            self.spec_build(block).is_shape(shape),
    {
        let builder = self.build(block);
        proof {
            builder.lemma_alike(self.spec_build(block), arbitrary());
        }
        let shape = builder.init();
        proof {
            builder.lemma_alike(self.spec_build(block), shape);
        }
        shape
    }

    /// The Muon plan for a stack of this shape at `block` (no feed-forward on
    /// this path).
    pub fn muon_plan<C: BlockConfig>(&self, block: &C) -> (plan: MuonPlan)
        ensures
            plan.specs@ == block.projections(),
    {
        MuonPlan::new(block.muon_projections())
    }
}

} // verus!
