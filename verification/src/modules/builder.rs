//! The plain factory of a stack, and the shape of what it builds.
use crate::modules::block::BlockConfig;
use crate::modules::layer;
use crate::modules::layer::{can_build_layer, LayerShape, LayerUntied};
use crate::modules::layers::stack_applications;
use crate::modules::mlp::GatedMlpConfig;
use crate::modules::multi_gate::{Residuals, ResidualsConfig};
use crate::utils::class::{init_class_emb, ClassLatent};
use crate::utils::schedule;
use crate::utils::schedule::{GradHorizon, Schedule};
use vstd::prelude::*;

verus! {

/// Plain factory for a stack of layers. The serializable surface of a family
/// is its own config, which delegates to this generic builder.
#[derive(Debug, Clone)]
pub struct LayersBuilder<C> {
    /// Number of real (weight-bearing) layers.
    pub n_real_layers: usize,
    /// Optional virtual-layer scheduling.
    pub n_virtual_layers: Option<(usize, Schedule)>,
    /// Shared block config.
    pub block: C,
    /// Zero the first virtual layer's residual.
    pub ignore_first_residual: bool,
    /// Zero the last virtual layer's residual.
    pub ignore_last_residual: bool,
    /// Stack-level class latents (spliced once before the first virtual layer).
    pub class_latents: Vec<ClassLatent>,
    /// Inter-layer residual scheme (defaults to plain additive).
    pub residuals: ResidualsConfig,
    /// Optional feed-forward sub-block per layer, with its own pre-norm and
    /// residual. `None`: mixer-only layers.
    pub mlp: Option<GatedMlpConfig>,
    /// Back-propagate only some of the (virtual) layers. `None`: the whole
    /// stack.
    pub grad_horizon: Option<GradHorizon>,
    /// The parameters of the layer itself that are held once per application,
    /// not tied.
    pub untied: Vec<LayerUntied>,
}

/// The shape of the parameters of a new stack.
#[derive(Debug, Clone)]
pub struct StackShape {
    /// The weight-bearing layers.
    pub real_layers: Vec<LayerShape>,
    /// The residual scheme, with its mixing modules.
    pub residuals: Residuals,
    /// The dimensions of the stack-level class-latent embeddings, when there
    /// are any.
    pub class_latents_emb: Option<[usize; 2]>,
}

impl<C: BlockConfig> LayersBuilder<C> {
    /// The number of (virtual) layers that the stack runs.
    pub open spec fn count(self) -> int {
        match self.n_virtual_layers {
            Some((n, _)) => n as int,
            None => self.n_real_layers as int,
        }
    }

    /// The real layer of each virtual layer.
    pub open spec fn reals(self) -> Seq<int> {
        schedule::virtual_reals(
            match self.n_virtual_layers {
                Some((_, s)) => Some(s),
                None => None,
            },
            self.count(),
            self.n_real_layers as int,
        )
    }

    /// How many virtual layers apply real layer `r`.
    pub open spec fn applications(self, r: int) -> int {
        schedule::applied(self.reals(), 0, self.count(), r) as int
    }

    /// Whether the stack can be built: its schedule runs, and every layer can be
    /// built for its applications.
    pub open spec fn builds(self) -> bool {
        &&& self.n_virtual_layers matches Some((n, s)) ==> s.covers(
            n as int,
            self.n_real_layers as int,
        )
        &&& forall|r: int|
            0 <= r < self.n_real_layers ==> layer::buildable(
                self.block.width() as int,
                self.mlp,
                self.untied@,
                #[trigger] self.applications(r),
            )
    }

    /// Whether `shape` is the shape of the stack: each real layer holds its
    /// untied copies for as many applications as the schedule gives it.
    pub open spec fn is_shape(self, shape: StackShape) -> bool {
        &&& shape.real_layers@.len() == self.n_real_layers
        &&& forall|r: int|
            0 <= r < self.n_real_layers ==> layer::is_layer_shape(
                #[trigger] shape.real_layers@[r],
                self.block.width() as int,
                self.mlp,
                self.untied@,
                self.applications(r),
            )
        &&& shape.residuals == self.residuals.spec_init(self.n_real_layers, self.count() as usize)
        &&& shape.class_latents_emb is Some == (self.class_latents@.len() > 0)
        &&& shape.class_latents_emb matches Some(dims) ==> dims[0] == self.class_latents@.len()
            && dims[1] == self.block.width()
    }

    /// Whether both build the same stack.
    pub open spec fn alike(self, other: LayersBuilder<C>) -> bool {
        &&& self.n_real_layers == other.n_real_layers
        &&& same_virtual(self.n_virtual_layers, other.n_virtual_layers)
        &&& self.block == other.block
        &&& self.ignore_first_residual == other.ignore_first_residual
        &&& self.ignore_last_residual == other.ignore_last_residual
        &&& self.class_latents@ == other.class_latents@
        &&& self.residuals == other.residuals
        &&& self.mlp == other.mlp
        &&& same_horizon(self.grad_horizon, other.grad_horizon)
        &&& self.untied@ == other.untied@
    }

    /// Builders of the same stack can be built alike, and build the same shape.
    pub proof fn lemma_alike(self, other: LayersBuilder<C>, shape: StackShape)
        requires
            self.alike(other),
        ensures
            self.builds() == other.builds(),
            self.is_shape(shape) == other.is_shape(shape),
    {
        assert(self.reals() =~= other.reals());
        assert forall|r: int| #[trigger] self.applications(r) == other.applications(r) by {}
        match (self.n_virtual_layers, other.n_virtual_layers) {
            (Some((n, s)), Some((_, o))) => {
                let m = self.n_real_layers as int;
                assert forall|v: int|
                    #![trigger s.lands(v, n as int, m)]
                    #![trigger o.lands(v, n as int, m)]
                    s.lands(v, n as int, m) == o.lands(v, n as int, m) by {}
                assert(s.covers(n as int, m) == o.covers(n as int, m));
            },
            _ => {},
        }
        if self.builds() {
            assert forall|r: int| 0 <= r < other.n_real_layers implies layer::buildable(
                other.block.width() as int,
                other.mlp,
                other.untied@,
                #[trigger] other.applications(r),
            ) by {
                assert(self.applications(r) == other.applications(r));
            }
        }
        if other.builds() {
            assert forall|r: int| 0 <= r < self.n_real_layers implies layer::buildable(
                self.block.width() as int,
                self.mlp,
                self.untied@,
                #[trigger] self.applications(r),
            ) by {
                assert(self.applications(r) == other.applications(r));
            }
        }
        assert forall|r: int|
            layer::is_layer_shape(
                #[trigger] shape.real_layers@[r],
                self.block.width() as int,
                self.mlp,
                self.untied@,
                self.applications(r),
            ) == layer::is_layer_shape(
                shape.real_layers@[r],
                other.block.width() as int,
                other.mlp,
                other.untied@,
                other.applications(r),
            ) by {}
    }

    /// Builder with no virtual scheduling, no class latents, residuals enabled.
    pub fn new(n_real_layers: usize, block: C) -> (builder: Self)
        ensures
            builder.n_real_layers == n_real_layers,
            builder.n_virtual_layers is None,
            builder.block == block,
            !builder.ignore_first_residual,
            !builder.ignore_last_residual,
            builder.class_latents@.len() == 0,
            builder.residuals is Standard,
            builder.mlp is None,
            builder.grad_horizon is None,
            builder.untied@.len() == 0,
    {
        LayersBuilder {
            n_real_layers,
            n_virtual_layers: None,
            block,
            ignore_first_residual: false,
            ignore_last_residual: false,
            class_latents: Vec::new(),
            residuals: ResidualsConfig::Standard,
            mlp: None,
            grad_horizon: None,
            untied: Vec::new(),
        }
    }

    /// Hold these layer parameters once per application. Empty ties them all.
    pub fn with_untied(self, untied: Vec<LayerUntied>) -> (builder: Self)
        ensures
            builder == (LayersBuilder { untied, ..self }),
    {
        LayersBuilder { untied, ..self }
    }

    /// Back-propagate only some of the (virtual) layers. `None`: the whole
    /// stack.
    pub fn with_grad_horizon(self, grad_horizon: Option<GradHorizon>) -> (builder: Self)
        ensures
            builder == (LayersBuilder { grad_horizon, ..self }),
    {
        LayersBuilder { grad_horizon, ..self }
    }

    /// Interleave a feed-forward sub-block after each layer's mixer. `None`
    /// keeps layers mixer-only.
    pub fn with_mlp(self, mlp: Option<GatedMlpConfig>) -> (builder: Self)
        ensures
            builder == (LayersBuilder { mlp, ..self }),
    {
        LayersBuilder { mlp, ..self }
    }

    /// Set the optional virtual-layer scheduling.
    pub fn with_n_virtual_layers(self, n: Option<(usize, Schedule)>) -> (builder: Self)
        ensures
            builder == (LayersBuilder { n_virtual_layers: n, ..self }),
    {
        LayersBuilder { n_virtual_layers: n, ..self }
    }

    /// Set the inter-layer residual scheme.
    pub fn with_residuals(self, residuals: ResidualsConfig) -> (builder: Self)
        ensures
            builder == (LayersBuilder { residuals, ..self }),
    {
        LayersBuilder { residuals, ..self }
    }

    /// Suppress the first virtual layer's residual.
    pub fn with_ignore_first_residual(self, ignore: bool) -> (builder: Self)
        ensures
            builder == (LayersBuilder { ignore_first_residual: ignore, ..self }),
    {
        LayersBuilder { ignore_first_residual: ignore, ..self }
    }

    /// Suppress the last virtual layer's residual.
    pub fn with_ignore_last_residual(self, ignore: bool) -> (builder: Self)
        ensures
            builder == (LayersBuilder { ignore_last_residual: ignore, ..self }),
    {
        LayersBuilder { ignore_last_residual: ignore, ..self }
    }

    /// Set the stack-level class latents.
    pub fn with_class_latents(self, class_latents: Vec<ClassLatent>) -> (builder: Self)
        ensures
            builder == (LayersBuilder { class_latents, ..self }),
    {
        LayersBuilder { class_latents, ..self }
    }

    /// Whether the stack can be built.
    pub fn can_build(&self) -> (ok: bool)
        ensures
            ok == self.builds(),
    {
        if let Some((n, schedule)) = &self.n_virtual_layers {
            if !schedule.runs(*n, self.n_real_layers) {
                return false;
            }
        }
        let d_model: usize = self.block.d_model();
        let apps = stack_applications(&self.n_virtual_layers, self.n_real_layers);
        let mlp = match &self.mlp {
            Some(mlp) => Some(mlp),
            None => None,
        };
        let mut r: usize = 0;
        while r < self.n_real_layers
            invariant
                r <= self.n_real_layers,
                d_model == self.block.width(),
                apps.counts(self.reals(), self.n_real_layers as int),
                schedule::option_deref(mlp) == self.mlp,
                self.n_virtual_layers matches Some((n, s)) ==> s.covers(
                    n as int,
                    self.n_real_layers as int,
                ),
                forall|s: int|
                    0 <= s < r ==> layer::buildable(
                        self.block.width() as int,
                        self.mlp,
                        self.untied@,
                        #[trigger] self.applications(s),
                    ),
            decreases self.n_real_layers - r,
        {
            assert(apps.count@[r as int] == self.applications(r as int));
            if !can_build_layer(d_model, mlp, &self.untied, apps.count[r]) {
                return false;
            }
            r = r + 1;
        }
        true
    }

    /// The shape of the stack. Each real layer holds its untied copies for as
    /// many applications as the schedule gives it.
    pub fn init(&self) -> (shape: StackShape)
        requires
            self.builds(),
        ensures
            self.is_shape(shape),
    {
        let d_model: usize = self.block.d_model();
        let n_virtual: usize = match &self.n_virtual_layers {
            Some((n, _)) => *n,
            None => self.n_real_layers,
        };
        let apps = stack_applications(&self.n_virtual_layers, self.n_real_layers);
        let mut real_layers: Vec<LayerShape> = Vec::new();
        let mut r: usize = 0;
        while r < self.n_real_layers
            invariant
                r <= self.n_real_layers,
                self.builds(),
                d_model == self.block.width(),
                apps.counts(self.reals(), self.n_real_layers as int),
                real_layers.len() == r,
                forall|s: int|
                    0 <= s < r ==> layer::is_layer_shape(
                        #[trigger] real_layers@[s],
                        d_model as int,
                        self.mlp,
                        self.untied@,
                        self.applications(s),
                    ),
            decreases self.n_real_layers - r,
        {
            let n_applications: usize = apps.count[r];
            assert(n_applications == self.applications(r as int));
            let mlp = match &self.mlp {
                Some(mlp) => Some(mlp),
                None => None,
            };
            real_layers.push(LayerShape::init(d_model, mlp, &self.untied, n_applications));
            r = r + 1;
        }
        StackShape {
            real_layers,
            residuals: self.residuals.init(self.n_real_layers, n_virtual),
            class_latents_emb: init_class_emb(self.class_latents.len(), d_model),
        }
    }
}

/// Whether both schedule the same virtual layers.
pub open spec fn same_virtual(
    a: Option<(usize, Schedule)>,
    b: Option<(usize, Schedule)>,
) -> bool {
    match (a, b) {
        (Some((n, s)), Some((m, o))) => n == m && s.same(o),
        (None, None) => true,
        _ => false,
    }
}

/// Whether both horizons track the same layers.
pub open spec fn same_horizon(a: Option<GradHorizon>, b: Option<GradHorizon>) -> bool {
    match (a, b) {
        (Some(a), Some(b)) => a.same(b),
        (None, None) => true,
        _ => false,
    }
}

} // verus!
