//! How a stack threads residuals between its layers: the plain additive skip,
//! or Multi-Gate Residuals.
//!
//! Multi-Gate Residuals carry up to `n_stream` parallel streams. The input seeds
//! the first one. The early layers append their transform as a new stream
//! (accumulation), and the later ones mix theirs into every stream.
use vstd::prelude::*;

verus! {

/// The mixing modules of a stack. When `per_virtual` is `false` there is one
/// module **per real layer** (virtual layers reuse them by real index); when
/// `true` there is one **per virtual layer**.
#[derive(Debug, Clone, Copy, PartialEq, Eq, Structural)]
pub struct MultiGate {
    /// The number of modules.
    pub n_modules: usize,
    /// Number of parallel residual streams.
    pub n_stream: usize,
    /// `true`: one module per *virtual* layer (indexed by virtual position);
    /// `false`: one per *real* layer (reused across virtual passes).
    pub per_virtual: bool,
}

impl MultiGate {
    /// The module of a `(virtual_idx, real_idx)` layer position.
    pub open spec fn spec_module_index(self, virtual_idx: int, real_idx: int) -> int {
        if self.per_virtual {
            virtual_idx
        } else {
            real_idx
        }
    }

    /// The module of a `(virtual_idx, real_idx)` layer position: the virtual
    /// index when each virtual layer owns its module ([`Self::per_virtual`]),
    /// otherwise the real index.
    pub fn module_index(&self, virtual_idx: usize, real_idx: usize) -> (index: usize)
        ensures
            index == self.spec_module_index(virtual_idx as int, real_idx as int),
    {
        if self.per_virtual {
            virtual_idx
        } else {
            real_idx
        }
    }
}

/// How a stack threads residuals between layers.
#[derive(Debug, Clone, Copy, PartialEq, Eq, Structural)]
pub enum Residuals {
    /// Plain additive residual: each layer adds its own skip connection.
    Standard,
    /// Multi-Gate Residuals: `n_stream` parallel streams with per-layer mixing
    /// and attention pooling.
    MultiGate(MultiGate),
}

/// What a layer does with the residual around its transform.
#[derive(Debug, Clone, Copy, PartialEq, Eq, Structural)]
pub enum ResidualOp {
    /// Add the input of the layer to its transform.
    Skip,
    /// The transform alone.
    Bare,
    /// The transform alone; the carried streams stay as they are.
    Output,
    /// The transform becomes the only stream.
    Restart,
    /// The transform becomes a new stream, then the streams are pooled by this
    /// module.
    Accumulate(usize),
    /// The transform is mixed into every stream, then the streams are pooled by
    /// this module.
    Mix(usize),
}

impl Residuals {
    /// Whether the streams can be carried: at least one.
    pub open spec fn wf(self) -> bool {
        self matches Residuals::MultiGate(mg) ==> mg.n_stream >= 1
    }

    /// What a layer does with its residual, as `k` streams enter it.
    pub open spec fn op(
        self,
        first: bool,
        last: bool,
        k: int,
        virtual_idx: int,
        real_idx: int,
    ) -> ResidualOp {
        match self {
            Residuals::Standard => if first || last {
                ResidualOp::Bare
            } else {
                ResidualOp::Skip
            },
            Residuals::MultiGate(mg) => if last {
                ResidualOp::Output
            } else if first {
                ResidualOp::Restart
            } else if k < mg.n_stream {
                ResidualOp::Accumulate(mg.spec_module_index(virtual_idx, real_idx) as usize)
            } else {
                ResidualOp::Mix(mg.spec_module_index(virtual_idx, real_idx) as usize)
            },
        }
    }

    /// How many streams leave a layer that `k` streams enter. A suppressed last
    /// residual leaves the streams untouched. A suppressed first residual
    /// restarts them. Otherwise the accumulation appends one until `n_stream`
    /// is reached.
    pub open spec fn next_streams(self, first: bool, last: bool, k: int) -> int {
        match self {
            Residuals::Standard => 1,
            Residuals::MultiGate(mg) => if last {
                k
            } else if first {
                1
            } else if k + 1 <= mg.n_stream {
                k + 1
            } else {
                mg.n_stream as int
            },
        }
    }

    /// What a layer does with its residual, as `k` streams enter it, and how
    /// many leave it.
    pub fn step(&self, first: bool, last: bool, k: usize, virtual_idx: usize, real_idx: usize) -> (
    step: (ResidualOp, usize))
        requires
            self.wf(),
        ensures
            step.0 == self.op(first, last, k as int, virtual_idx as int, real_idx as int),
            step.1 == self.next_streams(first, last, k as int),
            match step.0 {
                ResidualOp::Accumulate(m) | ResidualOp::Mix(m) => *self matches Residuals::MultiGate(
                    mg,
                ) && m == (if mg.per_virtual {
                    virtual_idx
                } else {
                    real_idx
                }),
                _ => true,
            },
    {
        match self {
            Residuals::Standard => if first || last {
                (ResidualOp::Bare, 1)
            } else {
                (ResidualOp::Skip, 1)
            },
            Residuals::MultiGate(mg) => if last {
                (ResidualOp::Output, k)
            } else if first {
                (ResidualOp::Restart, 1)
            } else if k < mg.n_stream {
                (ResidualOp::Accumulate(mg.module_index(virtual_idx, real_idx)), k + 1)
            } else {
                (ResidualOp::Mix(mg.module_index(virtual_idx, real_idx)), mg.n_stream)
            },
        }
    }
}

/// Configuration / factory for [`Residuals`].
#[derive(Debug, Clone, Copy, PartialEq, Eq, Structural)]
pub enum ResidualsConfig {
    /// Plain additive residual.
    Standard,
    /// Multi-Gate Residuals over `n_stream` streams.
    MultiGate {
        /// Number of parallel residual streams.
        n_stream: usize,
        /// `true`: one module per *virtual* layer; `false`: one per *real*
        /// layer (reused across virtual passes).
        per_virtual_layer: bool,
    },
}

impl ResidualsConfig {
    /// The residuals of a stack.
    pub open spec fn spec_init(self, n_real_layers: usize, n_virtual_layers: usize) -> Residuals {
        match self {
            ResidualsConfig::Standard => Residuals::Standard,
            ResidualsConfig::MultiGate { n_stream, per_virtual_layer } => Residuals::MultiGate(
                MultiGate {
                    n_modules: if per_virtual_layer {
                        n_virtual_layers
                    } else {
                        n_real_layers
                    },
                    n_stream,
                    per_virtual: per_virtual_layer,
                },
            ),
        }
    }

    /// Build the [`Residuals`] for a stack of `n_real_layers` real weight sets
    /// unrolled over `n_virtual_layers` (virtual) passes. The module count
    /// follows `per_virtual_layer`.
    pub fn init(&self, n_real_layers: usize, n_virtual_layers: usize) -> (residuals: Residuals)
        ensures
            residuals == self.spec_init(n_real_layers, n_virtual_layers),
            residuals matches Residuals::MultiGate(mg) ==> mg.n_modules == (if mg.per_virtual {
                n_virtual_layers
            } else {
                n_real_layers
            }),
    {
        match self {
            ResidualsConfig::Standard => Residuals::Standard,
            ResidualsConfig::MultiGate { n_stream, per_virtual_layer } => Residuals::MultiGate(
                MultiGate {
                    n_modules: if *per_virtual_layer {
                        n_virtual_layers
                    } else {
                        n_real_layers
                    },
                    n_stream: *n_stream,
                    per_virtual: *per_virtual_layer,
                },
            ),
        }
    }
}

/// The streams of a stack never outgrow `n_stream`, and at least one is always
/// carried.
pub proof fn streams_stay_within_bounds(
    residuals: Residuals,
    first: bool,
    last: bool,
    k: int,
)
    requires
        residuals matches Residuals::MultiGate(mg) && mg.n_stream >= 1 && 1 <= k <= mg.n_stream,
    ensures
        residuals matches Residuals::MultiGate(mg) && 1 <= residuals.next_streams(first, last, k)
            <= mg.n_stream,
{
}

/// The stream count that a layer leaves is the one its residual step makes: a
/// new stream is accumulated exactly while there is room.
pub proof fn accumulation_adds_one_stream(
    residuals: Residuals,
    first: bool,
    last: bool,
    k: int,
    virtual_idx: int,
    real_idx: int,
)
    requires
        residuals matches Residuals::MultiGate(mg) && mg.n_stream >= 1 && 1 <= k <= mg.n_stream,
    ensures
        match residuals.op(first, last, k, virtual_idx, real_idx) {
            ResidualOp::Output => residuals.next_streams(first, last, k) == k,
            ResidualOp::Restart => residuals.next_streams(first, last, k) == 1,
            ResidualOp::Accumulate(_) => residuals.next_streams(first, last, k) == k + 1,
            ResidualOp::Mix(_) => residuals.next_streams(first, last, k) == k,
            _ => false,
        },
{
}

/// Every module a built stack asks for exists.
pub proof fn built_modules_cover_the_stack(
    config: ResidualsConfig,
    n_real_layers: usize,
    n_virtual_layers: usize,
    virtual_idx: int,
    real_idx: int,
)
    requires
        0 <= virtual_idx < n_virtual_layers,
        0 <= real_idx < n_real_layers,
    ensures
        config.spec_init(n_real_layers, n_virtual_layers) matches Residuals::MultiGate(mg)
            ==> mg.spec_module_index(virtual_idx, real_idx) < mg.n_modules,
{
}

/// Which layers keep their residual. A plain stack adds the input of a layer to its
/// transform, but for the first and the last layer where those are suppressed. With
/// streams, a suppressed last layer leaves the streams as they are and a suppressed
/// first one starts them again. Every other layer accumulates while there is room,
/// and mixes from then on.
pub proof fn residuals_are_kept_but_where_suppressed(
    residuals: Residuals,
    first: bool,
    last: bool,
    k: int,
    virtual_idx: int,
    real_idx: int,
)
    ensures
        ({
            let op = residuals.op(first, last, k, virtual_idx, real_idx);
            match residuals {
                Residuals::Standard => {
                    &&& op is Bare == (first || last)
                    &&& op is Skip == (!first && !last)
                    &&& residuals.next_streams(first, last, k) == 1
                },
                Residuals::MultiGate(mg) => {
                    &&& op is Output == last
                    &&& op is Restart == (first && !last)
                    &&& op is Accumulate == (!first && !last && k < mg.n_stream)
                    &&& op is Mix == (!first && !last && k >= mg.n_stream)
                    &&& last ==> residuals.next_streams(first, last, k) == k
                    &&& first && !last ==> residuals.next_streams(first, last, k) == 1
                    &&& !first && !last && k < mg.n_stream ==> residuals.next_streams(
                        first,
                        last,
                        k,
                    ) == k + 1
                    &&& !first && !last && k >= mg.n_stream ==> residuals.next_streams(
                        first,
                        last,
                        k,
                    ) == mg.n_stream
                },
            }
        }),
{
}

/// Whether it accumulates or mixes, a layer pools with one module: its own where
/// every virtual layer has one, else that of its real layer.
pub proof fn a_layer_pools_with_its_own_module(
    mg: MultiGate,
    k: int,
    virtual_idx: usize,
    real_idx: usize,
)
    ensures
        ({
            let own = if mg.per_virtual {
                virtual_idx
            } else {
                real_idx
            };
            match Residuals::MultiGate(mg).op(
                false,
                false,
                k,
                virtual_idx as int,
                real_idx as int,
            ) {
                ResidualOp::Accumulate(m) => m == own,
                ResidualOp::Mix(m) => m == own,
                _ => false,
            }
        }),
{
}

/// Two layers share a module exactly where they share a real layer, and where every
/// virtual layer has its own module never.
pub proof fn layers_share_a_module_with_their_real_layer(
    mg: MultiGate,
    k: int,
    l: int,
    virtual_a: usize,
    virtual_b: usize,
    real_a: usize,
    real_b: usize,
)
    requires
        virtual_a != virtual_b,
    ensures
        ({
            let residuals = Residuals::MultiGate(mg);
            let a = match residuals.op(false, false, k, virtual_a as int, real_a as int) {
                ResidualOp::Accumulate(m) => Some(m),
                ResidualOp::Mix(m) => Some(m),
                _ => None,
            };
            let b = match residuals.op(false, false, l, virtual_b as int, real_b as int) {
                ResidualOp::Accumulate(m) => Some(m),
                ResidualOp::Mix(m) => Some(m),
                _ => None,
            };
            &&& a is Some && b is Some
            &&& a == b <==> (!mg.per_virtual && real_a == real_b)
        }),
{
}

/// A stack is built with the streams it asks for, and with one module for each of the
/// layers that own one.
pub proof fn a_built_stack_has_one_module_per_owner(
    config: ResidualsConfig,
    n_real_layers: usize,
    n_virtual_layers: usize,
)
    ensures
        match (config, config.spec_init(n_real_layers, n_virtual_layers)) {
            (ResidualsConfig::Standard, Residuals::Standard) => true,
            (
                ResidualsConfig::MultiGate { n_stream, per_virtual_layer },
                Residuals::MultiGate(mg),
            ) => {
                &&& mg.n_stream == n_stream
                &&& mg.per_virtual == per_virtual_layer
                &&& per_virtual_layer ==> mg.n_modules == n_virtual_layers
                &&& !per_virtual_layer ==> mg.n_modules == n_real_layers
            },
            _ => false,
        },
{
}

} // verus!
