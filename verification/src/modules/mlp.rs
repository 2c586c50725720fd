//! The SwiGLU feed-forward block that some checkpoints interleave between
//! sequence mixers: `fc2(v * silu(g))` where `[v | g] = fc1(x)`.
//!
//! The value half comes first and its gating half second, the order the fused
//! `fc1` matrix of a checkpoint is stored in. The inner width is rounded **up**
//! to a multiple of [`GatedMlpConfig::multiple_of`], so the config figure and
//! the checkpoint shape can legitimately disagree.
use crate::modules::linear::LinearShape;
use vstd::arithmetic::div_mod;
use vstd::prelude::*;

verus! {

/// The inner width a config rounds up to a multiple of, unless it says
/// otherwise.
pub const DEFAULT_MULTIPLE_OF: usize = 128;

/// `x` rounded up to a multiple of `multiple`.
pub open spec fn rounded_up(x: int, multiple: int) -> int {
    ((x + multiple - 1) / multiple) * multiple
}

/// `x` rounded up is the least multiple that `x` does not exceed.
pub proof fn rounded_up_is_the_least_multiple(x: int, multiple: int)
    requires
        0 <= x,
        0 < multiple,
    ensures
        rounded_up(x, multiple) % multiple == 0,
        x <= rounded_up(x, multiple) < x + multiple,
{
    let q = (x + multiple - 1) / multiple;
    div_mod::lemma_fundamental_div_mod(x + multiple - 1, multiple);
    div_mod::lemma_mod_multiples_basic(q, multiple);
    assert(q * multiple == multiple * q) by (nonlinear_arith);
}

/// A multiple stays, and what lies between two multiples goes to the next.
pub proof fn lemma_rounded_up(x: int, multiple: int)
    requires
        0 <= x,
        0 < multiple,
    ensures
        rounded_up(x, multiple) == (if x % multiple == 0 {
            x
        } else {
            x - x % multiple + multiple
        }),
        0 <= x % multiple < multiple,
        x % multiple <= x,
{
    rounded_up_is_the_least_multiple(x, multiple);
    div_mod::lemma_fundamental_div_mod(x, multiple);
    let rest = x % multiple;
    let r = rounded_up(x, multiple);
    let d = r - (x - rest);
    div_mod::lemma_mod_bound(x, multiple);
    div_mod::lemma_mod_decreases(x as nat, multiple as nat);
    div_mod::lemma_sub_mod_noop(x, rest, multiple);
    div_mod::lemma_small_mod(rest as nat, multiple as nat);
    div_mod::lemma_small_mod(0, multiple as nat);
    assert((x - rest) % multiple == 0);
    div_mod::lemma_sub_mod_noop(r, x - rest, multiple);
    assert(d % multiple == 0);
    if d < multiple {
        div_mod::lemma_small_mod(d as nat, multiple as nat);
    } else {
        div_mod::lemma_mod_sub_multiples_vanish(d, multiple);
        div_mod::lemma_small_mod((d - multiple) as nat, multiple as nat);
    }
}

/// Round `x` up to a multiple of `multiple`.
pub fn round_up(x: usize, multiple: usize) -> (rounded: usize)
    requires
        0 < multiple,
        rounded_up(x as int, multiple as int) <= usize::MAX,
    ensures
        rounded == rounded_up(x as int, multiple as int),
{
    proof {
        lemma_rounded_up(x as int, multiple as int);
    }
    let rest: usize = x % multiple;
    if rest == 0 {
        x
    } else {
        x - rest + multiple
    }
}

/// Whether `x` rounds up to a multiple that fits the machine integers.
pub fn can_round_up(x: usize, multiple: usize) -> (ok: bool)
    ensures
        ok == (multiple > 0 && rounded_up(x as int, multiple as int) <= usize::MAX),
{
    if multiple == 0 {
        return false;
    }
    proof {
        lemma_rounded_up(x as int, multiple as int);
    }
    let rest: usize = x % multiple;
    rest == 0 || x - rest <= usize::MAX - multiple
}

/// Configuration to create a [`GatedMlp`].
#[derive(Debug, Clone, Copy, PartialEq, Eq, Structural)]
pub struct GatedMlpConfig {
    /// Input and output width (the residual stream).
    pub d_model: usize,
    /// Inner width **before** rounding.
    pub d_intermediate: usize,
    /// Round [`Self::d_intermediate`] up to a multiple of this.
    pub multiple_of: usize,
    /// Whether `fc1`/`fc2` carry a bias term.
    pub has_proj_bias: bool,
}

impl GatedMlpConfig {
    /// A config with the default rounding and no bias.
    pub fn new(d_model: usize, d_intermediate: usize) -> (config: Self)
        ensures
            config == (GatedMlpConfig {
                d_model,
                d_intermediate,
                multiple_of: DEFAULT_MULTIPLE_OF,
                has_proj_bias: false,
            }),
            config.multiple_of == 128,
    {
        GatedMlpConfig {
            d_model,
            d_intermediate,
            multiple_of: DEFAULT_MULTIPLE_OF,
            has_proj_bias: false,
        }
    }

    /// Set [`Self::multiple_of`].
    pub fn with_multiple_of(self, multiple_of: usize) -> (config: Self)
        ensures
            config == (GatedMlpConfig { multiple_of, ..self }),
    {
        GatedMlpConfig { multiple_of, ..self }
    }

    /// Set [`Self::has_proj_bias`].
    pub fn with_has_proj_bias(self, has_proj_bias: bool) -> (config: Self)
        ensures
            config == (GatedMlpConfig { has_proj_bias, ..self }),
    {
        GatedMlpConfig { has_proj_bias, ..self }
    }

    /// The realised inner width.
    pub open spec fn spec_hidden(self) -> int {
        rounded_up(self.d_intermediate as int, self.multiple_of as int)
    }

    /// Whether the inner width is defined, and fits the machine integers.
    pub open spec fn has_hidden(self) -> bool {
        self.multiple_of > 0 && self.spec_hidden() <= usize::MAX
    }

    /// The realised inner width: [`Self::d_intermediate`] rounded up to a
    /// multiple of [`Self::multiple_of`].
    pub fn hidden(&self) -> (hidden: usize)
        requires
            self.has_hidden(),
        ensures
            hidden == self.spec_hidden(),
    {
        round_up(self.d_intermediate, self.multiple_of)
    }

    /// Whether the block has a width that fits the machine integers.
    pub open spec fn inits(self) -> bool {
        self.has_hidden() && 2 * self.spec_hidden() <= usize::MAX
    }

    /// Whether the block has a width that fits the machine integers.
    pub fn can_init(&self) -> (ok: bool)
        ensures
            ok == self.inits(),
    {
        can_round_up(self.d_intermediate, self.multiple_of) && self.hidden() <= usize::MAX / 2
    }

    /// The shape of a new [`GatedMlp`].
    pub fn init(&self) -> (mlp: GatedMlp)
        requires
            self.inits(),
        ensures
            mlp.fc1 == (LinearShape {
                d_input: self.d_model,
                d_output: (2 * self.spec_hidden()) as usize,
                has_bias: self.has_proj_bias,
            }),
            mlp.fc2 == (LinearShape {
                d_input: self.spec_hidden() as usize,
                d_output: self.d_model,
                has_bias: self.has_proj_bias,
            }),
            mlp.wf(),
    {
        proof {
            rounded_up_is_the_least_multiple(self.d_intermediate as int, self.multiple_of as int);
        }
        let hidden: usize = self.hidden();
        GatedMlp {
            fc1: LinearShape::new(self.d_model, 2 * hidden, self.has_proj_bias),
            fc2: LinearShape::new(hidden, self.d_model, self.has_proj_bias),
        }
    }
}

/// The shape of a SwiGLU feed-forward block.
///
/// Should be created using the [`GatedMlpConfig`] configuration.
#[derive(Debug, Clone, Copy, PartialEq, Eq, Structural)]
pub struct GatedMlp {
    /// Fused value+gate up-projection, `d_model` to `2 * hidden`.
    pub fc1: LinearShape,
    /// Down-projection, `hidden` to `d_model`.
    pub fc2: LinearShape,
}

impl GatedMlp {
    /// The up-projection holds both halves, and the block keeps its width.
    pub open spec fn wf(self) -> bool {
        &&& self.fc1.d_output == 2 * self.fc2.d_input
        &&& self.fc1.d_input == self.fc2.d_output
    }

    /// The inner width `hidden` (inferred from `fc2`).
    pub fn hidden(&self) -> (hidden: usize)
        ensures
            hidden == self.fc2.d_input,
    {
        self.fc2.d_input
    }

    /// Where the value half and its gating half of the up-projection lie, as
    /// `(start, width)` column ranges: the value half first.
    pub fn halves(&self) -> (halves: [(usize, usize); 2])
        requires
            self.wf(),
        ensures
            halves[0] == (0usize, self.fc2.d_input),
            halves[1] == (self.fc2.d_input, self.fc2.d_input),
            halves[1].0 + halves[1].1 == self.fc1.d_output,
    {
        let hidden: usize = self.hidden();
        [(0, hidden), (hidden, hidden)]
    }
}

} // verus!
