//! A whole-model initialisation policy: which parameters of a built model are
//! drawn again, and how.
//!
//! ```text
//!   weight (2-D)   drawn from a normal
//!   bias   (1-D)   zeroed
//!   everything else left as its own module built it
//! ```
//!
//! Only a parameter whose own field is `weight` (and is a matrix) or `bias` is
//! touched. The bespoke parameters of a block have initialisations that mean
//! something, and a global rule would erase them.
//!
//! A weight that writes into the residual stream can be drawn narrower, by the
//! root of the number of residual branches in the stack, so that the variance of
//! the stream does not grow with depth.
use crate::utils::text;
use vstd::prelude::*;

verus! {

/// How to re-initialise a built model. The standard deviation itself is the
/// caller's.
#[derive(Debug, Clone)]
pub struct InitPolicy {
    /// Zero every 1-D `bias`.
    pub zero_bias: bool,
    /// Path fragments that identify the weights that write into the residual
    /// stream. Empty: no rescale.
    pub residual_paths: Vec<String>,
    /// The total number of residual branches of the stack. A rescale has no
    /// meaning without it.
    pub residual_depth: Option<usize>,
}

/// What becomes of one parameter.
#[derive(Debug, Clone, Copy, PartialEq, Eq, Structural)]
pub enum Draw {
    /// It stays as its own module built it.
    Keep,
    /// It is zeroed.
    Zero,
    /// It is drawn from a normal at the standard deviation of the policy,
    /// divided by the root of `depth`.
    Normal {
        /// The divisor, under its root. `None`: no rescale.
        depth: Option<usize>,
    },
}

/// One parameter of a module: the names of the modules that hold it, the field
/// last, and its rank.
#[derive(Debug, Clone)]
pub struct ParamSite {
    /// The names on the way to the parameter.
    pub path: Vec<String>,
    /// Its rank.
    pub rank: usize,
}

/// The field that holds the parameter at `path`.
pub open spec fn field_of(path: Seq<Seq<char>>) -> Seq<char> {
    if path.len() == 0 {
        ""@
    } else {
        path.last()
    }
}

impl Default for InitPolicy {
    /// No rescale, and zeroed biases.
    fn default() -> (policy: Self)
        ensures
            policy.zero_bias,
            policy.residual_paths@.len() == 0,
            policy.residual_depth is None,
    {
        InitPolicy { zero_bias: true, residual_paths: Vec::new(), residual_depth: None }
    }
}

impl InitPolicy {
    /// Whether the weight at `path` writes into the residual stream.
    pub open spec fn on_residual_path(self, path: Seq<char>) -> bool {
        exists|i: int|
            0 <= i < self.residual_paths@.len() && text::within(
                (#[trigger] self.residual_paths@[i])@,
                path,
            )
    }

    /// The divisor of the weight at `path`, under its root.
    pub open spec fn divisor(self, path: Seq<char>) -> Option<usize> {
        if self.on_residual_path(path) {
            self.residual_depth
        } else {
            None
        }
    }

    /// Whether every rescale has a depth to count.
    pub open spec fn counts(self, path: Seq<char>) -> bool {
        self.on_residual_path(path) ==> self.residual_depth is Some
    }

    /// What becomes of the parameter at `path`.
    pub open spec fn draw(self, path: Seq<Seq<char>>, rank: int) -> Draw {
        if field_of(path) == "weight"@ && rank == 2 {
            Draw::Normal { depth: self.divisor(text::joined(path, "."@)) }
        } else if field_of(path) == "bias"@ && rank == 1 && self.zero_bias {
            Draw::Zero
        } else {
            Draw::Keep
        }
    }

    /// Whether what becomes of the parameter at `path` is defined.
    pub open spec fn draws(self, path: Seq<Seq<char>>, rank: int) -> bool {
        field_of(path) == "weight"@ && rank == 2 ==> self.counts(text::joined(path, "."@))
    }

    /// The weights that write into the residual stream: the output projection
    /// of a block, and the down-projection of the feed-forward.
    pub fn default_residual_paths() -> (paths: Vec<String>)
        ensures
            text::views(paths@) == seq!["out_proj.weight"@, "mlp.fc2.weight"@],
    {
        let mut paths: Vec<String> = Vec::new();
        paths.push("out_proj.weight".to_owned());
        paths.push("mlp.fc2.weight".to_owned());
        assert(text::views(paths@) =~= seq!["out_proj.weight"@, "mlp.fc2.weight"@]);
        paths
    }

    /// Set [`Self::zero_bias`].
    pub fn with_zero_bias(self, zero_bias: bool) -> (policy: Self)
        ensures
            policy == (InitPolicy { zero_bias, ..self }),
    {
        InitPolicy { zero_bias, ..self }
    }

    /// Set [`Self::residual_paths`].
    pub fn with_residual_paths(self, residual_paths: Vec<String>) -> (policy: Self)
        ensures
            policy == (InitPolicy { residual_paths, ..self }),
    {
        InitPolicy { residual_paths, ..self }
    }

    /// Set [`Self::residual_depth`].
    pub fn with_residual_depth(self, residual_depth: Option<usize>) -> (policy: Self)
        ensures
            policy == (InitPolicy { residual_depth, ..self }),
    {
        InitPolicy { residual_depth, ..self }
    }

    /// Set [`Self::residual_depth`] when the caller did not state one. A
    /// network config uses this to supply the depth that only it knows.
    pub fn with_default_residual_depth(self, depth: usize) -> (policy: Self)
        ensures
            policy == (InitPolicy {
                residual_depth: match self.residual_depth {
                    Some(stated) => Some(stated),
                    None => Some(depth),
                },
                ..self
            }),
    {
        let residual_depth = match self.residual_depth {
            Some(stated) => Some(stated),
            None => Some(depth),
        };
        InitPolicy { residual_depth, ..self }
    }

    /// Whether the weight at `path` writes into the residual stream.
    fn is_residual(&self, path: &str) -> (found: bool)
        ensures
            found == self.on_residual_path(path@),
    {
        let mut i: usize = 0;
        while i < self.residual_paths.len()
            invariant
                i <= self.residual_paths@.len(),
                forall|j: int|
                    0 <= j < i ==> !text::within((#[trigger] self.residual_paths@[j])@, path@),
            decreases self.residual_paths@.len() - i,
        {
            if text::contains(path, self.residual_paths[i].as_str()) {
                return true;
            }
            i = i + 1;
        }
        false
    }

    /// By what the standard deviation of the weight at `path` is divided, under
    /// its root. `None`: it is drawn at the standard deviation itself.
    pub fn std_for(&self, path: &str) -> (depth: Option<usize>)
        requires
            self.counts(path@),
        ensures
            depth == self.divisor(path@),
    {
        if self.is_residual(path) {
            self.residual_depth
        } else {
            None
        }
    }

    /// Whether a rescale of the weight at `path`, if there is one, has a depth
    /// to count.
    pub fn has_depth_for(&self, path: &str) -> (ok: bool)
        ensures
            ok == self.counts(path@),
    {
        self.residual_depth.is_some() || !self.is_residual(path)
    }

    /// What becomes of every parameter of a module.
    pub fn apply(&self, params: &Vec<ParamSite>) -> (draws: Vec<Draw>)
        requires
            forall|i: int|
                0 <= i < params@.len() ==> self.draws(
                    text::views((#[trigger] params@[i]).path@),
                    params@[i].rank as int,
                ),
        ensures
            draws@.len() == params@.len(),
            forall|i: int|
                0 <= i < params@.len() ==> #[trigger] draws@[i] == self.draw(
                    text::views(params@[i].path@),
                    params@[i].rank as int,
                ),
    {
        let mut draws: Vec<Draw> = Vec::new();
        let mut i: usize = 0;
        while i < params.len()
            invariant
                i <= params@.len(),
                draws.len() == i,
                forall|j: int|
                    0 <= j < params@.len() ==> self.draws(
                        text::views((#[trigger] params@[j]).path@),
                        params@[j].rank as int,
                    ),
                forall|j: int|
                    0 <= j < i ==> #[trigger] draws@[j] == self.draw(
                        text::views(params@[j].path@),
                        params@[j].rank as int,
                    ),
            decreases params@.len() - i,
        {
            draws.push(self.map_float(&params[i].path, params[i].rank));
            i = i + 1;
        }
        draws
    }

    /// Whether what becomes of the parameter at `path` is defined: only a matrix
    /// stored as `weight` can lack the depth of its rescale.
    pub fn can_map_float(&self, path: &Vec<String>, rank: usize) -> (ok: bool)
        ensures
            ok == self.draws(text::views(path@), rank as int),
    {
        if rank == 2 && field(path) == "weight".to_owned() {
            let whole = text::join(path, ".");
            self.has_depth_for(whole.as_str())
        } else {
            true
        }
    }

    /// What becomes of the parameter at `path`.
    pub fn map_float(&self, path: &Vec<String>, rank: usize) -> (draw: Draw)
        requires
            self.draws(text::views(path@), rank as int),
        ensures
            draw == self.draw(text::views(path@), rank as int),
    {
        let field = field(path);
        if rank == 2 && field == "weight".to_owned() {
            let whole = text::join(path, ".");
            Draw::Normal { depth: self.std_for(whole.as_str()) }
        } else if rank == 1 && self.zero_bias && field == "bias".to_owned() {
            Draw::Zero
        } else {
            Draw::Keep
        }
    }
}

/// The field that holds the parameter at `path`.
fn field(path: &Vec<String>) -> (name: String)
    ensures
        name@ == field_of(text::views(path@)),
{
    if path.len() == 0 {
        "".to_owned()
    } else {
        path[path.len() - 1].clone()
    }
}

/// A parameter that is neither a matrix stored as `weight` nor a 1-D `bias` is
/// left alone, whatever the policy.
pub proof fn bespoke_parameters_are_left_alone(
    policy: InitPolicy,
    path: Seq<Seq<char>>,
    rank: int,
)
    requires
        !(field_of(path) == "weight"@ && rank == 2),
        !(field_of(path) == "bias"@ && rank == 1),
    ensures
        policy.draw(path, rank) is Keep,
{
}

/// Without residual paths, every matrix stored as `weight` is drawn alike.
pub proof fn no_residual_paths_is_no_rescale(
    policy: InitPolicy,
    path: Seq<Seq<char>>,
    rank: int,
)
    requires
        policy.residual_paths@.len() == 0,
    ensures
        policy.draws(path, rank),
        policy.draw(path, rank) matches Draw::Normal { depth } ==> depth is None,
{
}

/// Once a network has stated its depth, what becomes of every parameter is
/// defined.
pub proof fn a_stated_depth_defines_every_draw(
    policy: InitPolicy,
    path: Seq<Seq<char>>,
    rank: int,
)
    requires
        policy.residual_depth is Some,
    ensures
        policy.draws(path, rank),
{
}

/// A matrix stored as `weight` is drawn from a normal, narrower by the depth where its
/// path holds one of the residual ones.
pub proof fn a_weight_is_drawn_narrower_on_a_residual_path(
    policy: InitPolicy,
    path: Seq<Seq<char>>,
    i: int,
)
    requires
        path.len() > 0,
        path.last() == "weight"@,
        0 <= i < policy.residual_paths@.len(),
    ensures
        text::within(policy.residual_paths@[i]@, text::joined(path, "."@)) ==> policy.draw(path, 2)
            == (Draw::Normal { depth: policy.residual_depth }) && policy.draws(path, 2)
            == policy.residual_depth is Some,
        (forall|j: int|
            0 <= j < policy.residual_paths@.len() ==> !text::within(
                (#[trigger] policy.residual_paths@[j])@,
                text::joined(path, "."@),
            )) ==> policy.draw(path, 2) == (Draw::Normal { depth: None }) && policy.draws(path, 2),
{
    let whole = text::joined(path, "."@);
    if text::within(policy.residual_paths@[i]@, whole) {
        assert(policy.on_residual_path(whole));
    }
}

/// A 1-D `bias` is zeroed where the policy says so. A `weight` of another rank, a
/// `bias` of another rank and a parameter of another field are kept.
pub proof fn a_bias_is_zeroed_where_the_policy_says_so(
    policy: InitPolicy,
    path: Seq<Seq<char>>,
    rank: int,
)
    requires
        path.len() > 0,
    ensures
        path.last() == "bias"@ && rank == 1 ==> policy.draw(path, rank) == (if policy.zero_bias {
            Draw::Zero
        } else {
            Draw::Keep
        }),
        path.last() != "weight"@ && path.last() != "bias"@ ==> policy.draw(path, rank) is Keep,
        path.last() == "weight"@ && rank != 2 ==> policy.draw(path, rank) is Keep,
        path.last() == "bias"@ && rank != 1 ==> policy.draw(path, rank) is Keep,
        path.last() != "weight"@ || rank != 2 ==> policy.draws(path, rank),
{
    reveal_strlit("weight");
    reveal_strlit("bias");
    assert("weight"@.len() != "bias"@.len());
}

/// A parameter without a name is kept.
pub proof fn a_nameless_parameter_is_kept(policy: InitPolicy, rank: int)
    ensures
        policy.draw(Seq::empty(), rank) is Keep,
        policy.draws(Seq::empty(), rank),
{
    reveal_strlit("");
    reveal_strlit("weight");
    reveal_strlit("bias");
    assert(""@.len() != "weight"@.len() && ""@.len() != "bias"@.len());
}

} // verus!
