//! A different optimizer on each column block of a fused projection weight.
//!
//! Muon orthogonalises the *whole* matrix that it gets. A fused projection would
//! then couple the singular values of unrelated maps. [`Segmented`] slices the
//! weight and its gradient along the fused axis, steps each block with its own
//! optimizer, and concatenates the results. So each sub-matrix is stepped on
//! its own, exactly as if it were a separate projection.
use crate::optim::spec::ProjSpec;
use crate::utils::order;
use vstd::arithmetic::div_mod;
use vstd::prelude::*;

verus! {

/// The optimizer that owns the parameters and the segments Muon does not.
#[derive(Debug, Clone, Copy, PartialEq, Eq, Structural)]
pub enum Fallback {
    /// AdamW.
    AdamW,
    /// Plain SGD, which keeps no state.
    Sgd,
}

/// The optimizer owning one column block.
#[derive(Debug, Clone, Copy, PartialEq, Eq, Structural)]
pub enum BlockOptim {
    /// Orthogonalised momentum, for genuine feature maps.
    Muon,
    /// The fallback for scalar-producing (or otherwise unsuitable) blocks.
    AdamW,
    /// The stateless fallback: no entry in the optimizer state.
    Sgd,
}

impl BlockOptim {
    /// The kind of state that a block of this optimizer keeps.
    pub open spec fn spec_state(self) -> Option<BlockState> {
        match self {
            BlockOptim::Muon => Some(BlockState::Muon),
            BlockOptim::AdamW => Some(BlockState::AdamW),
            BlockOptim::Sgd => None,
        }
    }

    /// The kind of state that a block of this optimizer keeps.
    pub fn state(&self) -> (state: Option<BlockState>)
        ensures
            state == self.spec_state(),
    {
        match self {
            BlockOptim::Muon => Some(BlockState::Muon),
            BlockOptim::AdamW => Some(BlockState::AdamW),
            BlockOptim::Sgd => None,
        }
    }

    /// Whether a block of this optimizer keeps a state.
    pub fn is_stateful(&self) -> (stateful: bool)
        ensures
            stateful == self.spec_state() is Some,
    {
        !matches!(self, BlockOptim::Sgd)
    }
}

/// The kind of one block's optimizer state.
#[derive(Debug, Clone, Copy, PartialEq, Eq, Structural)]
pub enum BlockState {
    /// State of a Muon block.
    Muon,
    /// State of an AdamW block.
    AdamW,
}

/// The sum of the widths.
pub open spec fn total(widths: Seq<usize>) -> int
    decreases widths.len(),
{
    if widths.len() == 0 {
        0
    } else {
        total(widths.drop_last()) + widths.last()
    }
}

proof fn lemma_total_grows(widths: Seq<usize>, n: int)
    requires
        0 <= n <= widths.len(),
    ensures
        0 <= total(widths.take(n)) <= total(widths),
    decreases widths.len(),
{
    if n == widths.len() {
        assert(widths.take(n) =~= widths);
        if n > 0 {
            lemma_total_grows(widths.drop_last(), n - 1);
            assert(widths.drop_last().take(n - 1) =~= widths.drop_last());
        }
    } else {
        lemma_total_grows(widths.drop_last(), n);
        assert(widths.drop_last().take(n) =~= widths.take(n));
    }
}

/// Per-column-block optimizer over a fused projection weight.
#[derive(Debug, Clone, PartialEq, Eq)]
pub struct Segmented {
    /// The optimizer of each block.
    pub optims: Vec<BlockOptim>,
    /// The columns of each block.
    pub widths: Vec<usize>,
    /// The axis of the blocks.
    pub dim: usize,
    /// Whether the parameter holds the blocks once per application.
    pub tiled: bool,
}

/// What a step does with one column block.
#[derive(Debug, Clone, Copy, PartialEq, Eq, Structural)]
pub struct BlockStep {
    /// The optimizer that steps the block.
    pub optim: BlockOptim,
    /// The entry of the previous state that it resumes from. `None`: it starts
    /// from scratch.
    pub state: Option<usize>,
}

/// What a step does with a parameter.
#[derive(Debug, Clone, PartialEq, Eq)]
pub struct SegmentedStep {
    /// The columns of each block, in order.
    pub widths: Vec<usize>,
    /// What happens to each block, in order.
    pub blocks: Vec<BlockStep>,
    /// The state that the step leaves behind: one entry per stateful block, in
    /// order.
    pub states: Vec<BlockState>,
}

impl Segmented {
    /// Every block has an optimizer and a width.
    pub open spec fn wf(self) -> bool {
        self.optims@.len() == self.widths@.len()
    }

    /// How many copies of the blocks a parameter of `width` columns holds.
    pub open spec fn copies(self, width: int) -> int {
        if self.tiled {
            width / total(self.widths@)
        } else {
            1
        }
    }

    /// How many blocks a parameter of `width` columns has.
    pub open spec fn n_blocks(self, width: int) -> int {
        self.optims@.len() * self.copies(width)
    }

    /// Whether the blocks are those of a parameter of `rank` dimensions, and
    /// `width` columns along the split axis.
    pub open spec fn fits(self, rank: int, width: int) -> bool {
        &&& self.wf()
        &&& self.dim < rank
        &&& total(self.widths@) <= usize::MAX
        &&& self.tiled ==> total(self.widths@) != 0
        &&& width == total(self.widths@) * self.copies(width)
        &&& self.n_blocks(width) <= usize::MAX
    }

    /// The optimizer of block `i`: every copy has the same blocks.
    pub open spec fn block(self, i: int) -> BlockOptim {
        self.optims@[i % self.optims@.len() as int]
    }

    /// The stateful blocks.
    pub open spec fn stateful(self) -> spec_fn(int) -> bool {
        |i: int| self.block(i).spec_state() is Some
    }

    /// How many stateful blocks come before block `i`.
    pub open spec fn states_before(self, i: int) -> nat {
        order::count(i as nat, self.stateful())
    }

    /// The state that block `i` resumes from. A missing state, or one whose
    /// length drifted from the blocks, restarts every block from scratch.
    pub open spec fn resumes(
        self,
        width: int,
        state: Option<Seq<BlockState>>,
        i: int,
    ) -> Option<usize> {
        match state {
            Some(states) => if states.len() == self.states_before(self.n_blocks(width))
                && self.block(i).spec_state() is Some && self.block(i).spec_state() == Some(
                states[self.states_before(i) as int],
            ) {
                Some(self.states_before(i) as usize)
            } else {
                None
            },
            None => None,
        }
    }

    /// Whether there is a block for each segment of `spec`, along `dim`: Muon on
    /// its Muon segments, `fallback` on the others.
    pub open spec fn splits(self, spec: ProjSpec, fallback: Fallback, dim: int) -> bool {
        &&& self.dim == dim
        &&& self.tiled == spec.tiled
        &&& self.widths@.len() == spec.segments@.len()
        &&& self.optims@.len() == spec.segments@.len()
        &&& forall|i: int|
            0 <= i < spec.segments@.len() ==> #[trigger] self.widths@[i] == spec.segments@[i].width
        &&& forall|i: int|
            0 <= i < spec.segments@.len() ==> #[trigger] self.optims@[i] == (
            if spec.segments@[i].muon {
                BlockOptim::Muon
            } else if fallback is AdamW {
                BlockOptim::AdamW
            } else {
                BlockOptim::Sgd
            })
    }

    /// Build the per-block optimizers for `spec`: Muon on its Muon segments,
    /// `fallback` on the others. The split is along `dim` (`1` for a dense
    /// projection weight, whose layout is `[d_input, d_output]`).
    pub fn new(spec: &ProjSpec, fallback: Fallback, dim: usize) -> (segmented: Self)
        ensures
            segmented.wf(),
            segmented.splits(*spec, fallback, dim as int),
    {
        let rest = match fallback {
            Fallback::AdamW => BlockOptim::AdamW,
            Fallback::Sgd => BlockOptim::Sgd,
        };
        let mut optims: Vec<BlockOptim> = Vec::new();
        let mut widths: Vec<usize> = Vec::new();
        let mut i: usize = 0;
        while i < spec.segments.len()
            invariant
                i <= spec.segments@.len(),
                optims.len() == i,
                widths.len() == i,
                rest == (if fallback is AdamW {
                    BlockOptim::AdamW
                } else {
                    BlockOptim::Sgd
                }),
                forall|j: int| 0 <= j < i ==> #[trigger] widths@[j] == spec.segments@[j].width,
                forall|j: int|
                    0 <= j < i ==> #[trigger] optims@[j] == (if spec.segments@[j].muon {
                        BlockOptim::Muon
                    } else {
                        rest
                    }),
            decreases spec.segments@.len() - i,
        {
            let segment = &spec.segments[i];
            optims.push(
                if segment.muon {
                    BlockOptim::Muon
                } else {
                    rest
                },
            );
            widths.push(segment.width);
            i = i + 1;
        }
        Segmented { optims, widths, dim, tiled: spec.tiled }
    }

    /// The axis of the blocks.
    pub fn dim(&self) -> (dim: usize)
        ensures
            dim == self.dim,
    {
        self.dim
    }

    /// The columns of one copy of the blocks.
    pub fn per_copy(&self) -> (width: usize)
        requires
            total(self.widths@) <= usize::MAX,
        ensures
            width == total(self.widths@),
    {
        let mut width: usize = 0;
        let mut i: usize = 0;
        assert(self.widths@.take(0) =~= Seq::<usize>::empty());
        while i < self.widths.len()
            invariant
                i <= self.widths@.len(),
                total(self.widths@) <= usize::MAX,
                width == total(self.widths@.take(i as int)),
            decreases self.widths@.len() - i,
        {
            proof {
                assert(self.widths@.take(i + 1).drop_last() =~= self.widths@.take(i as int));
                lemma_total_grows(self.widths@, i + 1);
            }
            width = width + self.widths[i];
            i = i + 1;
        }
        assert(self.widths@.take(i as int) =~= self.widths@);
        width
    }

    /// Whether the blocks are those of a parameter of `rank` dimensions, and
    /// `width` columns along the split axis.
    pub fn accepts(&self, rank: usize, width: usize) -> (ok: bool)
        ensures
            ok == self.fits(rank as int, width as int),
    {
        if self.optims.len() != self.widths.len() || self.dim >= rank {
            return false;
        }
        let mut per_copy: usize = 0;
        let mut i: usize = 0;
        assert(self.widths@.take(0) =~= Seq::<usize>::empty());
        while i < self.widths.len()
            invariant
                i <= self.widths@.len(),
                per_copy == total(self.widths@.take(i as int)),
            decreases self.widths@.len() - i,
        {
            proof {
                assert(self.widths@.take(i + 1).drop_last() =~= self.widths@.take(i as int));
                lemma_total_grows(self.widths@, i + 1);
            }
            per_copy = match per_copy.checked_add(self.widths[i]) {
                Some(sum) => sum,
                None => {
                    return false;
                },
            };
            i = i + 1;
        }
        assert(self.widths@.take(i as int) =~= self.widths@);
        let copies: usize = if !self.tiled {
            1
        } else if per_copy == 0 {
            return false;
        } else {
            width / per_copy
        };
        let columns: usize = match per_copy.checked_mul(copies) {
            Some(columns) => columns,
            None => {
                return false;
            },
        };
        match self.optims.len().checked_mul(copies) {
            Some(_) => columns == width,
            None => false,
        }
    }

    /// What a step does with a parameter of `rank` dimensions, and `width`
    /// columns along the split axis: how it is split, which optimizer steps
    /// each block, and which entry of the previous `state` it resumes from.
    pub fn step(&self, rank: usize, width: usize, state: Option<&Vec<BlockState>>) -> (step:
        SegmentedStep)
        requires
            self.fits(rank as int, width as int),
        ensures
            step.widths@ == cycled(self.widths@, self.n_blocks(width as int)),
            step.blocks@.len() == self.n_blocks(width as int),
            forall|i: int|
                0 <= i < step.blocks@.len() ==> #[trigger] step.blocks@[i] == (BlockStep {
                    optim: self.block(i),
                    state: self.resumes(width as int, states_of(state), i),
                }),
            step.states@.len() == self.states_before(self.n_blocks(width as int)),
            forall|i: int|
                0 <= i < step.blocks@.len() && (#[trigger] self.block(i)).spec_state() is Some
                    ==> self.block(i).spec_state() == Some(
                    step.states@[self.states_before(i) as int],
                ),
    {
        let per_copy: usize = self.per_copy();
        let copies: usize = if self.tiled {
            width / per_copy
        } else {
            1
        };
        let n: usize = self.optims.len();
        let n_blocks: usize = n * copies;
        let mut widths: Vec<usize> = Vec::new();
        let mut optims: Vec<BlockOptim> = Vec::new();
        let mut states: Vec<BlockState> = Vec::new();
        let mut i: usize = 0;
        while i < n_blocks
            invariant
                i <= n_blocks,
                n_blocks == n * copies,
                n == self.optims@.len(),
                self.wf(),
                widths.len() == i,
                optims.len() == i,
                states@.len() == self.states_before(i as int),
                states@.len() <= i,
                forall|j: int|
                    0 <= j < i ==> #[trigger] widths@[j] == self.widths@[j % n as int],
                forall|j: int| 0 <= j < i ==> #[trigger] optims@[j] == self.block(j),
                forall|j: int|
                    0 <= j < i && (#[trigger] self.block(j)).spec_state() is Some
                        ==> self.states_before(j) < states@.len() && self.block(j).spec_state()
                        == Some(states@[self.states_before(j) as int]),
            decreases n_blocks - i,
        {
            assert(n > 0) by (nonlinear_arith)
                requires
                    i < n_blocks,
                    n_blocks == n * copies,
            ;
            let at: usize = i % n;
            let optim: BlockOptim = self.optims[at];
            let ghost before = states@;
            widths.push(self.widths[at]);
            optims.push(optim);
            if let Some(kind) = optim.state() {
                states.push(kind);
            }
            proof {
                assert(self.stateful()(i as int) == (self.block(i as int).spec_state() is Some));
                assert forall|j: int|
                    0 <= j < i + 1 && (#[trigger] self.block(j)).spec_state()
                        is Some implies self.states_before(j) < states@.len() && self.block(
                    j,
                ).spec_state() == Some(states@[self.states_before(j) as int]) by {
                    if j < i {
                        assert(states@[self.states_before(j) as int] == before[self.states_before(
                            j,
                        ) as int]);
                    }
                }
            }
            i = i + 1;
        }
        let n_states: usize = states.len();
        let paired: bool = match state {
            Some(state) => state.len() == n_states,
            None => false,
        };
        let mut blocks: Vec<BlockStep> = Vec::new();
        let mut next: usize = 0;
        let mut i: usize = 0;
        while i < n_blocks
            invariant
                i <= n_blocks,
                n_blocks == n * copies,
                n == self.optims@.len(),
                n_blocks == self.n_blocks(width as int),
                self.wf(),
                optims.len() == n_blocks,
                blocks.len() == i,
                n_states == self.states_before(n_blocks as int),
                next == self.states_before(i as int),
                next <= n_states,
                paired == (state matches Some(s) && s@.len() == n_states),
                forall|j: int| 0 <= j < n_blocks ==> #[trigger] optims@[j] == self.block(j),
                forall|j: int|
                    0 <= j < n_blocks && (#[trigger] self.block(j)).spec_state() is Some
                        ==> self.states_before(j) < n_states,
                forall|j: int|
                    0 <= j < i ==> #[trigger] blocks@[j] == (BlockStep {
                        optim: self.block(j),
                        state: self.resumes(width as int, states_of(state), j),
                    }),
            decreases n_blocks - i,
        {
            let optim: BlockOptim = optims[i];
            assert(self.stateful()(i as int) == (self.block(i as int).spec_state() is Some));
            let resumed: Option<usize> = match optim.state() {
                Some(kind) => {
                    let resumed: Option<usize> = match state {
                        Some(state) => if paired && state[next] == kind {
                            Some(next)
                        } else {
                            None
                        },
                        None => None,
                    };
                    next = next + 1;
                    resumed
                },
                None => None,
            };
            blocks.push(BlockStep { optim, state: resumed });
            i = i + 1;
        }
        assert(widths@ =~= cycled(self.widths@, self.n_blocks(width as int)));
        SegmentedStep { widths, blocks, states }
    }
}

/// The leaves of a saved state that lie under one block.
#[derive(Debug, Clone, Copy, PartialEq, Eq, Structural)]
pub struct BlockLeaves {
    /// Whether there are any.
    pub any: bool,
    /// Whether they are those of a Muon state.
    pub muon: bool,
    /// Whether they are those of an AdamW state.
    pub adamw: bool,
}

/// How many blocks a saved state holds: they are numbered from zero, and the
/// first number without a leaf ends them.
pub open spec fn saved_blocks(leaves: Seq<BlockLeaves>) -> nat
    decreases leaves.len(),
{
    if leaves.len() == 0 || !leaves[0].any {
        0
    } else {
        1 + saved_blocks(leaves.skip(1))
    }
}

/// The kind of state that the leaves of a block hold.
pub open spec fn saved_kind(leaves: BlockLeaves) -> Option<BlockState> {
    if leaves.muon {
        Some(BlockState::Muon)
    } else if leaves.adamw {
        Some(BlockState::AdamW)
    } else {
        None
    }
}

proof fn lemma_saved_blocks(leaves: Seq<BlockLeaves>, n: int)
    requires
        0 <= n <= leaves.len(),
        forall|i: int| 0 <= i < n ==> (#[trigger] leaves[i]).any,
        n == leaves.len() || !leaves[n].any,
    ensures
        saved_blocks(leaves) == n,
    decreases leaves.len(),
{
    if n > 0 {
        let rest = leaves.skip(1);
        assert forall|i: int| 0 <= i < n - 1 implies (#[trigger] rest[i]).any by {
            assert(leaves[i + 1].any);
        }
        assert(leaves[0].any);
        lemma_saved_blocks(rest, n - 1);
    }
}

/// Read the blocks of a saved state back. The reload has no access to the spec,
/// so the leaves tell the two kinds of block apart. `None` where a block holds
/// neither, or where there is no block.
pub fn state_unflatten(leaves: &Vec<BlockLeaves>) -> (states: Option<Vec<BlockState>>)
    ensures
        states is Some == (saved_blocks(leaves@) > 0 && forall|i: int|
            0 <= i < saved_blocks(leaves@) ==> saved_kind(#[trigger] leaves@[i]) is Some),
        states matches Some(states) ==> {
            &&& states@.len() == saved_blocks(leaves@)
            &&& forall|i: int|
                0 <= i < states@.len() ==> Some(#[trigger] states@[i]) == saved_kind(leaves@[i])
        },
{
    let mut n: usize = 0;
    while n < leaves.len() && leaves[n].any
        invariant
            n <= leaves@.len(),
            forall|i: int| 0 <= i < n ==> (#[trigger] leaves@[i]).any,
        decreases leaves@.len() - n,
    {
        n = n + 1;
    }
    proof {
        lemma_saved_blocks(leaves@, n as int);
    }
    if n == 0 {
        return None;
    }
    let mut states: Vec<BlockState> = Vec::new();
    let mut i: usize = 0;
    while i < n
        invariant
            i <= n <= leaves@.len(),
            n == saved_blocks(leaves@),
            states.len() == i,
            forall|j: int| 0 <= j < i ==> Some(#[trigger] states@[j]) == saved_kind(leaves@[j]),
            forall|j: int| 0 <= j < i ==> saved_kind(#[trigger] leaves@[j]) is Some,
        decreases n - i,
    {
        let block = leaves[i];
        if block.muon {
            states.push(BlockState::Muon);
        } else if block.adamw {
            states.push(BlockState::AdamW);
        } else {
            assert(saved_kind(leaves@[i as int]) is None);
            return None;
        }
        i = i + 1;
    }
    Some(states)
}

/// The leaves that a state leaves behind when it is saved: each block under its
/// own number, and the leaves of the two kinds never overlap.
pub open spec fn leaves_of(states: Seq<BlockState>) -> Seq<BlockLeaves> {
    states.map_values(
        |s: BlockState| BlockLeaves { any: true, muon: s is Muon, adamw: s is AdamW },
    )
}

/// What a save wrote, a reload reads back: the same blocks, in the same order.
pub proof fn saved_state_reads_back(states: Seq<BlockState>)
    ensures
        saved_blocks(leaves_of(states)) == states.len(),
        forall|i: int|
            0 <= i < states.len() ==> saved_kind(#[trigger] leaves_of(states)[i]) == Some(
                states[i],
            ),
{
    lemma_saved_blocks(leaves_of(states), states.len() as int);
}

/// The states behind an optional reference.
pub open spec fn states_of(state: Option<&Vec<BlockState>>) -> Option<Seq<BlockState>> {
    match state {
        Some(states) => Some(states@),
        None => None,
    }
}

/// The widths, over and over, up to `n` of them.
pub open spec fn cycled(widths: Seq<usize>, n: int) -> Seq<usize> {
    Seq::new(n as nat, |i: int| widths[i % widths.len() as int])
}

proof fn lemma_total_concat(a: Seq<usize>, b: Seq<usize>)
    ensures
        total(a + b) == total(a) + total(b),
    decreases b.len(),
{
    if b.len() == 0 {
        assert(a + b =~= a);
    } else {
        assert((a + b).drop_last() =~= a + b.drop_last());
        lemma_total_concat(a, b.drop_last());
    }
}

proof fn lemma_total_cycled(widths: Seq<usize>, copies: nat)
    ensures
        total(cycled(widths, (widths.len() * copies) as int)) == total(widths) * copies,
    decreases copies,
{
    let n = widths.len() as int;
    if copies == 0 {
        assert(n * 0 == 0) by (nonlinear_arith);
        assert(total(widths) * 0 == 0) by (nonlinear_arith);
        assert(cycled(widths, (widths.len() * copies) as int) =~= Seq::<usize>::empty());
    } else {
        let fewer = (copies - 1) as nat;
        lemma_total_cycled(widths, fewer);
        assert(n * copies == n * fewer + n) by (nonlinear_arith)
            requires
                copies == fewer + 1,
        ;
        assert(0 <= n * fewer && n * fewer == fewer * n) by (nonlinear_arith)
            requires
                0 <= n,
                0 <= fewer,
        ;
        assert forall|i: int| 0 <= i < n implies #[trigger] widths[i] == cycled(
            widths,
            n * copies,
        )[n * fewer + i] by {
            div_mod::lemma_fundamental_div_mod_converse(n * fewer + i, n, fewer as int, i);
        }
        assert(cycled(widths, n * copies) =~= cycled(widths, n * fewer) + widths);
        lemma_total_concat(cycled(widths, n * fewer), widths);
        assert(total(widths) * copies == total(widths) * fewer + total(widths)) by (nonlinear_arith)
            requires
                copies == fewer + 1,
        ;
    }
}

/// The blocks of a step cover the columns of the parameter: their widths sum
/// to its width, copies included.
pub proof fn blocks_cover_the_columns(s: Segmented, rank: int, width: int)
    requires
        s.fits(rank, width),
        0 <= width,
    ensures
        total(cycled(s.widths@, s.n_blocks(width))) == width,
{
    lemma_total_grows(s.widths@, 0);
    if s.tiled {
        div_mod::lemma_div_pos_is_pos(width, total(s.widths@));
    }
    lemma_total_cycled(s.widths@, s.copies(width) as nat);
}

/// The state that a step leaves behind is the one that the next step resumes:
/// every stateful block finds its own entry again.
pub proof fn next_step_resumes_every_block(
    s: Segmented,
    width: int,
    states: Seq<BlockState>,
    i: int,
)
    requires
        states.len() == s.states_before(s.n_blocks(width)),
        s.block(i).spec_state() == Some(states[s.states_before(i) as int]),
    ensures
        s.resumes(width, Some(states), i) == Some(s.states_before(i) as usize),
{
}

/// Two stateful blocks never share an entry of the state.
pub proof fn blocks_have_states_of_their_own(s: Segmented, i: int, j: int)
    requires
        0 <= i < j,
        s.block(i).spec_state() is Some,
    ensures
        s.states_before(i) < s.states_before(j),
    decreases j,
{
    assert(s.stateful()(i));
    if j > i + 1 {
        blocks_have_states_of_their_own(s, i, j - 1);
    }
}

} // verus!
