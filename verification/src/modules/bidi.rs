//! Bidirectional stacks: straight and reversed passes, merged per pair.
//!
//! A pair runs a straight pass and a reversed pass, and merges them. A stack of
//! pairs threads residuals between them. The block itself does not change: only
//! the schedule and the combination of its two passes are bidirectional.
use crate::modules::block::BlockConfig;
use crate::modules::builder::StackShape;
use crate::modules::insert::{can_insert, insert_class_markers_padded};
use crate::modules::layer;
use crate::modules::layer::{can_build_layer, Layer, LayerShape, LayerUntied, LayerView};
use crate::modules::layers;
use crate::modules::linear::LinearShape;
use crate::modules::multi_gate::{ResidualOp, Residuals, ResidualsConfig};
use crate::modules::recurrence;
use crate::modules::stack;
use crate::utils::class;
use crate::utils::class::laws as placement;
use crate::utils::class::splice;
use crate::utils::class::splice::Segment;
use crate::utils::class::{
    class_marker_output_indices, init_class_emb, ClassCursor, ClassCursors, ClassLatent, Cursors,
    Marker, Placement,
};
use crate::utils::order;
use crate::utils::padding;
use crate::utils::padding::laws as slots;
use crate::utils::padding::{Padding, SlotOrder};
use crate::utils::schedule;
use crate::utils::schedule::{Applications, BidiSchedule};
use vstd::prelude::*;

verus! {

/// How the two directions of a bidirectional pair are combined.
#[derive(Debug, Clone, Copy, PartialEq, Eq, Structural)]
pub enum OutputMerge {
    /// Element-wise average of the two directions (no parameters).
    Mean,
    /// Concatenate along the feature axis and project back down with a
    /// learnable linear layer.
    CatLinear(LinearShape),
}

/// Configuration / factory for [`OutputMerge`].
#[derive(Debug, Clone, Copy, PartialEq, Eq, Structural)]
pub enum OutputMergeConfig {
    /// Build an [`OutputMerge::Mean`].
    Mean,
    /// Build an [`OutputMerge::CatLinear`].
    CatLinear,
}

/// `n` merge configs, all the same.
fn repeated(config: OutputMergeConfig, n: usize) -> (configs: Vec<OutputMergeConfig>)
    ensures
        configs@ == Seq::new(n as nat, |i: int| config),
{
    let mut configs: Vec<OutputMergeConfig> = Vec::new();
    let mut i: usize = 0;
    while i < n
        invariant
            i <= n,
            configs@.len() == i,
            forall|j: int| 0 <= j < i ==> #[trigger] configs@[j] == config,
        decreases n - i,
    {
        configs.push(config);
        i = i + 1;
    }
    assert(configs@ =~= Seq::new(n as nat, |i: int| config));
    configs
}

impl OutputMergeConfig {
    /// A vector of `n_real_layers / 2` [`Self::Mean`] configs (one per pair).
    pub fn mean(n_real_layers: usize) -> (configs: Vec<Self>)
        ensures
            configs@ == Seq::new(
                (n_real_layers / 2) as nat,
                |i: int| OutputMergeConfig::Mean,
            ),
    {
        repeated(OutputMergeConfig::Mean, n_real_layers / 2)
    }

    /// A vector of `n_real_layers / 2` [`Self::CatLinear`] configs (one per
    /// pair).
    pub fn cat_linear(n_real_layers: usize) -> (configs: Vec<Self>)
        ensures
            configs@ == Seq::new(
                (n_real_layers / 2) as nat,
                |i: int| OutputMergeConfig::CatLinear,
            ),
    {
        repeated(OutputMergeConfig::CatLinear, n_real_layers / 2)
    }

    /// The merge of this config at width `d_model`.
    pub open spec fn spec_init(self, d_model: usize) -> OutputMerge {
        match self {
            OutputMergeConfig::Mean => OutputMerge::Mean,
            OutputMergeConfig::CatLinear => OutputMerge::CatLinear(
                LinearShape { d_input: (2 * d_model) as usize, d_output: d_model, has_bias: true },
            ),
        }
    }

    /// The merge of this config at width `d_model`. The concatenation is twice
    /// as wide.
    pub fn init(&self, d_model: usize) -> (merge: OutputMerge)
        requires
            *self is CatLinear ==> 2 * d_model <= usize::MAX,
        ensures
            merge == self.spec_init(d_model),
    {
        match self {
            OutputMergeConfig::Mean => OutputMerge::Mean,
            OutputMergeConfig::CatLinear => OutputMerge::CatLinear(
                LinearShape::new(d_model * 2, d_model, true),
            ),
        }
    }
}

impl OutputMerge {
    /// Whether the merge takes two outputs of width `d_model` to one.
    pub open spec fn merges(self, d_model: int) -> bool {
        self matches OutputMerge::CatLinear(proj) ==> proj.d_input == 2 * d_model && proj.d_output
            == d_model
    }

    /// The output of a merge of two directions: their dimensions must agree, and
    /// the merged output has them too. `None` where it cannot be merged.
    pub fn forward(&self, straight: [usize; 3], reverse: [usize; 3]) -> (merged: Option<[usize; 3]>)
        ensures
            merged is Some == (straight@ == reverse@ && self.merges(straight[2] as int)),
            merged matches Some(dims) ==> dims@ == straight@,
    {
        if straight[0] != reverse[0] || straight[1] != reverse[1] || straight[2] != reverse[2] {
            return None;
        }
        assert(straight@ =~= reverse@);
        match self {
            OutputMerge::Mean => Some(straight),
            OutputMerge::CatLinear(proj) => if proj.d_output == straight[2] && straight[2]
                <= usize::MAX / 2 && proj.d_input == 2 * straight[2] {
                Some(straight)
            } else {
                None
            },
        }
    }
}

/// How the two directions of a pair read the rows.
#[derive(Debug)]
pub enum PairReads {
    /// Every row is real: the reversed read is the flipped batch.
    Flip,
    /// Under padding, each direction reads the real rows of each slot.
    Slots {
        /// The straight read. `None` while every row is in the order of its
        /// slot.
        straight: Option<SlotOrder>,
        /// The reversed read: the real rows of each slot, backwards.
        reverse: Option<SlotOrder>,
        /// The padding of the rows.
        padding: Padding,
    },
}

impl PairReads {
    /// Whether these are the reads of rows with this padding: straight in the
    /// order of each slot, and reversed in the opposite one.
    pub open spec fn read(self, padding: Option<Padding>) -> bool {
        match padding {
            None => self is Flip,
            Some(p) => {
                &&& self matches PairReads::Slots { straight, reverse, padding: kept }
                &&& kept == p
                &&& straight is None == p.local_bs is None
                &&& straight matches Some(order) ==> order.orders(p)
                &&& reverse matches Some(order) && reads_backwards(order, p)
            },
        }
    }
}

/// Whether `order` reads the real rows of each slot of `p` backwards.
pub open spec fn reads_backwards(order: SlotOrder, p: Padding) -> bool {
    &&& order.src_bs@.len() == p.batch()
    &&& order.back_bs@.len() == p.batch()
    &&& order.pad_bs@.len() == p.batch()
    &&& forall|b: int|
        0 <= b < p.batch() ==> padding::gathers(
            order::ints((#[trigger] order.src_bs@[b])@),
            padding::mirrored(p.pad(b), p.local(b)),
        )
    &&& forall|b: int|
        0 <= b < p.batch() ==> order::ints((#[trigger] order.back_bs@[b])@) == padding::mirrored(
            p.pad(b),
            p.local(b),
        )
    &&& forall|b: int|
        0 <= b < p.batch() ==> (#[trigger] order.pad_bs@[b])@ == padding::right_mask(p.pad(b))
}

/// How the two directions of a pair read rows with this padding.
fn pair_reads(padding: Option<Padding>) -> (reads: PairReads)
    requires
        padding matches Some(p) ==> p.wf(),
    ensures
        reads.read(padding),
{
    match padding {
        None => PairReads::Flip,
        Some(p) => {
            let straight = p.in_slot_order();
            let back = p.reversed();
            let reverse = back.in_slot_order();
            proof {
                let order = reverse->Some_0;
                assert forall|b: int| 0 <= b < p.batch() implies padding::gathers(
                    order::ints((#[trigger] order.src_bs@[b])@),
                    padding::mirrored(p.pad(b), p.local(b)),
                ) by {
                    assert(back.local(b) == padding::mirrored(p.pad(b), p.local(b)));
                }
                assert forall|b: int| 0 <= b < p.batch() implies order::ints(
                    (#[trigger] order.back_bs@[b])@,
                ) == padding::mirrored(p.pad(b), p.local(b)) by {
                    assert(back.local(b) == padding::mirrored(p.pad(b), p.local(b)));
                }
                assert forall|b: int| 0 <= b < p.batch() implies (#[trigger] order.pad_bs@[b])@
                    == padding::right_mask(p.pad(b)) by {
                    assert(back.pad(b) == p.pad(b));
                }
            }
            PairReads::Slots { straight, reverse, padding: p }
        },
    }
}

/// A single bidirectional pair as a standalone module: a straight and a
/// reversed block, with merged outputs. It does **not** apply the residual: the
/// caller adds it (or suppresses it).
#[derive(Debug, Clone)]
pub struct BidiLayerPair {
    /// Merge strategy combining the two directions.
    pub output_merge: OutputMerge,
    /// Positions of the class latents of this pair, spliced in before either
    /// direction runs. Empty: none.
    pub class_latents: Vec<ClassLatent>,
}

/// What a call of a pair does.
#[derive(Debug)]
pub struct PairForward {
    /// The rows that both directions read: those of the call, with the class
    /// latents spliced in.
    pub segments: Vec<Segment>,
    /// How many they are.
    pub rows: usize,
    /// How the two directions read them.
    pub reads: PairReads,
    /// The cursor past the call.
    pub class: ClassCursor,
}

impl BidiLayerPair {
    /// Whether `pass` is what a call of `rows` rows does from `class`.
    pub open spec fn is_forward(
        self,
        pass: PairForward,
        class: ClassCursor,
        rows: usize,
        padding: Option<Padding>,
    ) -> bool {
        let call = class::placement(self.class_latents@, class, rows as int, false);
        &&& layer::runs_of(pass.segments@, call)
        &&& layer::advanced(pass.class, call)
        &&& pass.rows == rows + call.plan().len()
        &&& reads_after(pass.reads, padding, call)
    }

    /// What a call of `rows` rows does. `class` places the class latents
    /// (`None`: the rows are the whole sequence), and `pad` marks a right-padded
    /// batch, each slot of which comes out as it would alone
    /// ([`padded_pair_is_each_slot_alone`]).
    pub fn forward(
        &self,
        rows: usize,
        class: Option<ClassCursor>,
        pad: Option<Vec<Vec<bool>>>,
    ) -> (pass: PairForward)
        requires
            pad matches Some(pad) ==> padding::is_right_padded(pad@),
            inserts(
                self.class_latents@,
                layer::cursor_or_whole(class, rows),
                rows,
                layers::padding_of(pad),
            ),
        ensures
            self.is_forward(
                pass,
                layer::cursor_or_whole(class, rows),
                rows,
                layers::padding_of(pad),
            ),
    {
        let mut cursor = match class {
            Some(cursor) => cursor,
            None => ClassCursor::whole(rows),
        };
        let padding = match pad {
            Some(pad) => Some(Padding::new(pad)),
            None => None,
        };
        let inserted = insert_class_markers_padded(
            &self.class_latents,
            &mut cursor,
            rows,
            false,
            match &padding {
                Some(p) => Some(p),
                None => None,
            },
        );
        PairForward {
            segments: inserted.segments,
            rows: inserted.rows,
            reads: pair_reads(inserted.padding),
            class: cursor,
        }
    }
}

/// Whether class latents can be spliced into `rows` rows from `cursor`, and the
/// padding can follow.
pub open spec fn inserts(
    latents: Seq<ClassLatent>,
    cursor: ClassCursor,
    rows: usize,
    padding: Option<Padding>,
) -> bool {
    let call = class::placement(latents, cursor, rows as int, false);
    &&& call.fits()
    &&& padding matches Some(p) ==> p.wf() && p.batch() > 0 && p.rows() == rows
        && stack::middles_fit(call)
}

/// Whether `reads` are the reads of the rows that `call` makes of rows with this
/// padding.
pub open spec fn reads_after(
    reads: PairReads,
    padding: Option<Padding>,
    call: Placement,
) -> bool {
    match padding {
        None => reads is Flip,
        Some(p) => {
            &&& reads matches PairReads::Slots { padding: next, .. }
            &&& next.wf()
            &&& p.splices_to(call.plan(), call.marks, next)
            &&& reads.read(Some(next))
        },
    }
}

/// A stack of bidirectional pairs of layers with optional virtual-layer
/// scheduling.
#[derive(Debug, Clone)]
pub struct BidiLayers {
    /// Number of real (weight-bearing) layers.
    pub n_real_layers: usize,
    /// Optional `(n_virtual_layers, schedule)` for weight-sharing.
    pub n_virtual_layers: Option<(usize, BidiSchedule)>,
    /// The weight-bearing layers, length `n_real_layers`.
    pub real_layers: Vec<Layer>,
    /// Zero the residual of the first virtual pair when `true`.
    pub ignore_first_residual: bool,
    /// Zero the residual of the last virtual pair when `true`.
    pub ignore_last_residual: bool,
    /// One direction-merge per real pair, length `n_real_layers / 2`.
    pub outputs_merge: Vec<OutputMerge>,
    /// How residuals are threaded between **pairs**: one mixing module per
    /// real/virtual pair.
    pub residuals: Residuals,
    /// Positions of the stack-level class latents, spliced into the sequence
    /// once before the first pair.
    pub class_latents: Vec<ClassLatent>,
}

/// What a call does with one direction of a pair.
#[derive(Debug)]
pub struct DirectionPass {
    /// The virtual layer whose cache it reads.
    pub slot: usize,
    /// The real layer that runs.
    pub layer: usize,
    /// The application of the real layer that this is.
    pub application: usize,
    /// The real layer as this application sees it.
    pub view: LayerView,
}

/// What a call does with one pair.
#[derive(Debug)]
pub struct PairPass {
    /// The straight direction.
    pub straight: DirectionPass,
    /// The reversed direction.
    pub reverse: DirectionPass,
    /// The merge that combines them: that of the real pair.
    pub merge: usize,
    /// The residual streams that enter the pair.
    pub streams: usize,
    /// What becomes of the residual.
    pub residual: ResidualOp,
}

/// What a call does.
#[derive(Debug)]
pub struct BidiPass {
    /// The rows that enter the first pair: those of the call, with the class
    /// latents of the stack spliced in.
    pub segments: Vec<Segment>,
    /// How many they are.
    pub rows: usize,
    /// How the two directions of every pair read them.
    pub reads: PairReads,
    /// What happens to each pair, in order.
    pub pairs: Vec<PairPass>,
    /// The cursors past the call.
    pub class: ClassCursors,
}

impl BidiLayers {
    /// The schedule of the stack, when it runs virtual layers.
    pub open spec fn schedule(self) -> Option<BidiSchedule> {
        match self.n_virtual_layers {
            Some((_, schedule)) => Some(schedule),
            None => None,
        }
    }

    /// The number of (virtual) layers that the stack runs.
    pub open spec fn count(self) -> int {
        match self.n_virtual_layers {
            Some((n, _)) => n as int,
            None => self.n_real_layers as int,
        }
    }

    /// The real layer of each virtual layer.
    pub open spec fn reals(self) -> Seq<int> {
        schedule::bidi_virtual_reals(self.schedule(), self.count(), self.n_real_layers as int)
    }

    /// The application of its real layer that virtual layer `v` is.
    pub open spec fn application(self, v: int) -> int {
        schedule::applied(self.reals(), 0, v, self.reals()[v]) as int
    }

    /// The real pair of virtual pair `i`: that of its straight layer.
    pub open spec fn real_pair(self, i: int) -> int {
        self.reals()[2 * i] / 2
    }

    /// Whether the residual of pair `i` is the suppressed first one.
    pub open spec fn first(self, i: int) -> bool {
        self.ignore_first_residual && i == 0
    }

    /// Whether the residual of pair `i` is the suppressed last one.
    pub open spec fn last(self, i: int) -> bool {
        self.ignore_last_residual && i + 1 == self.count() / 2
    }

    /// The residual streams that enter pair `i`.
    pub open spec fn streams(self, i: int) -> int
        decreases i,
    {
        if i <= 0 {
            1
        } else {
            self.residuals.next_streams(self.first(i - 1), self.last(i - 1), self.streams(i - 1))
        }
    }

    /// Whether pair `i` has a merge, and a mixing module where it uses one.
    pub open spec fn has_parts(self, i: int) -> bool {
        &&& self.real_pair(i) < self.outputs_merge@.len()
        &&& self.residuals matches Residuals::MultiGate(mg) ==> self.first(i) || self.last(i)
            || mg.spec_module_index(i, self.real_pair(i)) < mg.n_modules
    }

    /// The layers pair up, every virtual layer runs a real layer that exists,
    /// as an application it has a copy for, and every pair has its merge and
    /// its mixing module.
    pub open spec fn wf(self) -> bool {
        &&& self.real_layers@.len() == self.n_real_layers
        &&& self.count() % 2 == 0
        &&& self.schedule() matches Some(s) ==> s.covers(self.count(), self.n_real_layers as int)
        &&& self.residuals.wf()
        &&& forall|r: int| 0 <= r < self.real_layers@.len() ==> (#[trigger] self.real_layers@[r]).wf()
        &&& forall|v: int|
            0 <= v < self.count() ==> self.real_layers@[#[trigger] self.reals()[v]].has_application(
                self.application(v),
            )
        &&& forall|i: int| 0 <= i < self.count() / 2 ==> #[trigger] self.has_parts(i)
    }

    /// Whether `pass` is what virtual layer `v` does.
    pub open spec fn is_direction(self, pass: DirectionPass, v: int) -> bool {
        &&& pass.slot == v
        &&& pass.layer == self.reals()[v]
        &&& pass.application == self.application(v)
        &&& layers::is_view(self.real_layers@[self.reals()[v]], pass.application, pass.view)
    }

    /// Whether `pass` is what a call does with pair `i`.
    pub open spec fn is_pair(self, pass: PairPass, i: int) -> bool {
        &&& self.is_direction(pass.straight, 2 * i)
        &&& self.is_direction(pass.reverse, 2 * i + 1)
        &&& pass.merge == self.real_pair(i)
        &&& pass.streams == self.streams(i)
        &&& pass.residual == self.residuals.op(
            self.first(i),
            self.last(i),
            self.streams(i),
            i,
            self.real_pair(i),
        )
    }

    /// The splice of the class latents of the stack into `rows` rows.
    pub open spec fn call(self, class: Cursors, rows: int) -> Placement {
        class::placement(
            self.class_latents@,
            ClassCursor { offset: class.stack, full_len: class.full_len },
            rows,
            false,
        )
    }

    /// Output positions of the stack-level class latents for an `orig_len`
    /// input. A marker that never lands reports a position past the emitted
    /// sequence.
    pub fn class_latent_output_indices(&self, orig_len: usize) -> (out: Vec<usize>)
        requires
            class::placeable(class::marks(self.class_latents@), orig_len as int),
        ensures
            out@.len() == self.class_latents@.len(),
            forall|i: int|
                0 <= i < out@.len() ==> #[trigger] out@[i] == class::output_position(
                    class::marks(self.class_latents@),
                    orig_len as int,
                    i,
                ),
    {
        class_marker_output_indices(self.class_latents.as_slice(), orig_len)
    }

    /// Number of (virtual) layers this stack runs.
    pub fn n_virtual_count(&self) -> (n: usize)
        ensures
            n == self.count(),
    {
        match &self.n_virtual_layers {
            Some((n, _)) => *n,
            None => self.n_real_layers,
        }
    }

    /// The real layer of virtual layer `v`.
    fn real_idx(&self, v: usize) -> (layer: usize)
        requires
            self.schedule() matches Some(s) ==> s.covers(
                self.count(),
                self.n_real_layers as int,
            ),
            v < self.count(),
        ensures
            layer == self.reals()[v as int],
            layer < self.n_real_layers,
    {
        match &self.n_virtual_layers {
            Some((n, schedule)) => {
                assert(schedule.lands(v as int, *n as int, self.n_real_layers as int));
                schedule.real_idx(v, *n, self.n_real_layers)
            },
            None => v,
        }
    }

    /// What virtual layer `v` does.
    fn direction(&self, v: usize, apps: &Applications) -> (pass: DirectionPass)
        requires
            self.wf(),
            v < self.count(),
            apps.counts(self.reals(), self.n_real_layers as int),
        ensures
            self.is_direction(pass, v as int),
            pass.layer < self.n_real_layers,
    {
        let layer: usize = self.real_idx(v);
        let application: usize = apps.index[v];
        proof {
            assert(self.real_layers@[self.reals()[v as int]].has_application(
                self.application(v as int),
            ));
            assert(self.real_layers@[layer as int].wf());
        }
        let view = self.real_layers[layer].application(application);
        DirectionPass { slot: v, layer, application, view }
    }

    /// Full-sequence pass through every pair.
    ///
    /// The class latents of the stack are spliced in once. Then each pair runs
    /// both directions over the rows. Its merge is a weight set of the *real*
    /// pair, so it is shared under virtual scheduling like the blocks.
    ///
    /// `class` places the class latents. `None` takes the `rows` as the whole
    /// sequence. `pad` marks a right-padded batch. Each slot comes out as its own
    /// sequence would come out alone
    /// ([`padded_bidi_layers_are_each_slot_alone`]): both directions read only
    /// its real rows, and the reversed direction starts from the last row of the
    /// slot, not of the batch.
    pub fn forward(
        &self,
        rows: usize,
        class: Option<ClassCursors>,
        pad: Option<Vec<Vec<bool>>>,
    ) -> (pass: BidiPass)
        requires
            self.wf(),
            pad matches Some(pad) ==> padding::is_right_padded(pad@),
            self.inserts(class::cursors_or_whole(class, rows), rows, layers::padding_of(pad)),
        ensures
            self.is_forward(
                pass,
                class::cursors_or_whole(class, rows),
                rows,
                layers::padding_of(pad),
            ),
    {
        let mut class = match class {
            Some(class) => class,
            None => ClassCursors::new(rows),
        };
        let mut cursor = ClassCursor::at(class.stack, class.full_len);
        let padding = match pad {
            Some(pad) => Some(Padding::new(pad)),
            None => None,
        };
        let inserted = insert_class_markers_padded(
            &self.class_latents,
            &mut cursor,
            rows,
            false,
            match &padding {
                Some(p) => Some(p),
                None => None,
            },
        );
        class.stack = cursor.offset;
        let n: usize = self.n_virtual_count();
        let apps = bidi_applications(&self.n_virtual_layers, self.n_real_layers);
        let mut pairs: Vec<PairPass> = Vec::new();
        let mut streams: usize = 1;
        let mut i: usize = 0;
        while i < n / 2
            invariant
                self.wf(),
                n == self.count(),
                apps.counts(self.reals(), self.n_real_layers as int),
                i <= n / 2,
                streams == self.streams(i as int),
                pairs@.len() == i,
                forall|j: int| 0 <= j < i ==> self.is_pair(#[trigger] pairs@[j], j),
            decreases n / 2 - i,
        {
            let straight = self.direction(i * 2, &apps);
            let reverse = self.direction(i * 2 + 1, &apps);
            let first = self.ignore_first_residual && i == 0;
            let last = self.ignore_last_residual && i + 1 == n / 2;
            let merge: usize = straight.layer / 2;
            let (residual, next_streams) = self.residuals.step(first, last, streams, i, merge);
            pairs.push(PairPass { straight, reverse, merge, streams, residual });
            streams = next_streams;
            i = i + 1;
        }
        BidiPass {
            segments: inserted.segments,
            rows: inserted.rows,
            reads: pair_reads(inserted.padding),
            pairs,
            class,
        }
    }

    /// Whether `pass` is what a call of `rows` rows does from `class`.
    pub open spec fn is_forward(
        self,
        pass: BidiPass,
        class: Cursors,
        rows: usize,
        padding: Option<Padding>,
    ) -> bool {
        let call = self.call(class, rows as int);
        &&& layer::runs_of(pass.segments@, call)
        &&& pass.rows == rows + call.plan().len()
        &&& reads_after(pass.reads, padding, call)
        &&& pass.class@ == (Cursors { stack: call.next_offset() as usize, ..class })
        &&& call.next_offset() <= usize::MAX
        &&& pass.pairs@.len() == self.count() / 2
        &&& forall|i: int|
            0 <= i < self.count() / 2 ==> self.is_pair(#[trigger] pass.pairs@[i], i)
    }

    /// Whether the class latents of the stack can be spliced into `rows` rows,
    /// and the padding can follow.
    pub open spec fn inserts(self, class: Cursors, rows: usize, padding: Option<Padding>) -> bool {
        inserts(
            self.class_latents@,
            ClassCursor { offset: class.stack, full_len: class.full_len },
            rows,
            padding,
        )
    }
}

impl BidiLayers {
    /// Whether the stack is one that can run.
    pub fn is_valid(&self) -> (ok: bool)
        ensures
            ok == self.wf(),
    {
        let n: usize = self.n_virtual_count();
        if self.real_layers.len() != self.n_real_layers || n % 2 != 0 {
            return false;
        }
        if let Some((n, schedule)) = &self.n_virtual_layers {
            if !schedule.runs(*n, self.n_real_layers) {
                return false;
            }
        }
        if let Residuals::MultiGate(mg) = &self.residuals {
            if mg.n_stream == 0 {
                return false;
            }
        }
        let mut r: usize = 0;
        while r < self.real_layers.len()
            invariant
                r <= self.real_layers@.len(),
                forall|s: int| 0 <= s < r ==> (#[trigger] self.real_layers@[s]).wf(),
            decreases self.real_layers@.len() - r,
        {
            if !self.real_layers[r].is_valid() {
                return false;
            }
            r = r + 1;
        }
        let apps = bidi_applications(&self.n_virtual_layers, self.n_real_layers);
        let mut v: usize = 0;
        while v < n
            invariant
                v <= n,
                n == self.count(),
                n % 2 == 0,
                self.real_layers@.len() == self.n_real_layers,
                self.schedule() matches Some(s) ==> s.covers(
                    self.count(),
                    self.n_real_layers as int,
                ),
                forall|r: int|
                    0 <= r < self.real_layers@.len() ==> (#[trigger] self.real_layers@[r]).wf(),
                apps.counts(self.reals(), self.n_real_layers as int),
                forall|w: int|
                    0 <= w < v ==> self.real_layers@[#[trigger] self.reals()[w]].has_application(
                        self.application(w),
                    ),
                forall|i: int| 0 <= i && 2 * i < v ==> #[trigger] self.has_parts(i),
            decreases n - v,
        {
            let layer: usize = self.real_idx(v);
            assert(self.real_layers@[layer as int].wf());
            if !self.real_layers[layer].covers_application(apps.index[v]) {
                assert(!self.real_layers@[self.reals()[v as int]].has_application(
                    self.application(v as int),
                ));
                return false;
            }
            if v % 2 == 0 {
                let i: usize = v / 2;
                let pair: usize = layer / 2;
                assert(pair == self.real_pair(i as int));
                let first = self.ignore_first_residual && i == 0;
                let last = self.ignore_last_residual && i + 1 == n / 2;
                let mixed = match &self.residuals {
                    Residuals::Standard => true,
                    Residuals::MultiGate(mg) => first || last || mg.module_index(i, pair)
                        < mg.n_modules,
                };
                if pair >= self.outputs_merge.len() || !mixed {
                    assert(!self.has_parts(i as int));
                    return false;
                }
                assert(self.has_parts(i as int));
            }
            v = v + 1;
        }
        assert forall|i: int| 0 <= i < self.count() / 2 implies #[trigger] self.has_parts(i) by {
            assert(2 * i < n);
        }
        true
    }

    /// Whether the class latents of the stack can be spliced into `rows` rows,
    /// and the padding can follow.
    pub fn can_run(
        &self,
        rows: usize,
        class: &Option<ClassCursors>,
        padding: Option<&Padding>,
    ) -> (ok: bool)
        requires
            padding matches Some(p) ==> p.wf(),
        ensures
            ok == self.inserts(
                class::cursors_or_whole(*class, rows),
                rows,
                schedule::option_deref(padding),
            ),
    {
        let cursor = match class {
            Some(class) => ClassCursor::at(class.stack, class.full_len),
            None => ClassCursor::at(0, Some(rows)),
        };
        let padded = match padding {
            Some(p) => {
                let dims = p.dims();
                if dims[0] == 0 || dims[1] != rows {
                    return false;
                }
                true
            },
            None => false,
        };
        can_insert(&self.class_latents, cursor, rows, false, padded)
    }
}

/// The applications of a bidirectional stack of `n_real_layers` under this
/// optional virtual scheduling (none: each real layer applied once).
pub fn bidi_applications(
    n_virtual_layers: &Option<(usize, BidiSchedule)>,
    n_real_layers: usize,
) -> (apps: Applications)
    requires
        n_virtual_layers matches Some((n, s)) ==> s.covers(n as int, n_real_layers as int),
    ensures
        apps.counts(
            match *n_virtual_layers {
                Some((n, s)) => schedule::bidi_virtual_reals(
                    Some(s),
                    n as int,
                    n_real_layers as int,
                ),
                None => schedule::bidi_virtual_reals(
                    None,
                    n_real_layers as int,
                    n_real_layers as int,
                ),
            },
            n_real_layers as int,
        ),
{
    match n_virtual_layers {
        Some((n, schedule)) => schedule.applications(*n, n_real_layers),
        None => {
            assert(schedule::virtual_reals(None, n_real_layers as int, n_real_layers as int)
                =~= schedule::bidi_virtual_reals(
                None,
                n_real_layers as int,
                n_real_layers as int,
            ));
            layers::stack_applications(&None, n_real_layers)
        },
    }
}

/// Plain factory for a [`BidiLayers`].
#[derive(Debug, Clone)]
pub struct BidiLayersBuilder<C> {
    /// Number of real (weight-bearing) layers.
    pub n_real_layers: usize,
    /// Optional virtual-layer scheduling.
    pub n_virtual_layers: Option<(usize, BidiSchedule)>,
    /// Shared block config.
    pub block: C,
    /// Zero the residual of the first virtual pair.
    pub ignore_first_residual: bool,
    /// Zero the residual of the last virtual pair.
    pub ignore_last_residual: bool,
    /// One merge config per real pair, length `n_real_layers / 2`.
    pub outputs_merge: Vec<OutputMergeConfig>,
    /// Stack-level class latents (spliced once before the first pair).
    pub class_latents: Vec<ClassLatent>,
    /// Inter-pair residual scheme.
    pub residuals: ResidualsConfig,
    /// The parameters of the layers themselves that are held once per
    /// application, not tied.
    pub untied: Vec<LayerUntied>,
}

/// The shape of the parameters of a new [`BidiLayers`].
#[derive(Debug, Clone)]
pub struct BidiStackShape {
    /// The layers, the residual scheme and the class-latent embeddings.
    pub stack: StackShape,
    /// One direction-merge per real pair.
    pub outputs_merge: Vec<OutputMerge>,
}

impl<C: BlockConfig> BidiLayersBuilder<C> {
    /// The number of (virtual) layers that the stack runs.
    pub open spec fn count(self) -> int {
        match self.n_virtual_layers {
            Some((n, _)) => n as int,
            None => self.n_real_layers as int,
        }
    }

    /// The real layer of each virtual layer.
    pub open spec fn reals(self) -> Seq<int> {
        schedule::bidi_virtual_reals(
            match self.n_virtual_layers {
                Some((_, s)) => Some(s),
                None => None,
            },
            self.count(),
            self.n_real_layers as int,
        )
    }

    /// How many virtual layers apply real layer `r`.
    pub open spec fn applications(self, r: int) -> int {
        schedule::applied(self.reals(), 0, self.count(), r) as int
    }

    /// Whether the stack can be built: its schedule runs, every layer can be
    /// built for its applications, and every real pair has a merge config.
    pub open spec fn builds(self) -> bool {
        &&& self.n_virtual_layers matches Some((n, s)) ==> s.covers(
            n as int,
            self.n_real_layers as int,
        )
        &&& forall|r: int|
            0 <= r < self.n_real_layers ==> layer::buildable(
                self.block.width() as int,
                None,
                self.untied@,
                #[trigger] self.applications(r),
            )
        &&& self.n_real_layers / 2 <= self.outputs_merge@.len()
        &&& forall|i: int|
            0 <= i < self.n_real_layers / 2 && (#[trigger] self.outputs_merge@[i]) is CatLinear
                ==> 2 * self.block.width() <= usize::MAX
    }

    /// Whether `shape` is the shape of the stack. There is no feed-forward
    /// interleave, and the residual scheme counts pairs: half the real and
    /// virtual layers.
    pub open spec fn is_shape(self, shape: BidiStackShape) -> bool {
        &&& shape.stack.real_layers@.len() == self.n_real_layers
        &&& forall|r: int|
            0 <= r < self.n_real_layers ==> layer::is_layer_shape(
                #[trigger] shape.stack.real_layers@[r],
                self.block.width() as int,
                None,
                self.untied@,
                self.applications(r),
            )
        &&& shape.stack.residuals == self.residuals.spec_init(
            (self.n_real_layers / 2) as usize,
            (self.count() / 2) as usize,
        )
        &&& shape.stack.class_latents_emb is Some == (self.class_latents@.len() > 0)
        &&& shape.stack.class_latents_emb matches Some(dims) ==> dims[0]
            == self.class_latents@.len() && dims[1] == self.block.width()
        &&& shape.outputs_merge@ == Seq::new(
            (self.n_real_layers / 2) as nat,
            |i: int| self.outputs_merge@[i].spec_init(self.block.width()),
        )
    }

    /// Whether both build the same stack.
    pub open spec fn alike(self, other: BidiLayersBuilder<C>) -> bool {
        &&& self.n_real_layers == other.n_real_layers
        &&& match (self.n_virtual_layers, other.n_virtual_layers) {
            (Some((n, s)), Some((m, o))) => n == m && s.same(o),
            (None, None) => true,
            _ => false,
        }
        &&& self.block == other.block
        &&& self.ignore_first_residual == other.ignore_first_residual
        &&& self.ignore_last_residual == other.ignore_last_residual
        &&& self.outputs_merge@ == other.outputs_merge@
        &&& self.class_latents@ == other.class_latents@
        &&& self.residuals == other.residuals
        &&& self.untied@ == other.untied@
    }

    /// Builders of the same stack can be built alike, and build the same shape.
    pub proof fn lemma_alike(self, other: BidiLayersBuilder<C>, shape: BidiStackShape)
        requires
            self.alike(other),
        ensures
            self.builds() == other.builds(),
            self.is_shape(shape) == other.is_shape(shape),
    {
        assert(self.reals() =~= other.reals());
        assert forall|r: int|
            #![trigger self.applications(r)]
            #![trigger other.applications(r)]
            self.applications(r) == other.applications(r) by {}
        match (self.n_virtual_layers, other.n_virtual_layers) {
            (Some((n, s)), Some((_, o))) => {
                let m = self.n_real_layers as int;
                assert forall|v: int|
                    #![trigger s.lands(v, n as int, m)]
                    #![trigger o.lands(v, n as int, m)]
                    s.lands(v, n as int, m) == o.lands(v, n as int, m) by {}
            },
            _ => {},
        }
        assert(Seq::new(
            (self.n_real_layers / 2) as nat,
            |i: int| self.outputs_merge@[i].spec_init(self.block.width()),
        ) =~= Seq::new(
            (other.n_real_layers / 2) as nat,
            |i: int| other.outputs_merge@[i].spec_init(other.block.width()),
        ));
    }

    /// Whether the stack can be built.
    pub fn can_build(&self) -> (ok: bool)
        ensures
            ok == self.builds(),
    {
        if let Some((n, schedule)) = &self.n_virtual_layers {
            if !schedule.runs(*n, self.n_real_layers) {
                return false;
            }
        }
        let d_model: usize = self.block.d_model();
        let apps = bidi_applications(&self.n_virtual_layers, self.n_real_layers);
        let mut r: usize = 0;
        while r < self.n_real_layers
            invariant
                r <= self.n_real_layers,
                d_model == self.block.width(),
                apps.counts(self.reals(), self.n_real_layers as int),
                self.n_virtual_layers matches Some((n, s)) ==> s.covers(
                    n as int,
                    self.n_real_layers as int,
                ),
                forall|s: int|
                    0 <= s < r ==> layer::buildable(
                        self.block.width() as int,
                        None,
                        self.untied@,
                        #[trigger] self.applications(s),
                    ),
            decreases self.n_real_layers - r,
        {
            assert(apps.count@[r as int] == self.applications(r as int));
            if !can_build_layer(d_model, None, &self.untied, apps.count[r]) {
                return false;
            }
            r = r + 1;
        }
        if self.outputs_merge.len() < self.n_real_layers / 2 {
            return false;
        }
        let mut i: usize = 0;
        while i < self.n_real_layers / 2
            invariant
                i <= self.n_real_layers / 2 <= self.outputs_merge@.len(),
                d_model == self.block.width(),
                forall|j: int|
                    0 <= j < i && (#[trigger] self.outputs_merge@[j]) is CatLinear ==> 2
                        * self.block.width() <= usize::MAX,
            decreases self.n_real_layers / 2 - i,
        {
            if matches!(self.outputs_merge[i], OutputMergeConfig::CatLinear) && d_model
                > usize::MAX / 2 {
                return false;
            }
            i = i + 1;
        }
        true
    }

    /// The shape of the stack. There is no feed-forward interleave, and the
    /// residual scheme counts pairs: half the real and virtual layers.
    pub fn init(&self) -> (shape: BidiStackShape)
        requires
            self.builds(),
        ensures
            self.is_shape(shape),
    {
        let d_model: usize = self.block.d_model();
        let n_virtual: usize = match &self.n_virtual_layers {
            Some((n, _)) => *n,
            None => self.n_real_layers,
        };
        let apps = bidi_applications(&self.n_virtual_layers, self.n_real_layers);
        let mut real_layers: Vec<LayerShape> = Vec::new();
        let mut r: usize = 0;
        while r < self.n_real_layers
            invariant
                r <= self.n_real_layers,
                self.builds(),
                d_model == self.block.width(),
                apps.counts(self.reals(), self.n_real_layers as int),
                real_layers.len() == r,
                forall|s: int|
                    0 <= s < r ==> layer::is_layer_shape(
                        #[trigger] real_layers@[s],
                        d_model as int,
                        None,
                        self.untied@,
                        self.applications(s),
                    ),
            decreases self.n_real_layers - r,
        {
            let n_applications: usize = apps.count[r];
            assert(n_applications == self.applications(r as int));
            real_layers.push(LayerShape::init(d_model, None, &self.untied, n_applications));
            r = r + 1;
        }
        let pairs: usize = self.n_real_layers / 2;
        let mut outputs_merge: Vec<OutputMerge> = Vec::new();
        let mut i: usize = 0;
        while i < pairs
            invariant
                i <= pairs,
                pairs == self.n_real_layers / 2,
                self.builds(),
                d_model == self.block.width(),
                outputs_merge@.len() == i,
                forall|j: int|
                    0 <= j < i ==> #[trigger] outputs_merge@[j]
                        == self.outputs_merge@[j].spec_init(d_model),
            decreases pairs - i,
        {
            outputs_merge.push(self.outputs_merge[i].init(d_model));
            i = i + 1;
        }
        assert(outputs_merge@ =~= Seq::new(
            (self.n_real_layers / 2) as nat,
            |i: int| self.outputs_merge@[i].spec_init(self.block.width()),
        ));
        BidiStackShape {
            stack: StackShape {
                real_layers,
                residuals: self.residuals.init(pairs, n_virtual / 2),
                class_latents_emb: init_class_emb(self.class_latents.len(), d_model),
            },
            outputs_merge,
        }
    }
}

/// Virtual pairs that run the same real pair share its merge.
pub proof fn virtual_pairs_share_the_real_merge(
    stack: BidiLayers,
    one: PairPass,
    other: PairPass,
    i: int,
    j: int,
)
    requires
        stack.is_pair(one, i),
        stack.is_pair(other, j),
        stack.real_pair(i) == stack.real_pair(j),
    ensures
        one.merge == other.merge,
{
}

/// No two passes of a call read the same cache, whether of one pair or of two.
pub proof fn directions_never_share_a_cache(
    stack: BidiLayers,
    one: PairPass,
    other: PairPass,
    i: int,
    j: int,
)
    requires
        stack.is_pair(one, i),
        stack.is_pair(other, j),
    ensures
        one.straight.slot != other.reverse.slot,
        i != j ==> one.straight.slot != other.straight.slot && one.reverse.slot
            != other.reverse.slot,
{
}

/// The two directions of every pair of a stack, as cells, and what becomes of
/// their outputs.
#[verifier::reject_recursive_types(S)]
#[verifier::reject_recursive_types(T)]
pub struct PairMachine<S, T> {
    /// The straight cell of each pair.
    pub straight: spec_fn(int) -> spec_fn(S, T) -> (S, T),
    /// The reversed cell of each pair.
    pub reverse: spec_fn(int) -> spec_fn(S, T) -> (S, T),
    /// What a pair makes of a row, of what its straight direction puts out for
    /// it, and of what its reversed direction puts out for it: the merge and the
    /// residual.
    pub merged: spec_fn(int) -> spec_fn(T, T, T) -> T,
}

/// The rows of slot `b` that a direction reads, in order.
pub open spec fn gathered<T>(order: Option<SlotOrder>, b: int, rows: Seq<T>) -> Seq<T> {
    match order {
        Some(order) => Seq::new(
            order.src_bs@[b]@.len(),
            |q: int| rows[order.src_bs@[b]@[q] as int],
        ),
        None => rows,
    }
}

/// Where a direction puts out row `r` of slot `b`.
pub open spec fn place_of(order: Option<SlotOrder>, b: int, r: int) -> int {
    match order {
        Some(order) => order.back_bs@[b]@[r] as int,
        None => r,
    }
}

impl PairReads {
    /// Whether row `r` of slot `b` is real.
    pub open spec fn is_real(self, b: int, r: int) -> bool {
        match self {
            PairReads::Flip => true,
            PairReads::Slots { padding, .. } => !padding.pad(b)[r],
        }
    }

    /// The rows that the straight direction runs: the real ones of the slot.
    pub open spec fn straight_rows<T>(self, b: int, rows: Seq<T>) -> Seq<T> {
        match self {
            PairReads::Flip => rows,
            PairReads::Slots { straight, padding, .. } => gathered(straight, b, rows).take(
                padding::n_real(padding.pad(b)) as int,
            ),
        }
    }

    /// The rows that the reversed direction runs: the real ones of the slot,
    /// backwards.
    pub open spec fn reverse_rows<T>(self, b: int, rows: Seq<T>) -> Seq<T> {
        match self {
            PairReads::Flip => rows.reverse(),
            PairReads::Slots { reverse, padding, .. } => gathered(reverse, b, rows).take(
                padding::n_real(padding.pad(b)) as int,
            ),
        }
    }

    /// Where the straight direction puts out row `r`.
    pub open spec fn straight_place(self, b: int, r: int) -> int {
        match self {
            PairReads::Flip => r,
            PairReads::Slots { straight, .. } => place_of(straight, b, r),
        }
    }

    /// Where the reversed direction puts out row `r` of `len`.
    pub open spec fn reverse_place(self, b: int, len: int, r: int) -> int {
        match self {
            PairReads::Flip => len - 1 - r,
            PairReads::Slots { reverse, .. } => place_of(reverse, b, r),
        }
    }
}

impl<S, T> PairMachine<S, T> {
    /// What the straight direction of pair `i` leaves and puts out.
    pub open spec fn ran_straight(
        self,
        reads: PairReads,
        b: int,
        states: Seq<S>,
        rows: Seq<T>,
        i: int,
    ) -> (S, Seq<T>) {
        recurrence::run((self.straight)(i), states[2 * i], reads.straight_rows(b, rows))
    }

    /// What the reversed direction of pair `i` leaves and puts out.
    pub open spec fn ran_reverse(
        self,
        reads: PairReads,
        b: int,
        states: Seq<S>,
        rows: Seq<T>,
        i: int,
    ) -> (S, Seq<T>) {
        recurrence::run((self.reverse)(i), states[2 * i + 1], reads.reverse_rows(b, rows))
    }

    /// Whether pair `i` makes `out` of the `rows` of slot `b`. What a padded row
    /// holds is left open.
    pub open spec fn makes(
        self,
        reads: PairReads,
        b: int,
        states: Seq<S>,
        rows: Seq<T>,
        out: Seq<T>,
        i: int,
    ) -> bool {
        &&& out.len() == rows.len()
        &&& forall|r: int|
            0 <= r < rows.len() && reads.is_real(b, r) ==> #[trigger] out[r] == (self.merged)(i)(
                rows[r],
                self.ran_straight(reads, b, states, rows, i).1[reads.straight_place(b, r)],
                self.ran_reverse(reads, b, states, rows, i).1[reads.reverse_place(
                    b,
                    rows.len() as int,
                    r,
                )],
            )
    }

    /// Whether `held` are the rows of slot `b` that enter each pair, and that
    /// leave the last one.
    pub open spec fn runs(
        self,
        reads: PairReads,
        b: int,
        states: Seq<S>,
        held: Seq<Seq<T>>,
    ) -> bool {
        forall|i: int|
            0 <= i < held.len() - 1 ==> self.makes(
                reads,
                b,
                states,
                #[trigger] held[i],
                held[i + 1],
                i,
            )
    }

    /// The cache that virtual layer `v` leaves: a pair has its straight one, then
    /// its reversed one.
    pub open spec fn cache(
        self,
        reads: PairReads,
        b: int,
        states: Seq<S>,
        held: Seq<Seq<T>>,
        v: int,
    ) -> S {
        if v % 2 == 0 {
            self.ran_straight(reads, b, states, held[v / 2], v / 2).0
        } else {
            self.ran_reverse(reads, b, states, held[v / 2], v / 2).0
        }
    }
}

/// Under padding, both directions of a pair read the real rows of each slot
/// alone: the straight read is the sequence of the slot, and the reversed read is
/// that sequence backwards.
pub proof fn padded_pair_reads_each_slot_alone<T>(
    reads: PairReads,
    p: Padding,
    b: int,
    rows: Seq<T>,
)
    requires
        p.wf(),
        reads.read(Some(p)),
        0 <= b < p.batch(),
        rows.len() == p.rows(),
    ensures
        reads.straight_rows(b, rows) == slots::slot_sequence(rows, p.pad(b), p.local(b)),
        reads.reverse_rows(b, rows) == slots::slot_sequence(
            rows,
            p.pad(b),
            p.local(b),
        ).reverse(),
{
    let pad = p.pad(b);
    let local = p.local(b);
    let back = padding::mirrored(pad, local);
    assert(p.pad_bs@[b]@.len() == p.rows());
    assert(padding::orders_slot(pad, local));
    padding::lemma_mirrored(pad, local);
    slots::reversed_reverses_the_sequence(rows, pad, local);
    let order = reads->reverse->Some_0;
    let src = order::ints(order.src_bs@[b]@);
    slots::slot_order_gathers_the_sequence(rows, pad, back, src);
    assert(gathered(Some(order), b, rows) =~= Seq::new(src.len(), |q: int| rows[src[q]]));
    match reads->straight {
        Some(order) => {
            let src = order::ints(order.src_bs@[b]@);
            slots::slot_order_gathers_the_sequence(rows, pad, local, src);
            assert(gathered(Some(order), b, rows) =~= Seq::new(src.len(), |q: int| rows[src[q]]));
        },
        None => {
            order::lemma_count_bound(pad.len(), padding::real_rows(pad));
            let src = Seq::new(pad.len(), |q: int| q);
            assert(padding::gathers(src, local));
            slots::slot_order_gathers_the_sequence(rows, pad, local, src);
            assert(Seq::new(src.len(), |q: int| rows[src[q]]) =~= rows);
        },
    }
}

/// Under padding, a pair makes of each slot what it makes of the slot alone.
proof fn lemma_padded_pair<S, T>(
    m: PairMachine<S, T>,
    reads: PairReads,
    p: Padding,
    b: int,
    states: Seq<S>,
    rows: Seq<T>,
    out: Seq<T>,
    alone: Seq<T>,
    alone_out: Seq<T>,
    i: int,
)
    requires
        p.wf(),
        reads.read(Some(p)),
        0 <= b < p.batch(),
        rows.len() == p.rows(),
        alone == slots::slot_sequence(rows, p.pad(b), p.local(b)),
        m.makes(reads, b, states, rows, out, i),
        m.makes(PairReads::Flip, 0, states, alone, alone_out, i),
    ensures
        slots::slot_sequence(out, p.pad(b), p.local(b)) == alone_out,
{
    let pad = p.pad(b);
    let local = p.local(b);
    let flip = PairReads::Flip;
    assert(p.pad_bs@[b]@.len() == p.rows());
    assert(padding::orders_slot(pad, local));
    padded_pair_reads_each_slot_alone(reads, p, b, rows);
    let straight = m.ran_straight(reads, b, states, rows, i);
    let reverse = m.ran_reverse(reads, b, states, rows, i);
    assert(straight == m.ran_straight(flip, 0, states, alone, i));
    assert(reverse == m.ran_reverse(flip, 0, states, alone, i));
    assert forall|r: int| 0 <= r < pad.len() && !pad[r] implies alone_out[#[trigger] local[r]]
        == out[r] by {
        slots::slot_sequence_holds_real_rows(rows, pad, local, r);
        assert(reads.is_real(b, r));
        assert(reads.straight_place(b, r) == local[r]) by {
            match reads->straight {
                Some(order) => {
                    assert(order::ints(order.back_bs@[b]@) == local);
                    assert(order::ints(order.back_bs@[b]@)[r] == order.back_bs@[b]@[r]);
                },
                None => {},
            }
        }
        let order = reads->reverse->Some_0;
        let back = padding::mirrored(pad, local);
        assert(order::ints(order.back_bs@[b]@) == back);
        assert(order::ints(order.back_bs@[b]@)[r] == order.back_bs@[b]@[r]);
        assert(reads.reverse_place(b, rows.len() as int, r) == alone.len() - 1 - local[r]);
        assert(flip.is_real(0, local[r]));
        assert(alone_out[local[r]] == (m.merged)(i)(
            alone[local[r]],
            straight.1[local[r]],
            reverse.1[alone.len() - 1 - local[r]],
        ));
    }
    slots::lemma_slot_sequence_is(out, pad, local, alone_out);
}

/// Under padding, the pairs of a stack make of each slot what they make of the
/// slot alone, pair after pair, and every direction leaves the cache that it
/// leaves then.
pub proof fn padded_pairs_are_each_slot_alone<S, T>(
    m: PairMachine<S, T>,
    reads: PairReads,
    p: Padding,
    b: int,
    states: Seq<S>,
    held: Seq<Seq<T>>,
    alone: Seq<Seq<T>>,
    k: int,
)
    requires
        p.wf(),
        reads.read(Some(p)),
        0 <= b < p.batch(),
        0 <= k < held.len(),
        alone.len() == held.len(),
        held[0].len() == p.rows(),
        alone[0] == slots::slot_sequence(held[0], p.pad(b), p.local(b)),
        m.runs(reads, b, states, held),
        m.runs(PairReads::Flip, 0, states, alone),
    ensures
        held[k].len() == p.rows(),
        slots::slot_sequence(held[k], p.pad(b), p.local(b)) == alone[k],
        forall|v: int|
            0 <= v < 2 * k ==> #[trigger] m.cache(reads, b, states, held, v) == m.cache(
                PairReads::Flip,
                0,
                states,
                alone,
                v,
            ),
    decreases k,
{
    if k > 0 {
        let i = k - 1;
        padded_pairs_are_each_slot_alone(m, reads, p, b, states, held, alone, i);
        assert(m.makes(reads, b, states, held[i], held[i + 1], i));
        assert(m.makes(PairReads::Flip, 0, states, alone[i], alone[i + 1], i));
        lemma_padded_pair(
            m,
            reads,
            p,
            b,
            states,
            held[i],
            held[k],
            alone[i],
            alone[k],
            i,
        );
        padded_pair_reads_each_slot_alone(reads, p, b, held[i]);
        assert forall|v: int| 0 <= v < 2 * k implies #[trigger] m.cache(
            reads,
            b,
            states,
            held,
            v,
        ) == m.cache(PairReads::Flip, 0, states, alone, v) by {
            if v >= 2 * i {
                assert(v / 2 == i);
            }
        }
    }
}

/// A padded call over whole sequences, and the call of slot `b` alone: the rows
/// that leave the pairs, and the caches.
proof fn lemma_padded_call<S, T>(
    marks: Seq<Marker>,
    m: PairMachine<S, T>,
    reads: PairReads,
    before: Padding,
    b: int,
    input: Seq<T>,
    row_of: spec_fn(int) -> T,
    states: Seq<S>,
    held: Seq<Seq<T>>,
    alone: Seq<Seq<T>>,
    k: int,
)
    requires
        before.wf(),
        before.rows() <= usize::MAX,
        0 <= b < before.batch(),
        input.len() == before.rows(),
        placement::settles(marks, padding::n_real(before.pad(b)) as int),
        reads_after(reads, Some(before), placement::whole(marks, before.rows() as usize)),
        0 <= k < held.len(),
        alone.len() == held.len(),
        held[0] == splice::spliced_plan(
            input,
            placement::whole(marks, before.rows() as usize).plan(),
            row_of,
        ),
        alone[0] == splice::spliced_plan(
            slots::slot_sequence(input, before.pad(b), before.local(b)),
            placement::whole(marks, padding::n_real(before.pad(b)) as usize).plan(),
            row_of,
        ),
        m.runs(reads, b, states, held),
        m.runs(PairReads::Flip, 0, states, alone),
    ensures
        slots::slot_sequence(held[k], (reads->padding).pad(b), (reads->padding).local(b))
            == alone[k],
        forall|v: int|
            0 <= v < 2 * k ==> #[trigger] m.cache(reads, b, states, held, v) == m.cache(
                PairReads::Flip,
                0,
                states,
                alone,
                v,
            ),
{
    let next = reads->padding;
    let call = placement::whole(marks, before.rows() as usize);
    placement::plan_names_places(call);
    splice::lemma_spliced_len(
        input,
        splice::plan_ats(call.plan()),
        splice::plan_cols(call.plan(), row_of),
    );
    slots::padded_splice_is_each_slot_alone(before, next, marks, b, input, row_of);
    padded_pairs_are_each_slot_alone(m, reads, next, b, states, held, alone, k);
}

/// A padded batch of whole sequences through a bidirectional stack is each slot
/// alone, on the outputs of its real rows and on every cache: what leaves pair
/// `k` in a slot of the batch is what leaves it in the call of the slot by
/// itself.
pub proof fn padded_bidi_layers_are_each_slot_alone<S, T>(
    s: BidiLayers,
    m: PairMachine<S, T>,
    pass: BidiPass,
    solo: BidiPass,
    before: Padding,
    b: int,
    input: Seq<T>,
    row_of: spec_fn(int) -> T,
    states: Seq<S>,
    held: Seq<Seq<T>>,
    alone: Seq<Seq<T>>,
    k: int,
)
    requires
        before.wf(),
        before.rows() <= usize::MAX,
        0 <= b < before.batch(),
        input.len() == before.rows(),
        placement::settles(
            class::marks(s.class_latents@),
            padding::n_real(before.pad(b)) as int,
        ),
        ({
            let n = before.rows() as usize;
            let mine = padding::n_real(before.pad(b)) as usize;
            let call = s.call(class::start_cursors(Some(n)), n as int);
            let own = s.call(class::start_cursors(Some(mine)), mine as int);
            let sequence = slots::slot_sequence(input, before.pad(b), before.local(b));
            &&& s.is_forward(pass, class::start_cursors(Some(n)), n, Some(before))
            &&& s.is_forward(solo, class::start_cursors(Some(mine)), mine, None)
            &&& held.len() == s.count() / 2 + 1
            &&& alone.len() == held.len()
            &&& held[0] == splice::spliced_plan(input, call.plan(), row_of)
            &&& alone[0] == splice::spliced_plan(sequence, own.plan(), row_of)
        }),
        m.runs(pass.reads, b, states, held),
        m.runs(solo.reads, 0, states, alone),
        0 <= k < held.len(),
    ensures
        slots::slot_sequence(
            held[k],
            (pass.reads->padding).pad(b),
            (pass.reads->padding).local(b),
        ) == alone[k],
        forall|v: int|
            0 <= v < 2 * k ==> #[trigger] m.cache(pass.reads, b, states, held, v) == m.cache(
                solo.reads,
                0,
                states,
                alone,
                v,
            ),
{
    let marks = class::marks(s.class_latents@);
    let pad = before.pad(b);
    assert(before.pad_bs@[b]@.len() == before.rows());
    order::lemma_count_bound(pad.len(), padding::real_rows(pad));
    lemma_padded_call(marks, m, pass.reads, before, b, input, row_of, states, held, alone, k);
}

/// A padded batch of whole sequences through one bidirectional pair is each slot
/// alone, on the outputs of its real rows and on both caches.
pub proof fn padded_pair_is_each_slot_alone<S, T>(
    s: BidiLayerPair,
    m: PairMachine<S, T>,
    pass: PairForward,
    solo: PairForward,
    before: Padding,
    b: int,
    input: Seq<T>,
    row_of: spec_fn(int) -> T,
    states: Seq<S>,
    held: Seq<Seq<T>>,
    alone: Seq<Seq<T>>,
)
    requires
        before.wf(),
        before.rows() <= usize::MAX,
        0 <= b < before.batch(),
        input.len() == before.rows(),
        placement::settles(
            class::marks(s.class_latents@),
            padding::n_real(before.pad(b)) as int,
        ),
        ({
            let n = before.rows() as usize;
            let mine = padding::n_real(before.pad(b)) as usize;
            let marks = class::marks(s.class_latents@);
            let sequence = slots::slot_sequence(input, before.pad(b), before.local(b));
            &&& s.is_forward(pass, layer::cursor_or_whole(None, n), n, Some(before))
            &&& s.is_forward(solo, layer::cursor_or_whole(None, mine), mine, None)
            &&& held.len() == 2
            &&& alone.len() == 2
            &&& held[0] == splice::spliced_plan(input, placement::whole(marks, n).plan(), row_of)
            &&& alone[0] == splice::spliced_plan(
                sequence,
                placement::whole(marks, mine).plan(),
                row_of,
            )
        }),
        m.runs(pass.reads, b, states, held),
        m.runs(solo.reads, 0, states, alone),
    ensures
        slots::slot_sequence(
            held[1],
            (pass.reads->padding).pad(b),
            (pass.reads->padding).local(b),
        ) == alone[1],
        forall|v: int|
            0 <= v < 2 ==> #[trigger] m.cache(pass.reads, b, states, held, v) == m.cache(
                solo.reads,
                0,
                states,
                alone,
                v,
            ),
{
    let marks = class::marks(s.class_latents@);
    let pad = before.pad(b);
    assert(before.pad_bs@[b]@.len() == before.rows());
    order::lemma_count_bound(pad.len(), padding::real_rows(pad));
    lemma_padded_call(marks, m, pass.reads, before, b, input, row_of, states, held, alone, 1);
}

} // verus!
