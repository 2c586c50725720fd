//! What the passes of a bidirectional stack show of its pairs.
use crate::modules::bidi::{
    BidiLayerPair, BidiLayers, BidiPass, DirectionPass, OutputMerge, OutputMergeConfig, PairForward,
};
use crate::modules::layer;
use crate::modules::layer::LayerView;
use crate::modules::linear::LinearShape;
use crate::modules::multi_gate::{ResidualOp, Residuals};
use crate::utils::class;
use crate::utils::class::laws as placement;
use crate::utils::class::splice;
use crate::utils::class::{ClassCursor, Cursors, Placement};
use crate::utils::order;
use crate::utils::padding::Padding;
use crate::utils::schedule;
use crate::utils::schedule::BidiSchedule;
use vstd::prelude::*;

verus! {

/// The pass of virtual layer `v`: the straight direction of its pair, or the reversed
/// one.
pub open spec fn direction(pass: BidiPass, v: int) -> DirectionPass {
    if v % 2 == 0 {
        pass.pairs@[v / 2].straight
    } else {
        pass.pairs@[v / 2].reverse
    }
}

/// Each virtual layer of a bidirectional stack runs the real layer of its schedule, and
/// without one the real layer of its own index.
pub proof fn bidi_layers_follow_the_schedule(
    s: Option<BidiSchedule>,
    v: int,
    virtual_len: int,
    real_len: int,
)
    requires
        0 <= v < virtual_len,
    ensures
        schedule::bidi_virtual_reals(s, virtual_len, real_len).len() == virtual_len,
        match s {
            Some(s) => schedule::bidi_virtual_reals(Some(s), virtual_len, real_len)[v]
                == s.spec_real_idx(v, virtual_len, real_len),
            None => schedule::bidi_virtual_reals(None, virtual_len, real_len)[v] == v,
        },
        s matches Some(BidiSchedule::Custom(map)) ==> schedule::bidi_virtual_reals(
            s,
            virtual_len,
            real_len,
        )[v] == map@[v],
{
}

/// A stack runs its virtual layers two by two, the first of a pair straight and the
/// second reversed, each on its own cache and on the real layer of its schedule. The
/// pair merges with the merge of the real pair of its straight layer.
pub proof fn a_call_runs_every_pair(
    s: BidiLayers,
    pass: BidiPass,
    class: Cursors,
    rows: usize,
    padding: Option<Padding>,
    i: int,
)
    requires
        s.is_forward(pass, class, rows, padding),
        0 <= i < pass.pairs@.len(),
    ensures
        ({
            let pair = pass.pairs@[i];
            &&& pair.straight.slot == 2 * i
            &&& pair.reverse.slot == 2 * i + 1
            &&& pair.merge == pair.straight.layer as int / 2
            &&& match s.n_virtual_layers {
                Some((n, schedule)) => {
                    &&& pass.pairs@.len() == n as int / 2
                    &&& pair.straight.layer == schedule.spec_real_idx(
                        2 * i,
                        n as int,
                        s.n_real_layers as int,
                    )
                    &&& pair.reverse.layer == schedule.spec_real_idx(
                        2 * i + 1,
                        n as int,
                        s.n_real_layers as int,
                    )
                },
                None => {
                    &&& pass.pairs@.len() == s.n_real_layers as int / 2
                    &&& pair.straight.layer == 2 * i
                    &&& pair.reverse.layer == 2 * i + 1
                },
            }
        }),
{
    assert(s.is_pair(pass.pairs@[i], i));
}

/// Which residuals a stack suppresses: that of its first pair and that of its last,
/// each where its flag says so, and no other. A pair pools with its own module where
/// every virtual pair has one, else with that of its real pair.
pub proof fn only_the_end_pairs_drop_their_residual(
    s: BidiLayers,
    pass: BidiPass,
    class: Cursors,
    rows: usize,
    padding: Option<Padding>,
    i: int,
)
    requires
        s.is_forward(pass, class, rows, padding),
        0 <= i < pass.pairs@.len(),
    ensures
        ({
            let op = pass.pairs@[i].residual;
            let first = s.ignore_first_residual && i == 0;
            let last = s.ignore_last_residual && i == pass.pairs@.len() - 1;
            match s.residuals {
                Residuals::Standard => if first || last {
                    op is Bare
                } else {
                    op is Skip
                },
                Residuals::MultiGate(mg) => {
                    let module = if mg.per_virtual {
                        i as usize
                    } else {
                        pass.pairs@[i].merge
                    };
                    if last {
                        op is Output
                    } else if first {
                        op is Restart
                    } else if pass.pairs@[i].streams < mg.n_stream {
                        op == ResidualOp::Accumulate(module)
                    } else {
                        op == ResidualOp::Mix(module)
                    }
                },
            }
        }),
{
    assert(s.is_pair(pass.pairs@[i], i));
}

/// One stream enters a stack. What leaves a pair enters the next: one more stream where
/// the pair accumulates, one where it starts them again, as many as before where it
/// mixes or leaves them.
pub proof fn streams_flow_from_pair_to_pair(
    s: BidiLayers,
    pass: BidiPass,
    class: Cursors,
    rows: usize,
    padding: Option<Padding>,
    i: int,
)
    requires
        s.wf(),
        s.is_forward(pass, class, rows, padding),
        0 <= i < pass.pairs@.len(),
    ensures
        i == 0 ==> pass.pairs@[i].streams == 1,
        i > 0 ==> ({
            let before = pass.pairs@[i - 1];
            pass.pairs@[i].streams == match before.residual {
                ResidualOp::Skip | ResidualOp::Bare | ResidualOp::Restart => 1int,
                ResidualOp::Output | ResidualOp::Mix(_) => before.streams as int,
                ResidualOp::Accumulate(_) => before.streams + 1,
            }
        }),
{
    assert(s.is_pair(pass.pairs@[i], i));
    if i > 0 {
        assert(s.is_pair(pass.pairs@[i - 1], i - 1));
        lemma_streams_within(s, i - 1);
    }
}

proof fn lemma_streams_within(s: BidiLayers, i: int)
    requires
        s.residuals.wf(),
    ensures
        s.residuals matches Residuals::MultiGate(mg) ==> 1 <= s.streams(i) <= mg.n_stream,
    decreases i,
{
    if i > 0 {
        lemma_streams_within(s, i - 1);
    }
}

/// The applications of a real layer count up from zero over the virtual layers of a
/// call, straight and reversed ones alike.
pub proof fn directions_count_their_applications(
    s: BidiLayers,
    pass: BidiPass,
    class: Cursors,
    rows: usize,
    padding: Option<Padding>,
    a: int,
    b: int,
)
    requires
        s.is_forward(pass, class, rows, padding),
        -1 <= a < b < 2 * pass.pairs@.len(),
        forall|v: int|
            a < v < b ==> (#[trigger] direction(pass, v)).layer != direction(pass, b).layer,
        a >= 0 ==> direction(pass, a).layer == direction(pass, b).layer,
    ensures
        a < 0 ==> direction(pass, b).application == 0,
        a >= 0 ==> direction(pass, b).application == direction(pass, a).application + 1,
{
    let reals = s.reals();
    assert forall|v: int| 0 <= v < 2 * pass.pairs@.len() implies #[trigger] direction(pass, v).layer
        == reals[v] && direction(pass, v).application == s.application(v) by {
        assert(s.is_pair(pass.pairs@[v / 2], v / 2));
    }
    let layer = reals[b];
    assert(direction(pass, b).layer == layer);
    assert forall|v: int| a < v < b implies #[trigger] reals[v] != layer by {
        assert(direction(pass, v).layer != direction(pass, b).layer);
        assert(direction(pass, v).layer == reals[v]);
    }
    if a < 0 {
        order::lemma_count_none(reals.len(), schedule::applies(reals, 0, b, layer));
    } else {
        assert(direction(pass, a).layer == reals[a]);
        schedule::lemma_applied_up(reals, 0, a, layer);
        order::lemma_count_ext(
            reals.len(),
            schedule::applies(reals, 0, a + 1, layer),
            schedule::applies(reals, 0, b, layer),
        );
    }
}

/// A direction sees its layer as its own application does: itself where the layer holds
/// one copy, else with every untied parameter narrowed to the copy of the application.
pub proof fn a_direction_reads_its_own_copies(
    s: BidiLayers,
    pass: BidiPass,
    class: Cursors,
    rows: usize,
    padding: Option<Padding>,
    v: int,
)
    requires
        s.is_forward(pass, class, rows, padding),
        0 <= v < 2 * pass.pairs@.len(),
    ensures
        ({
            let here = direction(pass, v);
            let its = s.real_layers@[here.layer as int];
            let untied = its.untied@.len() + its.block_untied@.len();
            match here.view {
                LayerView::Itself => its.n_applications == 1 || untied == 0,
                LayerView::Copy { params, application, n_applications } => {
                    &&& its.n_applications != 1
                    &&& untied > 0
                    &&& params@.len() == untied
                    &&& application == here.application
                    &&& n_applications == its.n_applications
                    &&& application < n_applications
                },
            }
        }),
{
    assert(s.is_pair(pass.pairs@[v / 2], v / 2));
}

proof fn lemma_runs_len(segments: Seq<splice::Segment>, call: Placement)
    requires
        layer::runs_of(segments, call),
        0 <= call.offset,
        0 <= call.chunk,
    ensures
        splice::segment_rows(segments).len() == call.chunk + call.plan().len(),
{
    placement::plan_names_places(call);
    splice::lemma_spliced_len(
        splice::token_rows(call.chunk),
        splice::plan_ats(call.plan()),
        splice::plan_cols(call.plan(), splice::marker_row()),
    );
}

/// A stack splices its own class latents around the rows of the call, from its own
/// cursor, and moves that cursor by the rows that enter its pairs. The other cursors
/// stay.
pub proof fn a_bidi_stack_splices_its_own_latents(
    s: BidiLayers,
    pass: BidiPass,
    class: Cursors,
    rows: usize,
    padding: Option<Padding>,
)
    requires
        s.is_forward(pass, class, rows, padding),
    ensures
        ({
            let own = Placement {
                marks: class::marks(s.class_latents@),
                full_len: class.full_len,
                offset: class.stack as int,
                chunk: rows as int,
                prime: false,
            };
            splice::segment_rows(pass.segments@) == splice::spliced_plan(
                splice::token_rows(rows as int),
                own.plan(),
                splice::marker_row(),
            )
        }),
        pass.rows == splice::segment_rows(pass.segments@).len(),
        pass.class@.stack == class.stack + pass.rows,
        pass.class@.full_len == class.full_len,
        pass.class@.network == class.network,
        pass.class@.per_layer == class.per_layer,
        padding is None == pass.reads is Flip,
{
    lemma_runs_len(pass.segments@, s.call(class, rows as int));
}

/// A pair splices its own class latents around the rows of the call, and moves its
/// cursor by the rows that it runs.
pub proof fn a_pair_splices_its_own_latents(
    s: BidiLayerPair,
    pass: PairForward,
    class: ClassCursor,
    rows: usize,
    padding: Option<Padding>,
)
    requires
        s.is_forward(pass, class, rows, padding),
    ensures
        ({
            let own = Placement {
                marks: class::marks(s.class_latents@),
                full_len: class.full_len,
                offset: class.offset as int,
                chunk: rows as int,
                prime: false,
            };
            splice::segment_rows(pass.segments@) == splice::spliced_plan(
                splice::token_rows(rows as int),
                own.plan(),
                splice::marker_row(),
            )
        }),
        pass.rows == splice::segment_rows(pass.segments@).len(),
        pass.class.offset == class.offset + pass.rows,
        pass.class.full_len == class.full_len,
        padding is None == pass.reads is Flip,
{
    lemma_runs_len(
        pass.segments@,
        class::placement(s.class_latents@, class, rows as int, false),
    );
}

/// A call without cursors is that of a whole sequence: from the start, and as long as
/// its rows.
pub proof fn a_call_without_cursors_is_a_whole_sequence(rows: usize, cursor: ClassCursor)
    ensures
        layer::cursor_or_whole(None, rows).offset == 0,
        layer::cursor_or_whole(None, rows).full_len == Some(rows),
        layer::cursor_or_whole(Some(cursor), rows) == cursor,
        class::cursors_or_whole(None, rows).full_len == Some(rows),
        class::cursors_or_whole(None, rows).network == 0,
        class::cursors_or_whole(None, rows).stack == 0,
        class::cursors_or_whole(None, rows).per_layer.len() == 0,
{
}

/// A merge takes two outputs of one width and gives one of that width: the mean of any,
/// a projection where it was made for twice the width.
pub proof fn a_merge_keeps_the_width(config: OutputMergeConfig, d_model: usize, width: int)
    requires
        2 * d_model <= usize::MAX,
    ensures
        match config {
            OutputMergeConfig::Mean => config.spec_init(d_model) is Mean && config.spec_init(
                d_model,
            ).merges(width),
            OutputMergeConfig::CatLinear => {
                &&& config.spec_init(d_model) matches OutputMerge::CatLinear(proj)
                    && proj.d_input == 2 * d_model && proj.d_output == d_model && proj.has_bias
                &&& config.spec_init(d_model).merges(width) == (width == d_model)
            },
        },
{
}

/// A mean merges outputs of any width. A projection merges those it fits: it takes both
/// side by side, and gives one of them.
pub proof fn a_projection_merges_the_width_it_fits(proj: LinearShape, width: int)
    ensures
        OutputMerge::Mean.merges(width),
        OutputMerge::CatLinear(proj).merges(width) == (proj.d_input == width + width
            && proj.d_output == width),
{
}

} // verus!
