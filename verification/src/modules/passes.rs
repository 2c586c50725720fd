//! What the passes of a stack show of its layers.
use crate::modules::layer;
use crate::modules::layer::LayerView;
use crate::modules::layers;
use crate::modules::layers::{Layers, PrimePass, StackPass};
use crate::modules::multi_gate::{ResidualOp, Residuals};
use crate::modules::stack::StackCall;
use crate::utils::class;
use crate::utils::class::laws as placement;
use crate::utils::class::splice;
use crate::utils::class::{ClassCursors, Cursors, Placement};
use crate::utils::order;
use crate::utils::padding::Padding;
use crate::utils::schedule;
use crate::utils::schedule::GradHorizon;
use vstd::prelude::*;

verus! {

/// A stack runs each of its virtual layers once, on the real layer that its schedule
/// gives it. Without a schedule each real layer runs once, in order.
pub proof fn a_call_runs_every_virtual_layer(
    s: Layers,
    pass: StackPass,
    call: StackCall,
    on_autodiff: bool,
    i: int,
)
    requires
        s.is_pass(pass, call, on_autodiff),
        0 <= i < pass.passes@.len(),
    ensures
        match s.n_virtual_layers {
            Some((n, schedule)) => pass.passes@.len() == n && pass.passes@[i].layer
                == schedule.spec_real_idx(i, n as int, s.n_real_layers as int),
            None => pass.passes@.len() == s.n_real_layers && pass.passes@[i].layer == i,
        },
{
    assert(s.is_layer_pass(pass.passes@[i], call, on_autodiff, i));
}

/// Which residuals a stack suppresses: that of its first virtual layer and that of
/// its last, each where its flag says so, and no other.
pub proof fn only_the_ends_drop_their_residual(
    s: Layers,
    pass: StackPass,
    call: StackCall,
    on_autodiff: bool,
    i: int,
)
    requires
        s.is_pass(pass, call, on_autodiff),
        0 <= i < pass.passes@.len(),
    ensures
        ({
            let op = pass.passes@[i].residual;
            let first = s.ignore_first_residual && i == 0;
            let last = s.ignore_last_residual && i == pass.passes@.len() - 1;
            match s.residuals {
                Residuals::Standard => if first || last {
                    op is Bare
                } else {
                    op is Skip
                },
                Residuals::MultiGate(mg) => if last {
                    op is Output
                } else if first {
                    op is Restart
                } else if pass.passes@[i].streams < mg.n_stream {
                    op == ResidualOp::Accumulate(
                        if mg.per_virtual {
                            i as usize
                        } else {
                            pass.passes@[i].layer
                        },
                    )
                } else {
                    op == ResidualOp::Mix(
                        if mg.per_virtual {
                            i as usize
                        } else {
                            pass.passes@[i].layer
                        },
                    )
                },
            }
        }),
{
    assert(s.is_layer_pass(pass.passes@[i], call, on_autodiff, i));
}

/// One stream enters a stack. What leaves a layer enters the next: one more stream
/// where the layer accumulates, one where it starts them again, as many as before
/// where it mixes or leaves them.
pub proof fn streams_flow_from_layer_to_layer(
    s: Layers,
    pass: StackPass,
    call: StackCall,
    on_autodiff: bool,
    i: int,
)
    requires
        s.wf(),
        s.is_pass(pass, call, on_autodiff),
        0 <= i < pass.passes@.len(),
    ensures
        i == 0 ==> pass.passes@[i].streams == 1,
        i > 0 ==> ({
            let before = pass.passes@[i - 1];
            pass.passes@[i].streams == match before.residual {
                ResidualOp::Skip | ResidualOp::Bare | ResidualOp::Restart => 1int,
                ResidualOp::Output | ResidualOp::Mix(_) => before.streams as int,
                ResidualOp::Accumulate(_) => before.streams + 1,
            }
        }),
{
    assert(s.is_layer_pass(pass.passes@[i], call, on_autodiff, i));
    if i > 0 {
        assert(s.is_layer_pass(pass.passes@[i - 1], call, on_autodiff, i - 1));
        if s.residuals is MultiGate {
            crate::modules::laws::streams_stay_within_bounds(s, i - 1);
        }
    }
}

/// The applications of a real layer count up from zero over the passes of a call. So
/// no two passes share a copy of an untied parameter.
pub proof fn passes_count_their_applications(
    s: Layers,
    pass: StackPass,
    call: StackCall,
    on_autodiff: bool,
    a: int,
    b: int,
)
    requires
        s.is_pass(pass, call, on_autodiff),
        -1 <= a < b < pass.passes@.len(),
        forall|j: int| a < j < b ==> (#[trigger] pass.passes@[j]).layer != pass.passes@[b].layer,
        a >= 0 ==> pass.passes@[a].layer == pass.passes@[b].layer,
    ensures
        a < 0 ==> pass.passes@[b].application == 0,
        a >= 0 ==> pass.passes@[b].application == pass.passes@[a].application + 1,
{
    let reals = s.reals();
    assert forall|j: int| 0 <= j < pass.passes@.len() implies #[trigger] pass.passes@[j].layer
        == reals[j] by {
        assert(s.is_layer_pass(pass.passes@[j], call, on_autodiff, j));
    }
    assert(s.is_layer_pass(pass.passes@[b], call, on_autodiff, b));
    let layer = reals[b];
    assert forall|j: int| a < j < b implies #[trigger] reals[j] != layer by {
        assert(pass.passes@[j].layer != pass.passes@[b].layer);
    }
    if a < 0 {
        order::lemma_count_none(reals.len(), schedule::applies(reals, 0, b, layer));
    } else {
        assert(s.is_layer_pass(pass.passes@[a], call, on_autodiff, a));
        schedule::lemma_applied_up(reals, 0, a, layer);
        order::lemma_count_ext(
            reals.len(),
            schedule::applies(reals, 0, a + 1, layer),
            schedule::applies(reals, 0, b, layer),
        );
    }
}

/// A pass sees its layer as its own application does: itself where the layer holds one
/// copy, else with every untied parameter narrowed to the copy of the application.
pub proof fn a_pass_reads_its_own_copies(
    s: Layers,
    pass: StackPass,
    call: StackCall,
    on_autodiff: bool,
    i: int,
)
    requires
        s.is_pass(pass, call, on_autodiff),
        0 <= i < pass.passes@.len(),
    ensures
        ({
            let its = s.real_layers@[pass.passes@[i].layer as int];
            let untied = its.untied@.len() + its.block_untied@.len();
            match pass.passes@[i].view {
                LayerView::Itself => its.n_applications == 1 || untied == 0,
                LayerView::Copy { params, application, n_applications } => {
                    &&& its.n_applications != 1
                    &&& untied > 0
                    &&& params@.len() == untied
                    &&& application == pass.passes@[i].application
                    &&& n_applications == its.n_applications
                    &&& application < n_applications
                },
            }
        }),
{
    assert(s.is_layer_pass(pass.passes@[i], call, on_autodiff, i));
}

/// Which passes build a gradient graph. Off the autodiff backend and without a
/// horizon, all do. A mask says so for each, and a depth keeps the last passes of
/// every real layer: those that fewer than its number of passes of the layer follow.
pub proof fn a_pass_is_kept_in_the_graph_as_the_horizon_says(
    s: Layers,
    pass: StackPass,
    call: StackCall,
    on_autodiff: bool,
    i: int,
    end: int,
)
    requires
        s.is_pass(pass, call, on_autodiff),
        0 <= i <= end < pass.passes@.len(),
        pass.passes@[end].layer == pass.passes@[i].layer,
        forall|j: int|
            end < j < pass.passes@.len() ==> (#[trigger] pass.passes@[j]).layer
                != pass.passes@[i].layer,
    ensures
        pass.passes@[i].track == (match s.grad_horizon {
            None => true,
            Some(GradHorizon::Mask(mask)) => !on_autodiff || mask@[i],
            Some(GradHorizon::Depth(k)) => !on_autodiff || pass.passes@[end].application
                - pass.passes@[i].application < k,
        }),
{
    let reals = s.reals();
    let n = reals.len();
    assert forall|j: int| 0 <= j < pass.passes@.len() implies #[trigger] pass.passes@[j].layer
        == reals[j] by {
        assert(s.is_layer_pass(pass.passes@[j], call, on_autodiff, j));
    }
    assert(s.is_layer_pass(pass.passes@[i], call, on_autodiff, i));
    assert(s.is_layer_pass(pass.passes@[end], call, on_autodiff, end));
    let layer = reals[i];
    assert forall|j: int| end < j < n implies #[trigger] reals[j] != layer by {
        assert(pass.passes@[j].layer != pass.passes@[i].layer);
    }
    schedule::lemma_applied_up(reals, 0, i, layer);
    schedule::lemma_applied_up(reals, 0, end, layer);
    order::lemma_count_or(
        n,
        schedule::applies(reals, 0, i + 1, layer),
        schedule::applies(reals, i + 1, n as int, layer),
        schedule::applies(reals, 0, n as int, layer),
    );
    order::lemma_count_ext(
        n,
        schedule::applies(reals, 0, end + 1, layer),
        schedule::applies(reals, 0, n as int, layer),
    );
}

/// The stack leaves the graph where a pass that is not kept follows one that is, or
/// opens the stack, and comes back where a kept pass follows one that is not. Where it
/// ends outside, its output is lifted.
pub proof fn the_graph_is_left_and_entered_at_the_boundaries(
    s: Layers,
    pass: StackPass,
    call: StackCall,
    on_autodiff: bool,
    i: int,
)
    requires
        s.is_pass(pass, call, on_autodiff),
        0 <= i < pass.passes@.len(),
    ensures
        ({
            let inside = i == 0 || pass.passes@[i - 1].track;
            let here = pass.passes@[i];
            &&& here.boundary is Cut == (inside && !here.track)
            &&& here.boundary is Lift == (!inside && here.track)
            &&& here.boundary is Stay == (inside == here.track)
        }),
        pass.lift == !pass.passes@[pass.passes@.len() - 1].track,
{
    assert(s.is_layer_pass(pass.passes@[i], call, on_autodiff, i));
    if i > 0 {
        assert(s.is_layer_pass(pass.passes@[i - 1], call, on_autodiff, i - 1));
    }
    let n = pass.passes@.len() - 1;
    assert(s.is_layer_pass(pass.passes@[n], call, on_autodiff, n));
}

/// The rows of a level never get fewer.
proof fn lemma_rows_grow(call: StackCall, j: int)
    requires
        0 <= call.rows,
    ensures
        0 <= call.rows_at(j),
    decreases j,
{
    if j > 0 {
        lemma_rows_grow(call, j - 1);
    }
}

/// The runs of a call are as many rows as its chunk and its plan.
proof fn lemma_runs_len(segments: Seq<splice::Segment>, call: Placement)
    requires
        layer::runs_of(segments, call),
        0 <= call.offset,
        0 <= call.chunk,
    ensures
        splice::segment_rows(segments).len() == call.chunk + call.plan().len(),
{
    placement::plan_names_places(call);
    splice::lemma_spliced_len(
        splice::token_rows(call.chunk),
        splice::plan_ats(call.plan()),
        splice::plan_cols(call.plan(), splice::marker_row()),
    );
}

/// What a level puts out enters the next one: the rows of a call with the markers of
/// the stack enter its first layer, those that run a layer enter the next, and those
/// that run the last one leave the stack. A layer without rows is idle.
pub proof fn rows_flow_from_layer_to_layer(
    s: Layers,
    pass: StackPass,
    class: Option<Cursors>,
    rows: int,
    prime: bool,
    on_autodiff: bool,
    i: int,
)
    requires
        s.is_pass(pass, s.call(class, rows, prime), on_autodiff),
        0 <= rows,
        0 <= i < pass.passes@.len(),
    ensures
        pass.passes@[0].rows == splice::segment_rows(pass.segments@).len(),
        ({
            let leaving = splice::segment_rows(pass.passes@[i].segments@).len();
            &&& i + 1 < pass.passes@.len() ==> pass.passes@[i + 1].rows == leaving
            &&& i + 1 == pass.passes@.len() ==> pass.rows == leaving
            &&& pass.passes@[i].idle == (leaving == 0)
            &&& pass.passes@[i].rows <= leaving
        }),
        rows <= pass.passes@[0].rows,
{
    let call = s.call(class, rows, prime);
    assert(s.is_layer_pass(pass.passes@[i], call, on_autodiff, i));
    assert(s.is_layer_pass(pass.passes@[0], call, on_autodiff, 0));
    lemma_rows_grow(call, i + 1);
    lemma_runs_len(pass.segments@, call.call(0));
    lemma_runs_len(pass.passes@[i].segments@, call.call(i + 1));
    if i + 1 < pass.passes@.len() {
        assert(s.is_layer_pass(pass.passes@[i + 1], call, on_autodiff, i + 1));
    }
}

/// The cursors past a call have moved by the rows that each level put out. The rest
/// of them stays.
pub proof fn cursors_move_by_the_rows_put_out(
    s: Layers,
    pass: StackPass,
    class: Cursors,
    rows: int,
    prime: bool,
    padding: Option<Padding>,
    on_autodiff: bool,
    i: int,
)
    requires
        s.is_call(pass, Some(class), rows, prime, padding, on_autodiff),
        0 <= rows,
        0 <= i < pass.passes@.len(),
        class.per_layer.len() == 0 || class.per_layer.len() == pass.passes@.len(),
    ensures
        ({
            let next = pass.class->Some_0@;
            let reached = if class.per_layer.len() == 0 {
                0
            } else {
                class.per_layer[i] as int
            };
            &&& pass.class is Some
            &&& next.full_len == class.full_len
            &&& next.network == class.network
            &&& next.stack == class.stack + splice::segment_rows(pass.segments@).len()
            &&& next.per_layer.len() == pass.passes@.len()
            &&& next.per_layer[i] == reached + splice::segment_rows(
                pass.passes@[i].segments@,
            ).len()
        }),
{
    let call = s.call(Some(class), rows, prime);
    let next = pass.class->Some_0@;
    assert(s.is_layer_pass(pass.passes@[i], call, on_autodiff, i));
    lemma_rows_grow(call, i + 1);
    lemma_runs_len(pass.segments@, call.call(0));
    lemma_runs_len(pass.passes@[i].segments@, call.call(i + 1));
    let n = s.count();
    assert(layers::cursor_offsets(next, n)[0] == call.next_offsets()[0]);
    assert(layers::cursor_offsets(next, n)[i + 1] == call.next_offsets()[i + 1]);
}

/// A pass splices the class latents of the layer that it runs around the rows that
/// enter it, from the cursor of its virtual layer. The stack splices its own around the
/// rows of the call.
pub proof fn a_pass_splices_its_own_latents(
    s: Layers,
    pass: StackPass,
    class: Cursors,
    rows: int,
    prime: bool,
    on_autodiff: bool,
    i: int,
)
    requires
        s.is_pass(pass, s.call(Some(class), rows, prime), on_autodiff),
        0 <= i < pass.passes@.len(),
        class.per_layer.len() == 0 || class.per_layer.len() == pass.passes@.len(),
    ensures
        ({
            let own = Placement {
                marks: class::marks(s.class_latents@),
                full_len: class.full_len,
                offset: class.stack as int,
                chunk: rows,
                prime,
            };
            splice::segment_rows(pass.segments@) == splice::spliced_plan(
                splice::token_rows(rows),
                own.plan(),
                splice::marker_row(),
            )
        }),
        ({
            let here = pass.passes@[i];
            let own = Placement {
                marks: class::marks(s.real_layers@[here.layer as int].class_latents@),
                full_len: s.call(Some(class), rows, prime).full_at(i + 1),
                offset: if class.per_layer.len() == 0 {
                    0
                } else {
                    class.per_layer[i] as int
                },
                chunk: here.rows as int,
                prime,
            };
            splice::segment_rows(here.segments@) == splice::spliced_plan(
                splice::token_rows(here.rows as int),
                own.plan(),
                splice::marker_row(),
            )
        }),
        s.call(Some(class), rows, prime).full_at(0) == class.full_len,
        s.call(Some(class), rows, prime).full_at(1) == class::machine_len(
            class::grown(class::marks(s.class_latents@), class.full_len),
        ),
        i + 1 < pass.passes@.len() ==> s.call(Some(class), rows, prime).full_at(i + 2)
            == class::machine_len(
            class::grown(
                class::marks(s.real_layers@[pass.passes@[i].layer as int].class_latents@),
                s.call(Some(class), rows, prime).full_at(i + 1),
            ),
        ),
{
    let call = s.call(Some(class), rows, prime);
    assert(s.is_layer_pass(pass.passes@[i], call, on_autodiff, i));
    reveal_with_fuel(StackCall::full_at, 2);
}

/// A call without cursors splices nothing: its rows run every layer, and leave.
pub proof fn a_call_without_cursors_splices_nothing(
    s: Layers,
    pass: StackPass,
    rows: int,
    prime: bool,
    on_autodiff: bool,
    i: int,
)
    requires
        s.is_pass(pass, s.call(None, rows, prime), on_autodiff),
        0 <= rows <= usize::MAX,
        0 <= i < pass.passes@.len(),
    ensures
        splice::segment_rows(pass.segments@) == splice::token_rows(rows),
        splice::segment_rows(pass.passes@[i].segments@) == splice::token_rows(rows),
        pass.passes@[i].rows == rows,
        pass.rows == rows,
{
    let call = s.call(None, rows, prime);
    assert(s.is_layer_pass(pass.passes@[i], call, on_autodiff, i));
    s.lemma_uninjected(rows, prime);
    placement::plan_names_places(call.call(0));
    placement::plan_names_places(call.call(i + 1));
    assert(call.rows_at(i + 1) == rows);
    assert(call.rows_at(s.count() + 1) == rows);
    assert(call.levels[0].len() == 0 && call.levels[i + 1].len() == 0);
}

/// A prime runs no token of its own, from the cursors that it is given. Where it has
/// no caches to run on and something runs, the caches of the layers that stay idle
/// are zeroed. Without cursors nothing runs.
pub proof fn a_prime_zeroes_the_caches_of_idle_layers(
    s: Layers,
    prime: PrimePass,
    class: Option<ClassCursors>,
    has_caches: bool,
    on_autodiff: bool,
    i: int,
)
    requires
        s.is_prime(prime, class, has_caches, on_autodiff),
    ensures
        prime.pass is Some == class is Some,
        class is None || has_caches || prime.pass->Some_0.rows == 0 ==> prime.zeros@.len() == 0,
        class is Some && !has_caches && prime.pass->Some_0.rows > 0 ==> {
            &&& prime.zeros@.len() == prime.pass->Some_0.passes@.len()
            &&& 0 <= i < prime.zeros@.len() ==> prime.zeros@[i] == (splice::segment_rows(
                prime.pass->Some_0.passes@[i].segments@,
            ).len() == 0)
        },
{
    if class is Some && !has_caches && prime.pass->Some_0.rows > 0 && 0 <= i
        < prime.zeros@.len() {
        rows_flow_from_layer_to_layer(
            s,
            prime.pass->Some_0,
            class::cursors(class),
            0,
            true,
            on_autodiff,
            i,
        );
    }
}

/// A padded call hands its padding up level by level: that of the call enters the stack,
/// and every level splices its own markers into the padding that it receives. There is
/// one for the call, one past the latents of the stack, and one past those of each layer.
pub proof fn padding_follows_the_levels(
    s: Layers,
    pass: StackPass,
    class: Cursors,
    rows: int,
    prime: bool,
    p: Padding,
    on_autodiff: bool,
    i: int,
)
    requires
        s.is_call(pass, Some(class), rows, prime, Some(p), on_autodiff),
        0 <= i < pass.passes@.len(),
    ensures
        ({
            let call = s.call(Some(class), rows, prime);
            &&& pass.paddings@.len() == pass.passes@.len() + 2
            &&& pass.paddings@[0] == p
            &&& pass.paddings@[0].splices_to(
                call.call(0).plan(),
                class::marks(s.class_latents@),
                pass.paddings@[1],
            )
            &&& pass.paddings@[i + 1].splices_to(
                call.call(i + 1).plan(),
                class::marks(s.real_layers@[pass.passes@[i].layer as int].class_latents@),
                pass.paddings@[i + 2],
            )
            &&& pass.paddings@[i + 2].wf()
        }),
{
    let call = s.call(Some(class), rows, prime);
    assert(s.is_layer_pass(pass.passes@[i], call, on_autodiff, i));
    assert(pass.paddings@[0].splices_to(call.call(0).plan(), call.levels[0], pass.paddings@[1]));
    assert(pass.paddings@[i + 1].splices_to(
        call.call(i + 1).plan(),
        call.levels[i + 1],
        pass.paddings@[i + 2],
    ));
    assert(pass.paddings@[i + 2].wf());
}

/// A call without padding leaves none, and one without cursors leaves none of those.
pub proof fn nothing_is_left_of_what_was_not_given(
    s: Layers,
    pass: StackPass,
    class: Option<Cursors>,
    rows: int,
    prime: bool,
    padding: Option<Padding>,
    on_autodiff: bool,
)
    requires
        s.is_call(pass, class, rows, prime, padding, on_autodiff),
    ensures
        padding is None ==> pass.paddings@.len() == 0,
        class is None == pass.class is None,
        layers::padding_of(None) is None,
{
}

/// A mask of a batch is its padding, in the batch-wide order.
pub proof fn a_mask_is_its_padding(pad: Vec<Vec<bool>>)
    ensures
        layers::padding_of(Some(pad)) matches Some(p) && p.pad_bs == pad && p.local_bs is None,
{
}

} // verus!
