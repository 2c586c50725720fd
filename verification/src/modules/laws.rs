//! What every stack keeps, whatever its calls.
use crate::modules::layer::LayerView;
use crate::modules::layers;
use crate::modules::layers::{Boundary, LayerPass, Layers, StackPass};
use crate::modules::stack;
use crate::modules::stack::StackCall;
use crate::utils::class;
use crate::utils::class::laws as placement;
use crate::utils::class::splice;
use crate::utils::class::Cursors;
use crate::utils::padding::Padding;
use vstd::prelude::*;

verus! {

/// A splice of nothing changes nothing.
proof fn lemma_nothing_spliced<T>(rows: Seq<T>, plan: Seq<(int, int)>, row_of: spec_fn(int) -> T)
    requires
        plan.len() == 0,
    ensures
        splice::spliced_plan(rows, plan, row_of) == rows,
{
}

proof fn lemma_starts_are_over<T>(
    a: StackCall,
    input: Seq<T>,
    row_of: spec_fn(int) -> spec_fn(int) -> T,
    j: int,
)
    requires
        a.stands(),
        a.rows >= 1,
        forall|l: int| 0 <= l < a.levels.len() ==> placement::all_start(#[trigger] a.levels[l]),
        0 <= j <= a.levels.len(),
    ensures
        stack::after(a, input.len() as int, false).sequence(input, row_of, j) == input,
        stack::after(a, input.len() as int, false).rows_at(j) == input.len(),
    decreases j,
{
    let b = stack::after(a, input.len() as int, false);
    if j > 0 {
        let l = j - 1;
        lemma_starts_are_over(a, input, row_of, l);
        stack::lemma_full_at_agrees(a, b, l);
        stack::levels_hand_up_what_they_receive(a, l);
        assert(placement::all_start(a.levels[l]));
        placement::starts_are_emitted_once(a.call(l), b.call(l));
        lemma_nothing_spliced(b.sequence(input, row_of, l), b.call(l).plan(), row_of(l));
    }
}

/// In a stack whose class latents are all `Start`, after a call that carried a
/// row, no later call emits one: its rows go up the stack as they are. So a
/// step with cursors is the step without them.
pub proof fn only_start_latents_open_the_sequence<T>(
    a: StackCall,
    input: Seq<T>,
    row_of: spec_fn(int) -> spec_fn(int) -> T,
)
    requires
        a.stands(),
        a.rows >= 1,
        forall|l: int| 0 <= l < a.levels.len() ==> placement::all_start(#[trigger] a.levels[l]),
    ensures
        stack::after(a, input.len() as int, false).output(input, row_of) == input,
{
    lemma_starts_are_over(a, input, row_of, a.levels.len() as int);
}

/// A stack that says so has only `Start` latents at every level of a call.
pub proof fn only_start_latents_covers_every_level(s: Layers, l: int)
    requires
        s.wf(),
        layers::all_start(s.class_latents@),
        forall|r: int|
            0 <= r < s.real_layers@.len() ==> layers::all_start(
                (#[trigger] s.real_layers@[r]).class_latents@,
            ),
        0 <= l < s.levels().len(),
    ensures
        placement::all_start(s.levels()[l]),
{
    let latents = if l == 0 {
        s.class_latents@
    } else {
        s.lemma_real_in_range(l - 1);
        s.real_layers@[s.reals()[l - 1]].class_latents@
    };
    assert(layers::all_start(latents));
    assert forall|i: int| 0 <= i < s.levels()[l].len() implies (
    #[trigger] s.levels()[l][i]) is Start by {
        assert(latents[i] is Start);
    }
}

/// A call without cursors emits the rows that it receives, and no others.
pub proof fn uninjected_call_is_the_identity<T>(
    s: Layers,
    input: Seq<T>,
    row_of: spec_fn(int) -> spec_fn(int) -> T,
    prime: bool,
    j: int,
)
    requires
        input.len() <= usize::MAX,
        0 <= j <= s.count() + 1,
    ensures
        s.call(None, input.len() as int, prime).sequence(input, row_of, j) == input,
    decreases j,
{
    let call = s.call(None, input.len() as int, prime);
    s.lemma_uninjected(input.len() as int, prime);
    if j > 0 {
        uninjected_call_is_the_identity(s, input, row_of, prime, j - 1);
        assert(call.rows_at(j) == input.len());
        assert(call.rows_at(j - 1) == input.len());
        lemma_nothing_spliced(
            call.sequence(input, row_of, j - 1),
            call.call(j - 1).plan(),
            row_of(j - 1),
        );
    }
}

/// The cursors of a new sequence are those of one stream, at every level of a
/// stack.
pub proof fn new_cursors_stream(s: Layers, full_len: Option<usize>, rows: int, prime: bool)
    ensures
        s.call(Some(class::start_cursors(full_len)), rows, prime).streams(),
{
    stack::a_new_sequence_streams(s.call(Some(class::start_cursors(full_len)), rows, prime));
}

/// The cursors that a call leaves are those of one stream where those that it
/// was given are, also past the announced end. The next call resumes every level
/// where this one stopped.
pub proof fn past_cursors_stream(
    s: Layers,
    pass: StackPass,
    class: Cursors,
    rows: int,
    prime: bool,
    padding: Option<Padding>,
    on_autodiff: bool,
    more: int,
    again: bool,
)
    requires
        s.is_call(pass, Some(class), rows, prime, padding, on_autodiff),
        0 <= rows,
        s.call(Some(class), rows, prime).fits(),
        s.call(Some(class), rows, prime).streams(),
    ensures
        s.call(Some(pass.class->Some_0@), more, again) == stack::after(
            s.call(Some(class), rows, prime),
            more,
            again,
        ),
        s.call(Some(pass.class->Some_0@), more, again).streams(),
{
    stack::a_call_keeps_the_stream(s.call(Some(class), rows, prime), more, again);
}

/// A prime of a stack emits no `End`, neither its own nor one of a layer.
pub proof fn a_stack_primes_no_end(s: Layers, class: Cursors, j: int, i: int)
    requires
        s.call(Some(class), 0, true).fits(),
        s.call(Some(class), 0, true).streams(),
        0 <= j <= s.count(),
        0 <= i < s.call(Some(class), 0, true).call(j).plan().len(),
    ensures
        !(s.level(j)[s.call(Some(class), 0, true).call(j).plan()[i].1] is End),
{
    stack::no_end_is_ever_primed(s.call(Some(class), 0, true), j, i);
}

/// Off the autodiff backend, or without a horizon, a stack is never cut.
pub proof fn an_untouched_stack_is_never_cut(s: Layers, on_autodiff: bool, i: int)
    requires
        !on_autodiff || s.grad_horizon is None,
    ensures
        s.tracks(on_autodiff, i),
        s.boundary(on_autodiff, i) is Stay,
{
}

/// A horizon that keeps every layer behaves like none: no boundary is crossed.
pub proof fn a_full_horizon_is_no_cut(s: Layers, on_autodiff: bool, i: int)
    requires
        forall|j: int| 0 <= j < s.count() ==> #[trigger] s.tracks(on_autodiff, j),
        0 <= i < s.count(),
    ensures
        s.boundary(on_autodiff, i) is Stay,
{
    assert(s.tracks(on_autodiff, i));
    if i > 0 {
        assert(s.tracks(on_autodiff, i - 1));
    }
}

/// Whether virtual layer `i` runs inside an untracked segment is what the
/// boundaries below it say: the last one crossed is a cut.
pub proof fn boundaries_follow_the_mask(s: Layers, on_autodiff: bool, i: int)
    requires
        0 <= i,
    ensures
        s.tracks(on_autodiff, i) == (match s.boundary(on_autodiff, i) {
            Boundary::Cut => false,
            Boundary::Lift => true,
            Boundary::Stay => i == 0 || s.tracks(on_autodiff, i - 1),
        }),
{
}

/// The straight-through carry past virtual layer `i`, as the origins of its
/// rows. An untracked segment opens it with the rows that enter the segment.
/// Each layer of the segment splices a ghost of every class latent into it,
/// where it splices the latent itself into the rows. There is none outside such
/// a segment.
pub open spec fn carry<T>(
    s: Layers,
    call: StackCall,
    on_autodiff: bool,
    input: Seq<T>,
    row_of: spec_fn(int) -> spec_fn(int) -> T,
    i: int,
) -> Option<Seq<T>>
    decreases i + 1,
{
    if i < 0 || s.tracks(on_autodiff, i) {
        None
    } else {
        let entering = match carry(s, call, on_autodiff, input, row_of, i - 1) {
            Some(rows) => rows,
            None => call.sequence(input, row_of, i + 1),
        };
        Some(splice::spliced_plan(entering, call.call(i + 1).plan(), row_of(i + 1)))
    }
}

/// The carry shadows the rows: inside an untracked segment it holds, in the same
/// order, one row of the same origin for every row of the layer. So everything
/// that enters the segment, and every class latent spliced inside it, keeps a
/// path across the cut.
pub proof fn the_carry_shadows_every_row<T>(
    s: Layers,
    call: StackCall,
    on_autodiff: bool,
    input: Seq<T>,
    row_of: spec_fn(int) -> spec_fn(int) -> T,
    i: int,
)
    requires
        0 <= i,
    ensures
        carry(s, call, on_autodiff, input, row_of, i) is Some == !s.tracks(on_autodiff, i),
        carry(s, call, on_autodiff, input, row_of, i) matches Some(rows) ==> rows
            == call.sequence(input, row_of, i + 2),
    decreases i,
{
    reveal_with_fuel(carry, 2);
    if i > 0 {
        the_carry_shadows_every_row(s, call, on_autodiff, input, row_of, i - 1);
    }
}

/// Whether both views read the same copies.
pub open spec fn same_view(a: LayerView, b: LayerView) -> bool {
    match (a, b) {
        (LayerView::Itself, LayerView::Itself) => true,
        (
            LayerView::Copy { params, application, n_applications },
            LayerView::Copy { params: its, application: at, n_applications: of },
        ) => params@ == its@ && application == at && n_applications == of,
        _ => false,
    }
}

/// Whether both pad the same rows, and put every row at the same place of its
/// slot.
pub open spec fn same_padding(a: Padding, b: Padding) -> bool {
    &&& a.batch() == b.batch()
    &&& forall|s: int| 0 <= s < a.batch() ==> #[trigger] a.pad(s) == b.pad(s)
    &&& forall|s: int| 0 <= s < a.batch() ==> #[trigger] a.local(s) == b.local(s)
}

/// The padding that a call is given decides its padding at every level.
proof fn lemma_paddings_agree(call: StackCall, a: Seq<Padding>, b: Seq<Padding>, j: int)
    requires
        stack::paddings_follow(call, a),
        stack::paddings_follow(call, b),
        a[0] == b[0],
        0 <= j < a.len(),
    ensures
        same_padding(a[j], b[j]),
        a[j].rows() == b[j].rows(),
        a[j].local_bs is None == b[j].local_bs is None,
    decreases j,
{
    if j > 0 {
        lemma_paddings_agree(call, a, b, j - 1);
        let plan = call.call(j - 1).plan();
        let marks = call.levels[j - 1];
        assert(a[j - 1].splices_to(plan, marks, a[j]));
        assert(b[j - 1].splices_to(plan, marks, b[j]));
        assert forall|s: int| 0 <= s < a[j].batch() implies #[trigger] a[j].pad(s) == b[j].pad(
            s,
        ) && a[j].local(s) == b[j].local(s) by {
            assert(a[j - 1].pad(s) == b[j - 1].pad(s));
            assert(a[j - 1].local(s) == b[j - 1].local(s));
            assert(a[j - 1].slot(plan, marks, s) == b[j - 1].slot(plan, marks, s));
            if a[j].local_bs is Some {
                assert(a[j].local(s) == a[j - 1].slot(plan, marks, s).spliced_local());
                assert(b[j].local(s) == b[j - 1].slot(plan, marks, s).spliced_local());
            }
        }
        assert forall|s: int| 0 <= s < a[j].batch() implies #[trigger] a[j].local(s) == b[j].local(
            s,
        ) by {
            assert(a[j].pad(s) == b[j].pad(s));
        }
    }
}

/// A horizon changes the graph, never the values: the same layers run the same
/// rows, with the same copies and the same residuals, as without one. The
/// cursors past the call and the padding of every level are the same too.
pub proof fn a_horizon_changes_only_the_graph(
    s: Layers,
    pass: StackPass,
    bare: StackPass,
    class: Option<Cursors>,
    rows: int,
    prime: bool,
    padding: Option<Padding>,
    on_autodiff: bool,
)
    requires
        s.is_call(pass, class, rows, prime, padding, on_autodiff),
        (Layers { grad_horizon: None, ..s }).is_call(
            bare,
            class,
            rows,
            prime,
            padding,
            on_autodiff,
        ),
    ensures
        splice::segment_rows(pass.segments@) == splice::segment_rows(bare.segments@),
        pass.rows == bare.rows,
        pass.passes@.len() == bare.passes@.len(),
        forall|i: int|
            0 <= i < pass.passes@.len() ==> runs_alike(
                #[trigger] pass.passes@[i],
                bare.passes@[i],
            ) && bare.passes@[i].boundary is Stay && bare.passes@[i].track,
        !bare.lift,
        class::cursors(pass.class) == class::cursors(bare.class),
        pass.paddings@.len() == bare.paddings@.len(),
        forall|j: int|
            0 <= j < pass.paddings@.len() ==> same_padding(
                #[trigger] pass.paddings@[j],
                bare.paddings@[j],
            ),
{
    let free = Layers { grad_horizon: None, ..s };
    let call = s.call(class, rows, prime);
    assert forall|j: int| free.level(j) == s.level(j) by {}
    assert(free.levels() =~= s.levels());
    assert(free.call(class, rows, prime) == call);
    assert forall|i: int| 0 <= i < pass.passes@.len() implies runs_alike(
        #[trigger] pass.passes@[i],
        bare.passes@[i],
    ) && bare.passes@[i].boundary is Stay && bare.passes@[i].track by {
        lemma_streams_agree(s, free, i);
        assert(s.is_layer_pass(pass.passes@[i], call, on_autodiff, i));
        assert(free.is_layer_pass(bare.passes@[i], call, on_autodiff, i));
    }
    if let (Some(a), Some(b)) = (pass.class, bare.class) {
        let n = s.count();
        assert(layers::cursor_offsets(a@, n)[0] == a@.stack);
        assert(layers::cursor_offsets(b@, n)[0] == b@.stack);
        assert forall|i: int| 0 <= i < n implies #[trigger] a@.per_layer[i]
            == b@.per_layer[i] by {
            assert(layers::cursor_offsets(a@, n)[i + 1] == a@.per_layer[i]);
            assert(layers::cursor_offsets(b@, n)[i + 1] == b@.per_layer[i]);
        }
        assert(a@.per_layer =~= b@.per_layer);
    }
    if padding is Some {
        assert forall|j: int| 0 <= j < pass.paddings@.len() implies same_padding(
            #[trigger] pass.paddings@[j],
            bare.paddings@[j],
        ) by {
            lemma_paddings_agree(call, pass.paddings@, bare.paddings@, j);
        }
    }
}

/// Whether both run the same layer, as the same application, over the same
/// rows, and do the same with its residual.
pub open spec fn runs_alike(a: LayerPass, b: LayerPass) -> bool {
    &&& a.layer == b.layer
    &&& a.application == b.application
    &&& same_view(a.view, b.view)
    &&& a.rows == b.rows
    &&& splice::segment_rows(a.segments@) == splice::segment_rows(b.segments@)
    &&& a.idle == b.idle
    &&& a.streams == b.streams
    &&& a.residual == b.residual
}

proof fn lemma_streams_agree(s: Layers, free: Layers, i: int)
    requires
        free == (Layers { grad_horizon: None, ..s }),
    ensures
        free.streams(i) == s.streams(i),
    decreases i,
{
    if i > 0 {
        lemma_streams_agree(s, free, i - 1);
    }
}

/// The residual streams that enter a layer never outgrow `n_stream`, and at
/// least one always enters.
pub proof fn streams_stay_within_bounds(s: Layers, i: int)
    requires
        s.residuals matches crate::modules::multi_gate::Residuals::MultiGate(mg) && mg.n_stream
            >= 1,
        0 <= i,
    ensures
        s.residuals matches crate::modules::multi_gate::Residuals::MultiGate(mg) && 1 <= s.streams(
            i,
        ) <= mg.n_stream,
    decreases i,
{
    if i > 0 {
        streams_stay_within_bounds(s, i - 1);
    }
}

} // verus!
