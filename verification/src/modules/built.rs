//! What the builders make, and what the calls of a network are made of.
use crate::modules::bidi::{BidiLayersBuilder, BidiStackShape};
use crate::modules::block::BlockConfig;
use crate::modules::builder::{LayersBuilder, StackShape};
use crate::modules::layer;
use crate::modules::layer::{LayerShape, LayerUntied};
use crate::modules::layers;
use crate::modules::mlp::GatedMlpConfig;
use crate::modules::network;
use crate::modules::network::{LatentNetwork, VocabNetworkBuilder};
use crate::modules::shape::{BidiShape, NetworkShape, VocabShape};
use crate::modules::stack;
use crate::modules::stack::StackCall;
use crate::utils::class;
use crate::utils::class::Cursors;
use crate::utils::schedule::Applications;
use vstd::prelude::*;

verus! {

/// The gain of a pre-norm is as long as the rows are wide, and holds that once per
/// application where it is untied. The feed-forward is laid out as its config says, and
/// brings the second pre-norm.
pub proof fn a_layer_is_built_for_its_applications(
    shape: LayerShape,
    d_model: int,
    mlp: Option<GatedMlpConfig>,
    untied: Seq<LayerUntied>,
    n_applications: int,
)
    requires
        layer::is_layer_shape(shape, d_model, mlp, untied, n_applications),
    ensures
        shape.n_applications == n_applications,
        shape.untied@ == untied,
        shape.norm == (if untied.contains(LayerUntied::Norm) {
            d_model * n_applications
        } else {
            d_model
        }),
        mlp is None ==> shape.norm2 is None && shape.mlp is None,
        mlp matches Some(m) ==> {
            &&& shape.norm2 matches Some(len) && len == (if untied.contains(LayerUntied::Norm2) {
                d_model * n_applications
            } else {
                d_model
            })
            &&& shape.mlp matches Some(built) && {
                &&& built.fc1.d_input == m.d_model
                &&& built.fc1.d_output == 2 * m.spec_hidden()
                &&& built.fc2.d_input == m.spec_hidden()
                &&& built.fc2.d_output == m.d_model
                &&& built.fc1.has_bias == m.has_proj_bias
                &&& built.fc2.has_bias == m.has_proj_bias
            }
        },
{
}

/// Which layers can be built: the second pre-norm is untied only beside a feed-forward,
/// which has a width, and an untied gain holds at least one copy.
pub proof fn a_layer_can_be_built(
    d_model: int,
    mlp: Option<GatedMlpConfig>,
    untied: Seq<LayerUntied>,
    n_applications: int,
)
    ensures
        untied.len() == 0 && mlp is None ==> layer::buildable(d_model, mlp, untied, n_applications),
        mlp is None && untied.contains(LayerUntied::Norm2) ==> !layer::buildable(
            d_model,
            mlp,
            untied,
            n_applications,
        ),
        (mlp matches Some(m) && !(m.multiple_of > 0 && 2 * m.spec_hidden() <= usize::MAX
            && m.spec_hidden() <= usize::MAX)) ==> !layer::buildable(
            d_model,
            mlp,
            untied,
            n_applications,
        ),
        (mlp matches Some(m) && m.multiple_of > 0 && 2 * m.spec_hidden() <= usize::MAX
            && m.spec_hidden() <= usize::MAX) && n_applications >= 1 && d_model * n_applications
            <= usize::MAX ==> layer::buildable(d_model, mlp, untied, n_applications),
        untied.len() > 0 && (n_applications < 1 || d_model * n_applications > usize::MAX)
            ==> !layer::buildable(d_model, mlp, untied, n_applications),
        mlp is None && !untied.contains(LayerUntied::Norm2) && n_applications >= 1 && d_model
            * n_applications <= usize::MAX ==> layer::buildable(
            d_model,
            mlp,
            untied,
            n_applications,
        ),
{
}

/// A stack is built with its real layers, each for as many applications as virtual
/// layers run it, with the residuals of its size, and with one embedding per class
/// latent.
pub proof fn a_stack_is_built_for_its_schedule<C: BlockConfig>(
    b: LayersBuilder<C>,
    shape: StackShape,
    apps: Applications,
    r: int,
)
    requires
        b.is_shape(shape),
        match b.n_virtual_layers {
            Some((n, s)) => apps.counts(
                crate::utils::schedule::virtual_reals(Some(s), n as int, b.n_real_layers as int),
                b.n_real_layers as int,
            ),
            None => apps.counts(
                crate::utils::schedule::virtual_reals(
                    None,
                    b.n_real_layers as int,
                    b.n_real_layers as int,
                ),
                b.n_real_layers as int,
            ),
        },
        0 <= r < b.n_real_layers,
    ensures
        shape.real_layers@.len() == b.n_real_layers,
        layer::is_layer_shape(
            shape.real_layers@[r],
            b.block.width() as int,
            b.mlp,
            b.untied@,
            apps.count@[r] as int,
        ),
        shape.residuals == b.residuals.spec_init(
            b.n_real_layers,
            match b.n_virtual_layers {
                Some((n, _)) => n,
                None => b.n_real_layers,
            },
        ),
        b.class_latents@.len() == 0 ==> shape.class_latents_emb is None,
        b.class_latents@.len() > 0 ==> (shape.class_latents_emb matches Some(dims) && dims[0]
            == b.class_latents@.len() && dims[1] == b.block.width()),
{
    assert(apps.count@[r] == b.applications(r));
}

/// Which stacks can be built: those whose schedule runs, and whose layers can be built
/// for their applications.
pub proof fn a_stack_can_be_built<C: BlockConfig>(
    b: LayersBuilder<C>,
    apps: Applications,
    r: int,
)
    requires
        apps.counts(b.reals(), b.n_real_layers as int),
        0 <= r < b.n_real_layers,
    ensures
        b.builds() ==> (b.n_virtual_layers matches Some((n, s)) ==> s.covers(
            n as int,
            b.n_real_layers as int,
        )),
        b.builds() ==> layer::buildable(
            b.block.width() as int,
            b.mlp,
            b.untied@,
            apps.count@[r] as int,
        ),
        (b.n_virtual_layers matches Some((n, s)) ==> s.covers(n as int, b.n_real_layers as int))
            && (forall|q: int|
            0 <= q < b.n_real_layers ==> layer::buildable(
                b.block.width() as int,
                b.mlp,
                b.untied@,
                #[trigger] apps.count@[q] as int,
            )) ==> b.builds(),
{
    assert forall|q: int| 0 <= q < b.n_real_layers implies #[trigger] b.applications(q)
        == apps.count@[q] by {}
    assert(b.applications(r) == apps.count@[r]);
}

/// A bidirectional stack is built with its real layers, without a feed-forward, with the
/// residuals of its pairs, and with one merge per real pair.
pub proof fn a_bidi_stack_is_built_for_its_pairs<C: BlockConfig>(
    b: BidiLayersBuilder<C>,
    shape: BidiStackShape,
    apps: Applications,
    r: int,
)
    requires
        b.is_shape(shape),
        match b.n_virtual_layers {
            Some((n, s)) => apps.counts(
                crate::utils::schedule::bidi_virtual_reals(
                    Some(s),
                    n as int,
                    b.n_real_layers as int,
                ),
                b.n_real_layers as int,
            ),
            None => apps.counts(
                crate::utils::schedule::bidi_virtual_reals(
                    None,
                    b.n_real_layers as int,
                    b.n_real_layers as int,
                ),
                b.n_real_layers as int,
            ),
        },
        0 <= r < b.n_real_layers,
    ensures
        shape.stack.real_layers@.len() == b.n_real_layers,
        layer::is_layer_shape(
            shape.stack.real_layers@[r],
            b.block.width() as int,
            None,
            b.untied@,
            apps.count@[r] as int,
        ),
        shape.stack.residuals == b.residuals.spec_init(
            (b.n_real_layers as int / 2) as usize,
            match b.n_virtual_layers {
                Some((n, _)) => (n as int / 2) as usize,
                None => (b.n_real_layers as int / 2) as usize,
            },
        ),
        shape.outputs_merge@.len() == b.n_real_layers as int / 2,
        r < b.n_real_layers as int / 2 ==> shape.outputs_merge@[r] == b.outputs_merge@[r].spec_init(
            b.block.width(),
        ),
        b.class_latents@.len() == 0 ==> shape.stack.class_latents_emb is None,
        b.class_latents@.len() > 0 ==> (shape.stack.class_latents_emb matches Some(dims) && dims[0]
            == b.class_latents@.len() && dims[1] == b.block.width()),
{
    assert(apps.count@[r] == b.applications(r));
}

/// Which bidirectional stacks can be built: those whose schedule runs, whose layers can
/// be built for their applications, and that have a merge per real pair.
pub proof fn a_bidi_stack_can_be_built<C: BlockConfig>(
    b: BidiLayersBuilder<C>,
    apps: Applications,
    r: int,
)
    requires
        apps.counts(b.reals(), b.n_real_layers as int),
        0 <= r < b.n_real_layers,
    ensures
        b.builds() ==> (b.n_virtual_layers matches Some((n, s)) ==> s.covers(
            n as int,
            b.n_real_layers as int,
        )),
        b.builds() ==> layer::buildable(
            b.block.width() as int,
            None,
            b.untied@,
            apps.count@[r] as int,
        ),
        b.builds() ==> b.n_real_layers as int / 2 <= b.outputs_merge@.len(),
        (b.n_virtual_layers matches Some((n, s)) ==> s.covers(n as int, b.n_real_layers as int))
            && (forall|q: int|
            0 <= q < b.n_real_layers ==> layer::buildable(
                b.block.width() as int,
                None,
                b.untied@,
                #[trigger] apps.count@[q] as int,
            )) && b.n_real_layers as int / 2 <= b.outputs_merge@.len() && 2 * b.block.width()
            <= usize::MAX ==> b.builds(),
{
    assert forall|q: int| 0 <= q < b.n_real_layers implies #[trigger] b.applications(q)
        == apps.count@[q] by {}
    assert(b.applications(r) == apps.count@[r]);
}

/// A shape hands its stack to the builder as it stands.
pub proof fn a_shape_builds_the_stack_it_describes<C: BlockConfig>(
    shape: NetworkShape,
    block: C,
    b: LayersBuilder<C>,
)
    requires
        b.alike(shape.spec_layers(block)),
    ensures
        b.n_real_layers == shape.n_real_layers,
        b.block == block,
        b.ignore_first_residual == shape.ignore_first_residual,
        b.ignore_last_residual == shape.ignore_last_residual,
        b.class_latents@ == shape.class_latents@,
        b.residuals == shape.residuals,
        b.mlp == shape.mlp,
        b.untied@ == shape.untied@,
        match (b.n_virtual_layers, shape.n_virtual_layers) {
            (Some((n, s)), Some((m, t))) => n == m && s.same(t),
            (None, None) => true,
            _ => false,
        },
        match (b.grad_horizon, shape.grad_horizon) {
            (Some(g), Some(h)) => g.same(h),
            (None, None) => true,
            _ => false,
        },
{
}

/// A bidirectional shape hands its stack to the builder as it stands.
pub proof fn a_bidi_shape_builds_the_stack_it_describes<C: BlockConfig>(
    shape: BidiShape,
    block: C,
    b: BidiLayersBuilder<C>,
)
    requires
        b.alike(shape.spec_build(block)),
    ensures
        b.n_real_layers == shape.n_real_layers,
        b.block == block,
        b.ignore_first_residual == shape.ignore_first_residual,
        b.ignore_last_residual == shape.ignore_last_residual,
        b.outputs_merge@ == shape.outputs_merge@,
        b.class_latents@ == shape.class_latents@,
        b.residuals == shape.residuals,
        b.untied@ == shape.untied@,
        match (b.n_virtual_layers, shape.n_virtual_layers) {
            (Some((n, s)), Some((m, t))) => n == m && s.same(t),
            (None, None) => true,
            _ => false,
        },
{
}

/// Two schedules are the same where they are of one kind, and say the same.
pub proof fn the_same_schedules_map_alike(
    a: crate::utils::schedule::Schedule,
    b: crate::utils::schedule::Schedule,
    v: int,
    virtual_len: int,
    real_len: int,
)
    requires
        a.same(b),
    ensures
        a.spec_real_idx(v, virtual_len, real_len) == b.spec_real_idx(v, virtual_len, real_len),
        a is Cyclic == b is Cyclic,
        a is Stretched == b is Stretched,
        a is Custom ==> a->Custom_0@ == b->Custom_0@,
{
}

/// Two bidirectional schedules are the same where they are of one kind, and say the
/// same.
pub proof fn the_same_bidi_schedules_map_alike(
    a: crate::utils::schedule::BidiSchedule,
    b: crate::utils::schedule::BidiSchedule,
    v: int,
    virtual_len: int,
    real_len: int,
)
    requires
        a.same(b),
    ensures
        a.spec_real_idx(v, virtual_len, real_len) == b.spec_real_idx(v, virtual_len, real_len),
        a is StridedCyclic == b is StridedCyclic,
        a is StridedStretched == b is StridedStretched,
        a is SymmetricCyclic == b is SymmetricCyclic,
        a is SymmetricStretched == b is SymmetricStretched,
        a is Custom ==> a->Custom_0@ == b->Custom_0@,
{
}

/// The same horizons track alike.
pub proof fn the_same_horizons_track_alike(
    a: crate::utils::schedule::GradHorizon,
    b: crate::utils::schedule::GradHorizon,
    reals: Seq<int>,
    i: int,
)
    requires
        a.same(b),
    ensures
        a.tracks(reals, i) == b.tracks(reals, i),
        a is Depth ==> b is Depth && a->Depth_0 == b->Depth_0,
        a is Mask ==> b is Mask && a->Mask_0@ == b->Mask_0@,
{
}

/// A stack has a residual branch for the mixer of every layer that it applies, and a
/// second one for its feed-forward.
pub proof fn a_feed_forward_adds_a_branch(shape: NetworkShape)
    ensures
        shape.mlp is None ==> shape.branches() == 1,
        shape.mlp is Some ==> shape.branches() == 2,
        shape.n_virtual_layers is None ==> shape.depth() == shape.n_real_layers,
        shape.n_virtual_layers matches Some((n, _)) ==> shape.depth() == n,
{
}

/// A vocabulary is padded to the least multiple that holds it.
pub proof fn a_vocabulary_is_padded_to_a_multiple<C: BlockConfig>(b: VocabNetworkBuilder<C>)
    requires
        b.pad_vocab_size_multiple > 0,
    ensures
        b.vocab() % b.pad_vocab_size_multiple as int == 0,
        b.vocab_size <= b.vocab() < b.vocab_size + b.pad_vocab_size_multiple,
        b.vocab_size == 0 ==> b.vocab() == 0,
        b.builds() == (b.layers.builds() && b.vocab() <= usize::MAX),
{
    if b.vocab_size > 0 {
        crate::modules::mlp::rounded_up_is_the_least_multiple(
            b.vocab_size as int,
            b.pad_vocab_size_multiple as int,
        );
    } else {
        vstd::arithmetic::div_mod::lemma_small_mod(0, b.pad_vocab_size_multiple as nat);
    }
}

/// A shape builds the vocabulary that it describes.
pub proof fn a_vocab_shape_builds_what_it_describes<C: BlockConfig>(shape: VocabShape, block: C)
    ensures
        ({
            let b = shape.spec_build(block);
            &&& b.vocab_size == shape.vocab_size
            &&& b.pad_vocab_size_multiple == shape.pad_vocab_size_multiple
            &&& b.missing_lm_head == shape.missing_lm_head
            &&& b.layers == shape.stack.spec_layers(block)
        }),
{
}

/// The hidden width of a feed-forward is the least multiple that holds what it asks for.
pub proof fn a_hidden_width_is_a_multiple(mlp: GatedMlpConfig)
    requires
        mlp.multiple_of > 0,
    ensures
        mlp.spec_hidden() % mlp.multiple_of as int == 0,
        mlp.d_intermediate <= mlp.spec_hidden() < mlp.d_intermediate + mlp.multiple_of,
        mlp.has_hidden() == (mlp.spec_hidden() <= usize::MAX),
        mlp.inits() == (2 * mlp.spec_hidden() <= usize::MAX),
{
    crate::modules::mlp::rounded_up_is_the_least_multiple(
        mlp.d_intermediate as int,
        mlp.multiple_of as int,
    );
}

/// A call of a network splices its class tokens first, from its own cursor. The stack
/// runs what comes out, from the cursors of the stack, against the longer sequence.
pub proof fn a_network_splices_its_tokens_first(
    net: LatentNetwork,
    class: Cursors,
    rows: int,
    prime: bool,
)
    requires
        0 <= net.layers.count(),
    ensures
        ({
            let call = net.call(class, rows, prime);
            let first = call.call(0);
            let longer = Cursors {
                full_len: class::machine_len(
                    class::grown(class::marks(net.class_tokens@), class.full_len),
                ),
                ..class
            };
            &&& call.levels.len() == net.layers.count() + 2
            &&& first.marks == class::marks(net.class_tokens@)
            &&& first.full_len == class.full_len
            &&& first.offset == class.network
            &&& first.chunk == rows
            &&& first.prime == prime
            &&& stack::above(call) == net.layers.call(
                Some(longer),
                rows + first.plan().len(),
                prime,
            )
        }),
{
    let call = net.call(class, rows, prime);
    let longer = Cursors {
        full_len: class::machine_len(
            class::grown(class::marks(net.class_tokens@), class.full_len),
        ),
        ..class
    };
    reveal_with_fuel(StackCall::full_at, 2);
    reveal_with_fuel(StackCall::rows_at, 2);
    assert(call.levels.skip(1) =~= net.layers.levels());
    assert(call.offsets.skip(1) =~= layers::cursor_offsets(class, net.layers.count()));
    assert(layers::cursor_offsets(class, net.layers.count()) == layers::cursor_offsets(
        longer,
        net.layers.count(),
    ));
}

/// The cursors past a call of a network have moved at every level: that of the network by
/// what it put out, and those of the stack as the stack moves them.
pub proof fn a_network_moves_every_cursor(
    net: LatentNetwork,
    next: Cursors,
    class: Cursors,
    rows: int,
    prime: bool,
    i: int,
)
    requires
        net.are_past(next, class, net.call(class, rows, prime)),
        0 <= i < net.layers.count(),
    ensures
        ({
            let call = net.call(class, rows, prime);
            &&& next.full_len == class.full_len
            &&& next.per_layer.len() == net.layers.count()
            &&& next.network == class.network + rows + call.call(0).plan().len()
            &&& next.stack == call.call(1).next_offset()
            &&& next.per_layer[i] == call.call(i + 2).next_offset()
        }),
{
    let call = net.call(class, rows, prime);
    let offsets = net.call(next, 0, false).offsets;
    assert(offsets[0] == call.next_offsets()[0]);
    assert(offsets[1] == call.next_offsets()[1]);
    assert(offsets[i + 2] == call.next_offsets()[i + 2]);
}

/// A step of a network runs the stack once for each row that its class tokens make of
/// the token, one after another: each step carries one row, from where the one before
/// it stopped.
pub proof fn steps_follow_one_another(a: StackCall, n: int)
    requires
        0 <= n,
    ensures
        stack::stepped(a, 0).offsets == a.offsets,
        stack::stepped(a, n + 1).offsets == stack::stepped(a, n).next_offsets(),
        stack::stepped(a, n).rows == 1,
        !stack::stepped(a, n).prime,
        stack::stepped(a, n).levels == a.levels,
        stack::stepped(a, n).full_len == a.full_len,
    decreases n,
{
    if n > 0 {
        steps_follow_one_another(a, n - 1);
    }
}

/// A prime of a network steps the stack for each class token that waits, and then primes
/// it from where the last of these stopped.
pub proof fn a_network_prime_steps_its_tokens_first(call: StackCall)
    requires
        0 <= call.rows_at(1),
    ensures
        ({
            let up = stack::above(call);
            let steps = network::opening(call);
            let mid = network::primed(call);
            &&& steps.levels == up.levels
            &&& steps.offsets == up.offsets
            &&& steps.full_len == up.full_len
            &&& steps.rows == up.rows
            &&& !steps.prime
            &&& mid.levels == up.levels
            &&& mid.full_len == up.full_len
            &&& mid.rows == 0
            &&& mid.prime
            &&& mid.offsets == stack::stepped(up, call.rows_at(1)).offsets
            &&& up.rows == call.rows_at(1)
        }),
{
    steps_follow_one_another(stack::above(call), call.rows_at(1));
}

} // verus!
