//! Which stacks and which calls can run.
use crate::modules::bidi::BidiLayers;
use crate::modules::layer::{Layer, LayerUntied};
use crate::modules::layers::Layers;
use crate::modules::multi_gate::Residuals;
use crate::modules::network;
use crate::modules::network::LatentNetwork;
use crate::modules::stack;
use crate::modules::stack::StackCall;
use crate::utils::class;
use crate::utils::class::laws as placement;
use crate::utils::class::{ClassLatent, Cursors, Marker, Placement};
use crate::utils::padding::Padding;
use crate::utils::schedule::{Applications, GradHorizon, Schedule};
use crate::utils::untied::UntiedParam;
use vstd::prelude::*;

verus! {

/// The untied parameters of a layer: its untied pre-norms in order, along their only
/// axis, then those of its block.
pub proof fn a_layer_lists_its_norms_then_its_block(layer: Layer, i: int)
    requires
        0 <= i < layer.untied@.len() + layer.block_untied@.len(),
    ensures
        ({
            let params = layer.spec_untied_params();
            let norms = layer.untied@.len() as int;
            &&& params.len() == norms + layer.block_untied@.len()
            &&& i >= norms ==> params[i] == layer.block_untied@[i - norms]
            &&& i < norms && layer.untied@[i] is Norm ==> params[i] == (UntiedParam {
                id: layer.norm,
                axis: 0,
            })
            &&& i < norms && layer.untied@[i] is Norm2 && layer.norm2 is Some ==> params[i] == (
            UntiedParam { id: layer.norm2->Some_0, axis: 0 })
        }),
{
}

/// A layer differs between its applications where it unties something and holds more
/// than one copy. It has a copy for every application where it does not, and else for
/// as many as it was built for.
pub proof fn a_layer_has_a_copy_per_application(layer: Layer, application: int)
    requires
        0 <= application,
    ensures
        ({
            let untied = layer.untied@.len() + layer.block_untied@.len();
            &&& layer.spec_has_untied() == (untied > 0 && layer.n_applications > 1)
            &&& untied == 0 || layer.n_applications == 1 ==> layer.has_application(application)
            &&& untied > 0 && layer.n_applications != 1 ==> layer.has_application(application) == (
            application < layer.n_applications)
        }),
        layer.wf() == !(layer.norm2 is None && exists|i: int|
            0 <= i < layer.untied@.len() && (#[trigger] layer.untied@[i]) is Norm2),
{
    let untied = layer.untied@;
    if exists|i: int| 0 <= i < untied.len() && (#[trigger] untied[i]) is Norm2 {
        let i = choose|i: int| 0 <= i < untied.len() && (#[trigger] untied[i]) is Norm2;
        assert(untied[i] == LayerUntied::Norm2);
        assert(untied.contains(LayerUntied::Norm2));
    }
    if untied.contains(LayerUntied::Norm2) {
        let i = untied.index_of(LayerUntied::Norm2);
        assert(untied[i] is Norm2);
    }
}

/// A stack is valid where it has its real layers, each virtual layer runs one of them,
/// on a copy that exists, and every layer that pools has a module.
pub proof fn a_stack_with_all_its_parts_is_valid(s: Layers, apps: Applications)
    requires
        apps.counts(s.reals(), s.n_real_layers as int),
        1 <= s.n_real_layers,
        s.real_layers@.len() == s.n_real_layers,
        match s.n_virtual_layers {
            Some((n, schedule)) => n < usize::MAX && schedule.covers(
                n as int,
                s.n_real_layers as int,
            ),
            None => s.n_real_layers < usize::MAX,
        },
        forall|r: int| 0 <= r < s.real_layers@.len() ==> (#[trigger] s.real_layers@[r]).wf(),
        forall|i: int|
            0 <= i < s.reals().len() ==> s.real_layers@[#[trigger] s.reals()[i]].has_application(
                apps.index@[i] as int,
            ),
        s.residuals matches Residuals::MultiGate(mg) ==> {
            &&& mg.n_stream >= 1
            &&& mg.per_virtual ==> mg.n_modules >= s.reals().len()
            &&& !mg.per_virtual ==> mg.n_modules >= s.n_real_layers
        },
    ensures
        s.wf(),
{
    assert forall|i: int| 0 <= i < s.count() implies s.real_layers@[#[trigger] s.reals()[i]].has_application(
        s.application(i)) by {
        assert(apps.index@[i] == s.application(i));
    }
    assert forall|i: int| 0 <= i < s.count() implies #[trigger] s.mixes(i) by {
        if let Some(schedule) = s.schedule() {
            assert(schedule.lands(i, s.count(), s.n_real_layers as int));
        }
    }
}

/// What a valid stack has: its real layers, a real layer for each virtual one, and a copy
/// of it to read, and a module where it pools.
pub proof fn a_valid_stack_has_all_its_parts(s: Layers, apps: Applications, i: int)
    requires
        s.wf(),
        apps.counts(s.reals(), s.n_real_layers as int),
        0 <= i < s.reals().len(),
    ensures
        1 <= s.n_real_layers,
        s.real_layers@.len() == s.n_real_layers,
        0 <= s.reals()[i] < s.n_real_layers,
        s.real_layers@[s.reals()[i]].wf(),
        s.real_layers@[s.reals()[i]].has_application(apps.index@[i] as int),
        s.residuals matches Residuals::MultiGate(mg) ==> {
            &&& mg.n_stream >= 1
            &&& !(s.ignore_first_residual && i == 0) && !(s.ignore_last_residual && i
                == s.reals().len() - 1) ==> (if mg.per_virtual {
                i < mg.n_modules
            } else {
                s.reals()[i] < mg.n_modules
            })
        },
{
    s.lemma_real_in_range(i);
    assert(s.mixes(i));
    assert(apps.index@[i] == s.application(i));
}

/// Which stacks a horizon can cut. Off the autodiff backend and without one, all. A mask
/// needs a flag for each virtual layer, and a depth a schedule that is no map. No layer
/// outside the graph may differ between its applications.
pub proof fn a_horizon_cuts_what_it_resolves(s: Layers, i: int)
    requires
        s.wf(),
        0 <= i < s.reals().len(),
    ensures
        s.cuts(false),
        s.grad_horizon is None ==> s.cuts(true),
        s.grad_horizon matches Some(GradHorizon::Mask(mask)) ==> {
            &&& s.cuts(true) ==> mask@.len() == s.reals().len() && (mask@[i]
                || !s.real_layers@[s.reals()[i]].spec_has_untied())
            &&& mask@.len() == s.reals().len() && (forall|r: int|
                0 <= r < s.real_layers@.len()
                    ==> !(#[trigger] s.real_layers@[r]).spec_has_untied()) ==> s.cuts(true)
        },
        s.grad_horizon matches Some(GradHorizon::Depth(_)) ==> {
            &&& s.cuts(true) ==> !(s.n_virtual_layers matches Some((_, Schedule::Custom(_))))
            &&& !(s.n_virtual_layers matches Some((_, Schedule::Custom(_)))) && (forall|r: int|
                0 <= r < s.real_layers@.len()
                    ==> !(#[trigger] s.real_layers@[r]).spec_has_untied()) ==> s.cuts(true)
        },
{
    if let Some(h) = s.grad_horizon {
        assert(s.tracks(true, i) == h.tracks(s.reals(), i));
    }
    assert forall|v: int| 0 <= v < s.count() implies 0 <= #[trigger] s.reals()[v]
        < s.real_layers@.len() by {
        s.lemma_real_in_range(v);
    }
    if forall|r: int| 0 <= r < s.real_layers@.len()
        ==> !(#[trigger] s.real_layers@[r]).spec_has_untied() {
        assert forall|v: int| 0 <= v < s.count() && !(#[trigger] s.tracks(true, v)) implies !s.real_layers@[
        s.reals()[v]].spec_has_untied() by {
            assert(0 <= s.reals()[v] < s.real_layers@.len());
        }
    }
}

/// Which calls can be placed. A `Middle` and an `End` need the announced length. Beyond
/// that, only the machine integers bound a call: there is room where the length and the
/// rows so far leave it for every marker.
pub proof fn a_call_with_room_can_be_placed(a: Placement, i: int)
    requires
        0 <= a.offset,
        0 <= a.chunk,
    ensures
        a.full_len is None && 0 <= i < a.marks.len() && (a.marks[i] is Middle || a.marks[i] is End)
            ==> !a.fits(),
        a.full_len matches Some(len) && len + a.marks.len() <= usize::MAX && a.offset + a.chunk
            + a.marks.len() <= usize::MAX ==> a.fits(),
        a.full_len is None && (forall|j: int|
            0 <= j < a.marks.len() ==> ((#[trigger] a.marks[j]) is Start || (
            a.marks[j] matches Marker::Custom(k) && k + a.marks.len() <= usize::MAX))) && a.offset
            + a.chunk + a.marks.len() <= usize::MAX ==> a.fits(),
        a.fits() ==> a.offset + a.chunk + a.plan().len() <= usize::MAX,
{
    placement::plan_names_places(a);
    if a.full_len is None && 0 <= i < a.marks.len() && (a.marks[i] is Middle || a.marks[i] is End) {
        assert(a.marks[i].is_relative());
    }
    if a.full_len is None && a.offset + a.chunk + a.marks.len() <= usize::MAX && (forall|j: int|
        0 <= j < a.marks.len() ==> ((#[trigger] a.marks[j]) is Start || (a.marks[j] matches Marker::Custom(
            k,
        ) && k + a.marks.len() <= usize::MAX))) {
        assert forall|j: int| 0 <= j < a.marks.len() implies (#[trigger] a.marks[j]).depth(a.len())
            + a.marks.len() <= usize::MAX && !a.marks[j].is_relative() by {
            assert(a.marks[j] is Start || a.marks[j] is Custom);
        }
    }
}

/// A padded batch can follow a call that emits no `Middle`, and one that covers the whole
/// sequence of its level. It can follow no other.
pub proof fn a_padded_middle_needs_the_whole_sequence(a: Placement, i: int)
    requires
        0 <= i < a.plan().len(),
    ensures
        a.offset == 0 && a.full_len == Some(a.chunk as usize) && 0 <= a.chunk <= usize::MAX
            ==> stack::middles_fit(a),
        a.marks[a.plan()[i].1] is Middle && (a.offset != 0 || a.full_len is None || (
        a.full_len matches Some(len) && len != a.chunk)) ==> !stack::middles_fit(a),
        (forall|j: int|
            0 <= j < a.plan().len() ==> !(a.marks[(#[trigger] a.plan()[j]).1] is Middle))
            ==> stack::middles_fit(a),
{
}

/// The levels of a call nest: the rows that a level puts out enter the next, and the
/// length that it announces grows by the markers that land.
pub proof fn levels_nest(a: StackCall, j: int)
    requires
        0 <= j < a.levels.len(),
    ensures
        a.rows_at(0) == a.rows,
        a.full_at(0) == a.full_len,
        a.call(j).marks == a.levels[j],
        a.call(j).offset == a.offsets[j],
        a.call(j).chunk == a.rows_at(j),
        a.call(j).full_len == a.full_at(j),
        a.call(j).prime == a.prime,
        a.rows_at(j + 1) == a.rows_at(j) + a.call(j).plan().len(),
        a.full_at(j + 1) == class::machine_len(class::grown(a.levels[j], a.full_at(j))),
        a.next_offsets()[j] == a.offsets[j] + a.rows_at(j) + a.call(j).plan().len(),
        a.rows_out() == a.rows_at(a.levels.len() as int),
{
}

/// Which calls can run through all the levels: those that can be placed at each, with
/// the length that it hands up within the machine integers.
pub proof fn a_call_fits_level_by_level(a: StackCall)
    ensures
        a.fits() == (a.offsets.len() == a.levels.len() && forall|j: int|
            0 <= j < a.levels.len() ==> (#[trigger] a.call(j)).fits() && (
            a.full_at(j) matches Some(len) ==> len + class::landed(a.levels[j], len as int)
                <= usize::MAX)),
{
    if a.fits() {
        assert forall|j: int| 0 <= j < a.levels.len() implies (#[trigger] a.call(j)).fits() && (
        a.full_at(j) matches Some(len) ==> len + class::landed(a.levels[j], len as int)
            <= usize::MAX) by {
            assert(a.level_fits(j));
        }
    }
    if a.offsets.len() == a.levels.len() && forall|j: int|
        0 <= j < a.levels.len() ==> (#[trigger] a.call(j)).fits() && (
        a.full_at(j) matches Some(len) ==> len + class::landed(a.levels[j], len as int)
            <= usize::MAX) {
        assert forall|j: int| 0 <= j < a.levels.len() implies #[trigger] a.level_fits(j) by {
            assert(a.call(j).fits());
        }
    }
}

/// A bidirectional stack is valid where it has its real layers, its virtual layers come
/// in pairs, each runs a real layer on a copy that exists, and every pair has a merge
/// and, where it pools, a module.
pub proof fn a_bidi_stack_with_all_its_parts_is_valid(s: BidiLayers, apps: Applications)
    requires
        apps.counts(s.reals(), s.n_real_layers as int),
        s.real_layers@.len() == s.n_real_layers,
        match s.n_virtual_layers {
            Some((n, schedule)) => n % 2 == 0 && schedule.covers(
                n as int,
                s.n_real_layers as int,
            ),
            None => s.n_real_layers % 2 == 0,
        },
        forall|r: int| 0 <= r < s.real_layers@.len() ==> (#[trigger] s.real_layers@[r]).wf(),
        forall|v: int|
            0 <= v < s.reals().len() ==> s.real_layers@[#[trigger] s.reals()[v]].has_application(
                apps.index@[v] as int,
            ),
        s.outputs_merge@.len() >= (s.n_real_layers + 1) / 2,
        s.residuals matches Residuals::MultiGate(mg) ==> {
            &&& mg.n_stream >= 1
            &&& mg.per_virtual ==> mg.n_modules >= s.reals().len() / 2
            &&& !mg.per_virtual ==> mg.n_modules >= (s.n_real_layers + 1) / 2
        },
    ensures
        s.wf(),
{
    assert forall|v: int| 0 <= v < s.count() implies s.real_layers@[#[trigger] s.reals()[v]].has_application(
        s.application(v)) by {
        assert(apps.index@[v] == s.application(v));
    }
    assert forall|i: int| 0 <= i < s.count() / 2 implies #[trigger] s.has_parts(i) by {
        if let Some(schedule) = s.schedule() {
            assert(schedule.lands(2 * i, s.count(), s.n_real_layers as int));
        }
    }
}

/// What a valid bidirectional stack has: virtual layers in pairs, and for each pair a
/// merge, a copy of each real layer that it runs, and a module where it pools.
pub proof fn a_valid_bidi_stack_has_all_its_parts(s: BidiLayers, apps: Applications, v: int)
    requires
        s.wf(),
        apps.counts(s.reals(), s.n_real_layers as int),
        0 <= v < s.reals().len(),
    ensures
        s.real_layers@.len() == s.n_real_layers,
        s.reals().len() % 2 == 0,
        0 <= s.reals()[v] < s.n_real_layers,
        s.real_layers@[s.reals()[v]].wf(),
        s.real_layers@[s.reals()[v]].has_application(apps.index@[v] as int),
        v % 2 == 0 ==> s.reals()[v] / 2 < s.outputs_merge@.len(),
        s.residuals matches Residuals::MultiGate(mg) ==> {
            &&& mg.n_stream >= 1
            &&& v % 2 == 0 && !(s.ignore_first_residual && v == 0) && !(s.ignore_last_residual && v
                == s.reals().len() - 2) ==> (if mg.per_virtual {
                v / 2 < mg.n_modules
            } else {
                s.reals()[v] / 2 < mg.n_modules
            })
        },
{
    assert(s.has_parts(v / 2));
    if let Some(schedule) = s.schedule() {
        assert(schedule.lands(v, s.count(), s.n_real_layers as int));
    }
    assert(apps.index@[v] == s.application(v));
    assert(s.reals()[v] == s.reals()[v]);
}

/// Cursors stand where they say: the stack at its own, each virtual layer at its own, and
/// at the start where none is given.
pub proof fn cursors_stand_where_they_say(class: Cursors, n: int, i: int)
    requires
        0 <= i < n,
        class.per_layer.len() == 0 || class.per_layer.len() == n,
    ensures
        ({
            let offsets = crate::modules::layers::cursor_offsets(class, n);
            &&& offsets.len() == n + 1
            &&& offsets[0] == class.stack
            &&& class.per_layer.len() == 0 ==> offsets[i + 1] == 0
            &&& class.per_layer.len() > 0 ==> offsets[i + 1] == class.per_layer[i]
        }),
{
}

/// A call of a stack runs where the stack is valid and can be cut, and the call can be
/// placed at every level, from cursors of its size. A padded batch has the rows of the
/// call, and follows it at every level.
pub proof fn a_stack_runs_what_it_can_place(
    s: Layers,
    c: Cursors,
    rows: int,
    prime: bool,
    p: Padding,
    on_autodiff: bool,
)
    ensures
        ({
            let call = s.call(Some(c), rows, prime);
            let plain = s.wf() && s.cuts(on_autodiff) && call.fits() && (c.per_layer.len() == 0
                || c.per_layer.len() == s.count());
            &&& s.runs(Some(c), rows, prime, None, on_autodiff) == plain
            &&& s.runs(Some(c), rows, prime, Some(p), on_autodiff) == (plain && p.wf() && p.batch()
                > 0 && p.rows() == rows && forall|j: int|
                0 <= j < call.levels.len() ==> stack::middles_fit(#[trigger] call.call(j)))
        }),
{
}

/// Without cursors nothing is spliced, so a call runs where the stack is valid and can be
/// cut, and none of the latents that it leaves out needs the length of the sequence.
pub proof fn a_stack_without_cursors_runs_where_no_latent_needs_the_length(
    s: Layers,
    rows: int,
    prime: bool,
    on_autodiff: bool,
    j: int,
    i: int,
)
    requires
        0 <= rows <= usize::MAX,
        0 <= j <= s.count(),
        0 <= i < s.level(j).len(),
    ensures
        s.level(j)[i] is Middle || s.level(j)[i] is End ==> !s.runs(
            None,
            rows,
            prime,
            None,
            on_autodiff,
        ),
        s.wf() && s.cuts(on_autodiff) && (forall|l: int, m: int|
            0 <= l <= s.count() && 0 <= m < s.level(l).len() ==> (#[trigger] s.level(l)[m]) is Start
                || s.level(l)[m] is Custom) ==> s.runs(None, rows, prime, None, on_autodiff),
        s.runs(None, rows, prime, None, on_autodiff) ==> s.wf() && s.cuts(on_autodiff),
{
    s.lemma_uninjected(rows, prime);
    if s.level(j)[i] is Middle || s.level(j)[i] is End {
        assert(s.level(j)[i].is_relative());
        assert(!class::resolvable(s.level(j), None));
    }
    if forall|l: int, m: int|
        0 <= l <= s.count() && 0 <= m < s.level(l).len() ==> (#[trigger] s.level(l)[m]) is Start
            || s.level(l)[m] is Custom {
        assert forall|l: int| 0 <= l <= s.count() implies class::resolvable(
            #[trigger] s.level(l),
            None,
        ) by {
            assert forall|m: int| 0 <= m < s.level(l).len() implies !(#[trigger] s.level(
                l,
            )[m]).is_relative() by {
                assert(s.level(l)[m] is Start || s.level(l)[m] is Custom);
            }
        }
    }
}

/// The levels of a stack: its own class latents first, then those of the real layer of
/// each virtual one.
pub proof fn a_stack_has_a_level_per_virtual_layer(s: Layers, i: int)
    requires
        0 <= i < s.count(),
    ensures
        s.levels().len() == s.count() + 1,
        s.levels()[0] == class::marks(s.class_latents@),
        s.levels()[i + 1] == class::marks(s.real_layers@[s.reals()[i]].class_latents@),
{
}

/// Whether a stack can run packed rows: its own latents all open the sequence, and its
/// layers have none.
pub proof fn packed_rows_take_only_opening_latents(s: Layers, i: int, r: int)
    requires
        0 <= i < s.class_latents@.len(),
        0 <= r < s.real_layers@.len(),
    ensures
        s.packs() ==> s.class_latents@[i] is Start && s.real_layers@[r].class_latents@.len() == 0,
        (forall|j: int| 0 <= j < s.class_latents@.len() ==> (#[trigger] s.class_latents@[j]) is Start)
            && (forall|q: int|
            0 <= q < s.real_layers@.len() ==> (
            #[trigger] s.real_layers@[q]).class_latents@.len() == 0) ==> s.packs(),
        crate::modules::layers::all_start(s.class_latents@) == forall|j: int|
            0 <= j < s.class_latents@.len() ==> (#[trigger] s.class_latents@[j]) is Start,
{
}

/// A prime without cursors runs nothing, where no latent of the stack or of a layer needs
/// the length of the sequence.
pub proof fn a_prime_without_cursors_needs_no_length(s: Layers)
    ensures
        s.resolves_unplaced() == ((forall|j: int|
            0 <= j < s.class_latents@.len() ==> !((#[trigger] s.class_latents@[j]) is Middle
                || s.class_latents@[j] is End)) && (forall|r: int, j: int|
            0 <= r < s.real_layers@.len() && 0 <= j < s.real_layers@[r].class_latents@.len() ==> !((
            #[trigger] s.real_layers@[r].class_latents@[j]) is Middle
                || s.real_layers@[r].class_latents@[j] is End))),
{
    lemma_resolvable(s.class_latents@);
    assert forall|r: int| 0 <= r < s.real_layers@.len() implies class::resolvable(
        class::marks((#[trigger] s.real_layers@[r]).class_latents@),
        None,
    ) == (forall|j: int|
        0 <= j < s.real_layers@[r].class_latents@.len() ==> !((
        #[trigger] s.real_layers@[r].class_latents@[j]) is Middle
            || s.real_layers@[r].class_latents@[j] is End)) by {
        lemma_resolvable(s.real_layers@[r].class_latents@);
    }
}

/// Latents can be placed without the length where none halves or closes the sequence.
proof fn lemma_resolvable(latents: Seq<ClassLatent>)
    ensures
        class::resolvable(class::marks(latents), None) == forall|j: int|
            0 <= j < latents.len() ==> !((#[trigger] latents[j]) is Middle || latents[j] is End),
{
    let marks = class::marks(latents);
    assert forall|j: int| 0 <= j < latents.len() implies (#[trigger] marks[j]).is_relative() == (
    latents[j] is Middle || latents[j] is End) by {}
    if class::resolvable(marks, None) {
        assert forall|j: int| 0 <= j < latents.len() implies !((#[trigger] latents[j]) is Middle
            || latents[j] is End) by {
            assert(!marks[j].is_relative());
        }
    }
}

/// A network runs a call where its stack is valid and can be cut, and the call can be
/// placed at every level, from cursors of its size.
pub proof fn a_network_runs_what_it_can_place(
    net: LatentNetwork,
    c: Cursors,
    rows: int,
    p: Padding,
    on_autodiff: bool,
)
    ensures
        ({
            let call = net.call(c, rows, false);
            let plain = net.layers.wf() && net.layers.cuts(on_autodiff) && call.fits() && (
            c.per_layer.len() == 0 || c.per_layer.len() == net.layers.count());
            &&& net.runs(c, rows, None, on_autodiff) == plain
            &&& net.runs(c, rows, Some(p), on_autodiff) == (plain && p.wf() && p.batch() > 0
                && p.rows() == rows && forall|j: int|
                0 <= j < call.levels.len() ==> stack::middles_fit(#[trigger] call.call(j)))
            &&& net.steps(Some(c), on_autodiff) == net.runs(c, 1, None, on_autodiff)
        }),
{
}

/// A network primes from cursors where its class tokens can be placed, each of them can
/// be stepped through the stack, and the stack can be primed behind them.
pub proof fn a_network_primes_what_it_can_place(net: LatentNetwork, c: Cursors, on_autodiff: bool)
    ensures
        ({
            let call = net.call(c, 0, true);
            net.primes(Some(c), on_autodiff) == (net.layers.wf() && net.layers.cuts(on_autodiff) && (
            c.per_layer.len() == 0 || c.per_layer.len() == net.layers.count()) && call.call(
                0,
            ).fits() && (c.full_len matches Some(len) ==> len + class::landed(
                class::marks(net.class_tokens@),
                len as int,
            ) <= usize::MAX) && (call.rows_at(1) > 0 ==> network::opening(call).fits())
                && network::primed(call).fits())
        }),
{
    let call = net.call(c, 0, true);
    assert(call.levels[0] == class::marks(net.class_tokens@));
}

/// A bidirectional stack runs a call that can be placed. A padded batch has the rows of
/// the call, and follows it.
pub proof fn a_bidi_stack_runs_what_it_can_place(s: BidiLayers, c: Cursors, rows: usize, p: Padding)
    ensures
        s.inserts(c, rows, None) == s.call(c, rows as int).fits(),
        s.inserts(c, rows, Some(p)) == (s.call(c, rows as int).fits() && p.wf() && p.batch() > 0
            && p.rows() == rows && stack::middles_fit(s.call(c, rows as int))),
{
}

/// Without cursors a network splices nothing. It steps and primes where none of the class
/// tokens that it leaves out needs the length of the sequence, and its stack does too.
pub proof fn a_network_without_cursors_needs_no_length(net: LatentNetwork, on_autodiff: bool)
    ensures
        ({
            let free = forall|j: int|
                0 <= j < net.class_tokens@.len() ==> !((#[trigger] net.class_tokens@[j]) is Middle
                    || net.class_tokens@[j] is End);
            &&& net.steps(None, on_autodiff) == (free && net.layers.runs(
                None,
                1,
                false,
                None,
                on_autodiff,
            ))
            &&& net.primes(None, on_autodiff) == (free && net.layers.resolves_unplaced())
        }),
{
    let tokens = net.class_tokens@;
    let marks = class::marks(tokens);
    assert forall|j: int| 0 <= j < tokens.len() implies (#[trigger] marks[j]).is_relative() == (
    tokens[j] is Middle || tokens[j] is End) by {}
    if class::resolvable(marks, None) {
        assert forall|j: int| 0 <= j < tokens.len() implies !((#[trigger] tokens[j]) is Middle
            || tokens[j] is End) by {
            assert(!marks[j].is_relative());
        }
    }
}

} // verus!
