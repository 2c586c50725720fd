use burn_stack::modules::bidi::{
    BidiLayerPair, BidiLayers, BidiPass, OutputMerge, OutputMergeConfig, PairReads,
};
use burn_stack::modules::layer::Layer;
use burn_stack::modules::layers::{Boundary, Layers, StackPass};
use burn_stack::modules::linear::LinearShape;
use burn_stack::modules::multi_gate::{MultiGate, ResidualOp, Residuals};
use burn_stack::modules::network::{LatentNetwork, LmHead, VocabNetwork};
use burn_stack::utils::class::splice::Segment;
use burn_stack::utils::class::{ClassCursor, ClassCursors, ClassLatent, ClassToken};
use burn_stack::utils::graph::{
    capture_actions, CaptureAction, CapturedStep, StepAction,
};
use burn_stack::utils::packing::Packed;
use burn_stack::utils::padding::{right_padded, Padding};
use burn_stack::utils::schedule::{BidiSchedule, GradHorizon, Schedule};
use burn_stack::utils::untied::UntiedParam;

fn layer() -> Layer {
    Layer {
        norm: 1,
        norm2: None,
        block_untied: Vec::new(),
        class_latents: Vec::new(),
        untied: Vec::new(),
        n_applications: 1,
    }
}

fn stack(n_real: usize) -> Layers {
    Layers {
        n_real_layers: n_real,
        n_virtual_layers: None,
        real_layers: (0..n_real).map(|_| layer()).collect(),
        ignore_first_residual: false,
        ignore_last_residual: false,
        residuals: Residuals::Standard,
        class_latents: Vec::new(),
        grad_horizon: None,
    }
}

fn gated(n_modules: usize, n_stream: usize) -> Residuals {
    Residuals::MultiGate(MultiGate {
        n_modules,
        n_stream,
        per_virtual: false,
    })
}

/// A token with its residual streams.
#[derive(Clone, Debug, PartialEq, Eq)]
struct Token {
    x: i64,
    streams: Vec<i64>,
}

fn token(x: i64, streams: usize) -> Token {
    Token {
        x,
        streams: vec![x; streams],
    }
}

fn splice(segments: &[Segment], rows: &[Token], marker: impl Fn(usize) -> Token) -> Vec<Token> {
    let mut out = Vec::new();
    for segment in segments {
        match segment {
            Segment::Tokens { start, len } => out.extend_from_slice(&rows[*start..*start + *len]),
            Segment::Marker(i) => out.push(marker(*i)),
        }
    }
    out
}

/// One recurrent block over integers: a state and an input in, a state and an
/// output out.
fn block(state: i64, x: i64, layer: usize) -> (i64, i64) {
    let state = state
        .wrapping_mul(3)
        .wrapping_add(x)
        .wrapping_add(layer as i64);
    (state, state.wrapping_mul(5).wrapping_sub(x))
}

/// One recurrent layer over integers: a state and a token in, a state and a
/// token out.
fn cell(state: i64, t: &Token, layer: usize, op: ResidualOp) -> (i64, Token) {
    let (state, y) = block(state, t.x, layer);
    (state, residual(t, y, op))
}

/// The token that leaves a layer whose block makes `y` of `t`.
fn residual(t: &Token, y: i64, op: ResidualOp) -> Token {
    let mut streams = t.streams.clone();
    let x = match op {
        ResidualOp::Skip => y.wrapping_add(t.x),
        ResidualOp::Bare => y,
        ResidualOp::Output => y,
        ResidualOp::Restart => {
            streams = vec![y];
            y
        }
        ResidualOp::Accumulate(m) => {
            streams.push(y);
            pooled(&streams, m)
        }
        ResidualOp::Mix(m) => {
            for s in streams.iter_mut() {
                *s = s.wrapping_mul(7).wrapping_add(y);
            }
            pooled(&streams, m)
        }
    };
    Token { x, streams }
}

fn pooled(streams: &[i64], module: usize) -> i64 {
    streams
        .iter()
        .fold(module as i64, |sum, s| sum.wrapping_mul(11).wrapping_add(*s))
}

/// Run the rows of one call through the stack, along its plan.
fn run(pass: &StackPass, input: &[Token], caches: &mut [i64]) -> Vec<Token> {
    let mut rows = splice(&pass.segments, input, |i| token(1000 + i as i64, 1));
    for (v, p) in pass.passes.iter().enumerate() {
        assert_eq!(p.rows, rows.len());
        rows = splice(&p.segments, &rows, |i| {
            token(2000 + 100 * p.layer as i64 + i as i64, p.streams)
        });
        assert_eq!(p.idle, rows.is_empty());
        for row in rows.iter_mut() {
            let (state, out) = cell(caches[v], row, p.layer, p.residual);
            caches[v] = state;
            *row = out;
        }
    }
    assert_eq!(pass.rows, rows.len());
    rows
}

/// The padded counterpart of [`run`] for slot `b`: the real rows of the slot run
/// in its own order, and the output of a padded row is junk.
fn run_padded(
    pass: &StackPass,
    input: &[Token],
    b: usize,
    caches: &mut [i64],
) -> (Vec<Token>, Vec<bool>) {
    let mut rows = splice(&pass.segments, input, |i| token(1000 + i as i64, 1));
    for (v, p) in pass.passes.iter().enumerate() {
        rows = splice(&p.segments, &rows, |i| {
            token(2000 + 100 * p.layer as i64 + i as i64, p.streams)
        });
        let padding = &pass.paddings[v + 2];
        let order: Vec<usize> = match padding.in_slot_order() {
            Some(order) => {
                assert_eq!(
                    order.pad_bs[b],
                    order.src_bs[b]
                        .iter()
                        .map(|&i| padding.pad_bs[b][i])
                        .collect::<Vec<_>>()
                );
                order.src_bs[b].clone()
            }
            None => (0..rows.len()).collect(),
        };
        let mut out = vec![token(-1, 1); rows.len()];
        for i in order {
            if !padding.pad_bs[b][i] {
                let (state, y) = cell(caches[v], &rows[i], p.layer, p.residual);
                caches[v] = state;
                out[i] = y;
            }
        }
        rows = out;
    }
    let last = pass.paddings.last().unwrap();
    (rows, last.pad_bs[b].clone())
}

/// The sequence of slot `b` after a padded call: its real rows, in its own
/// order.
fn sequence(rows: &[Token], padding: &Padding, b: usize) -> Vec<Token> {
    let order: Vec<usize> = match padding.in_slot_order() {
        Some(order) => order.src_bs[b].clone(),
        None => (0..rows.len()).collect(),
    };
    order
        .into_iter()
        .filter(|&i| !padding.pad_bs[b][i])
        .map(|i| rows[i].clone())
        .collect()
}

fn tokens(values: &[i64]) -> Vec<Token> {
    values.iter().map(|&x| token(x, 1)).collect()
}

fn forward(layers: &Layers, input: &[Token]) -> (Vec<Token>, Vec<i64>) {
    let mut caches = vec![0; layers.n_virtual_count()];
    let pass = layers.forward(input.len(), None, None, true);
    let out = run(&pass, input, &mut caches);
    (out, caches)
}

/// Every token of `input` as a step of its own.
fn steps(
    layers: &Layers,
    input: &[Token],
    class: Option<ClassCursors>,
) -> (Vec<Token>, Vec<i64>) {
    let mut caches = vec![0; layers.n_virtual_count()];
    let mut class = class;
    let mut out = Vec::new();
    for t in input {
        assert!(layers.can_run(1, &class, false, None, true));
        let pass = layers.step(class, true);
        out.extend(run(&pass, &[t.clone()], &mut caches));
        class = pass.class;
    }
    (out, caches)
}

#[test]
fn layers_forward_equals_step_unrolled() {
    let layers = stack(3);
    let input = tokens(&[3, 1, 4, 1, 5]);
    let (y_fwd, caches_fwd) = forward(&layers, &input);
    let (y_step, caches_step) = steps(&layers, &input, None);
    assert_eq!(y_fwd, y_step);
    assert_eq!(caches_fwd, caches_step);
    assert_eq!(y_fwd.len(), 5);
}

fn marked(residuals: Residuals) -> Layers {
    let mut layers = stack(3);
    layers.residuals = residuals;
    layers.class_latents = vec![
        ClassLatent::End,
        ClassLatent::Custom(2),
        ClassLatent::Start,
        ClassLatent::Middle,
        ClassLatent::Custom(5),
    ];
    layers.real_layers[0].class_latents = vec![ClassLatent::End, ClassLatent::Start];
    layers.real_layers[2].class_latents = vec![
        ClassLatent::Custom(3),
        ClassLatent::Middle,
        ClassLatent::End,
    ];
    layers
}

#[test]
fn class_latents_keep_forward_step_parity() {
    for residuals in [Residuals::Standard, gated(3, 2)] {
        let layers = marked(residuals);
        let input = tokens(&[2, 7, 1, 8, 2, 8, 1]);
        let (y_fwd, caches_fwd) = forward(&layers, &input);
        let (y_step, caches_step) =
            steps(&layers, &input, Some(ClassCursors::new(input.len())));
        assert_eq!(y_fwd, y_step);
        assert_eq!(caches_fwd, caches_step);
        // Five latents of the stack, two of the first layer, three of the last.
        assert_eq!(y_fwd.len(), 7 + 5 + 2 + 3);
    }
}

#[test]
fn chunks_are_the_whole_sequence() {
    let layers = marked(Residuals::Standard);
    let input = tokens(&[9, 8, 7, 6, 5, 4, 3]);
    let (whole, caches_whole) = forward(&layers, &input);
    for split in 1..input.len() {
        let mut caches = vec![0; 3];
        let class = Some(ClassCursors::new(input.len()));
        let a = layers.forward(split, class, None, false);
        let mut out = run(&a, &input[..split], &mut caches);
        let b = layers.forward(input.len() - split, a.class, None, false);
        out.extend(run(&b, &input[split..], &mut caches));
        assert_eq!(out, whole);
        assert_eq!(caches, caches_whole);
    }
}

#[test]
fn prime_then_step_is_the_step() {
    let mut layers = stack(2);
    layers.class_latents = vec![ClassLatent::Start, ClassLatent::Custom(0)];
    layers.real_layers[1].class_latents = vec![ClassLatent::Start];
    let one = tokens(&[42]);

    let mut caches = vec![0; 2];
    let step = layers.step(Some(ClassCursors::stream()), false);
    let alone = run(&step, &one, &mut caches);

    let mut primed_caches = vec![0; 2];
    let prime = layers.prime(Some(ClassCursors::stream()), false, false);
    let pass = prime.pass.unwrap();
    let mut out = run(&pass, &[], &mut primed_caches);
    assert_eq!(out.len(), 3);
    assert_eq!(prime.zeros, vec![false, false]);
    let next = layers.step(pass.class, false);
    out.extend(run(&next, &one, &mut primed_caches));
    assert_eq!(out, alone);
    assert_eq!(primed_caches, caches);
}

/// The class latents that a call emits, at every level.
fn emitted(layers: &Layers, pass: &StackPass) -> Vec<ClassLatent> {
    let mut out = Vec::new();
    let mut collect = |segments: &[Segment], latents: &[ClassLatent]| {
        for segment in segments {
            if let Segment::Marker(i) = segment {
                out.push(latents[*i].clone());
            }
        }
    };
    collect(&pass.segments, &layers.class_latents);
    for p in &pass.passes {
        collect(&p.segments, &layers.real_layers[p.layer].class_latents);
    }
    out
}

#[test]
fn no_end_is_ever_primed() {
    let layers = marked(Residuals::Standard);
    let ends = |pass: &StackPass| {
        emitted(&layers, pass)
            .iter()
            .filter(|m| matches!(m, ClassLatent::End))
            .count()
    };
    for len in 1..6 {
        let mut class = Some(ClassCursors::new(len));
        for t in 0..len {
            let pass = layers.prime(class, true, false).pass.unwrap();
            assert_eq!(ends(&pass), 0, "before token {t} of {len}");
            let pass = layers.step(pass.class, false);
            assert_eq!(ends(&pass), if t + 1 == len { 3 } else { 0 });
            class = pass.class;
        }
        let pass = layers.prime(class, true, false).pass.unwrap();
        assert_eq!(pass.rows, 0, "nothing waits past the end");
        let past = layers.step(pass.class, false);
        let pass = layers.prime(past.class, true, false).pass.unwrap();
        assert_eq!(ends(&pass), 0, "past the end of {len}");
    }
}

#[test]
fn a_partly_primed_stack_zeroes_idle_caches() {
    let mut layers = stack(2);
    layers.real_layers[1].class_latents = vec![ClassLatent::Start];
    let prime = layers.prime(Some(ClassCursors::stream()), false, false);
    assert_eq!(prime.zeros, vec![true, false]);
    let prime = layers.prime(Some(ClassCursors::stream()), true, false);
    assert!(prime.zeros.is_empty());
    let prime = layers.prime(None, false, false);
    assert!(prime.pass.is_none());
    assert!(prime.zeros.is_empty());
}

#[test]
fn virtual_layers_share_weights_and_keep_one_cache_each() {
    let mut layers = stack(2);
    layers.n_virtual_layers = Some((6, Schedule::Cyclic));
    for l in layers.real_layers.iter_mut() {
        l.n_applications = 3;
    }
    assert!(layers.is_valid());
    assert_eq!(layers.real_layers.len(), 2);
    let pass = layers.forward(4, None, None, true);
    assert_eq!(pass.passes.len(), 6);
    for r in 0..2 {
        assert!(
            pass.passes.iter().any(|p| p.layer == r && p.track),
            "every real layer must collect a gradient from its virtual applications",
        );
    }
    let apps: Vec<usize> = pass.passes.iter().map(|p| p.application).collect();
    assert_eq!(apps, vec![0, 0, 1, 1, 2, 2]);
}

fn boundaries(pass: &StackPass) -> Vec<Boundary> {
    pass.passes.iter().map(|p| p.boundary).collect()
}

#[test]
fn grad_horizon_cuts_the_prefix_but_not_the_input() {
    let input = tokens(&[1, 2, 3, 4]);
    let full = stack(4);
    let (y_full, _) = forward(&full, &input);

    let mut uncut = stack(4);
    uncut.grad_horizon = Some(GradHorizon::last(4, 4));
    assert_eq!(
        forward(&uncut, &input).0,
        y_full,
        "a horizon tracking everything must reproduce the untouched stack exactly",
    );
    let pass = uncut.forward(4, None, None, true);
    assert_eq!(boundaries(&pass), vec![Boundary::Stay; 4]);
    assert_eq!(uncut.grad_tracked(true), None);

    let mut cut = stack(4);
    cut.grad_horizon = Some(GradHorizon::last(1, 4));
    let pass = cut.forward(4, None, None, true);
    assert_eq!(
        boundaries(&pass),
        vec![
            Boundary::Cut,
            Boundary::Stay,
            Boundary::Stay,
            Boundary::Lift
        ],
        "the stack input stays reachable across the cut (straight-through re-attach)",
    );
    assert!(
        !pass.passes[0].track,
        "a prefix-only parameter must collect no gradient",
    );
    assert!(
        pass.passes[3].track,
        "the tracked suffix must still train"
    );
    assert!(!pass.lift);
    // There is no cut off the autodiff side.
    let pass = cut.forward(4, None, None, false);
    assert_eq!(boundaries(&pass), vec![Boundary::Stay; 4]);
}

#[test]
fn grad_horizon_stretched_trains_every_real_layer() {
    let input = tokens(&[4, 3, 2, 1]);
    let mut uncut = stack(3);
    uncut.n_virtual_layers = Some((8, Schedule::Stretched));
    let (y_uncut, caches_uncut) = forward(&uncut, &input);

    let mut cut = uncut.clone();
    cut.grad_horizon = Some(GradHorizon::Depth(1));
    let (y_cut, caches_cut) = forward(&cut, &input);
    assert_eq!(
        y_uncut, y_cut,
        "a horizon changes the graph, never the values"
    );
    assert_eq!(caches_uncut, caches_cut, "nor the caches it hands back");

    let pass = cut.forward(4, None, None, true);
    let tracks: Vec<usize> = (0..8).filter(|&i| pass.passes[i].track).collect();
    assert_eq!(tracks, vec![2, 5, 7]);
    assert_eq!(
        boundaries(&pass)
            .iter()
            .filter(|&&b| b == Boundary::Lift)
            .count(),
        3
    );
    for r in 0..3 {
        assert!(
            pass.passes.iter().any(|p| p.layer == r && p.track),
            "real layer {r} must keep a tracked application under a stretched schedule",
        );
    }
}

#[test]
fn grad_horizon_mask_alternates_and_keeps_forward_step_parity() {
    let input = tokens(&[6, 2, 8]);
    for residuals in [Residuals::Standard, gated(6, 3)] {
        let mut uncut = stack(6);
        uncut.residuals = residuals;
        let (y_uncut, _) = forward(&uncut, &input);

        let mut cut = uncut.clone();
        // Tracked, cut, tracked, cut, ...: four boundaries.
        let mask = vec![true, false, true, false, false, true];
        cut.grad_horizon = Some(GradHorizon::Mask(mask.clone()));
        let (y_cut, caches_cut) = forward(&cut, &input);
        assert_eq!(
            y_uncut, y_cut,
            "an alternating mask changes the graph, never the values",
        );
        let (y_step, caches_step) = steps(&cut, &input, None);
        assert_eq!(y_cut, y_step);
        assert_eq!(caches_cut, caches_step);

        let pass = cut.forward(3, None, None, true);
        assert_eq!(
            boundaries(&pass),
            vec![
                Boundary::Stay,
                Boundary::Cut,
                Boundary::Lift,
                Boundary::Cut,
                Boundary::Stay,
                Boundary::Lift
            ],
        );
        for (i, kept) in mask.iter().enumerate() {
            assert_eq!(
                pass.passes[i].track, *kept,
                "layer {i} must collect a gradient exactly when the mask tracks it",
            );
        }
    }
}

#[test]
fn grad_horizon_ghosts_an_untracked_layers_class_latent() {
    let mut layers = stack(3);
    layers.real_layers[0].class_latents = vec![ClassLatent::Start];
    layers.grad_horizon = Some(GradHorizon::Mask(vec![false, true, false]));
    let pass = layers.forward(4, None, None, true);
    assert_eq!(pass.rows, 5, "the layer's latent lengthens the sequence");
    assert_eq!(
        pass.passes[0].segments,
        vec![Segment::Marker(0), Segment::Tokens { start: 0, len: 4 }]
    );
    assert!(!pass.passes[0].track);
    assert!(pass.lift, "the mask ends untracked");
}

#[test]
fn a_grad_horizon_changes_only_the_graph() {
    let mut layers = marked(gated(3, 2));
    let pad = mask(&LENS, 7);
    let bare = layers.forward(7, None, Some(pad.clone()), true);
    layers.grad_horizon = Some(GradHorizon::Mask(vec![false, true, false]));
    let pass = layers.forward(7, None, Some(pad), true);
    assert_eq!(pass.segments, bare.segments);
    assert_eq!(pass.rows, bare.rows);
    assert_eq!(pass.class, bare.class);
    for (p, q) in pass.passes.iter().zip(&bare.passes) {
        assert_eq!(p.view, q.view);
        assert_eq!(p.segments, q.segments);
        assert_eq!((p.layer, p.application, p.rows), (q.layer, q.application, q.rows));
        assert_eq!((p.idle, p.streams, p.residual), (q.idle, q.streams, q.residual));
    }
    assert_eq!(pass.paddings.len(), bare.paddings.len());
    for (p, q) in pass.paddings.iter().zip(&bare.paddings) {
        assert_eq!(p.pad_bs, q.pad_bs);
        assert_eq!(p.local_bs, q.local_bs);
    }
    assert!(pass.lift && !bare.lift);
}

/// Splice labels along a plan, as [`splice`] does tokens.
fn splice_labels(
    segments: &[Segment],
    rows: &[String],
    marker: impl Fn(usize) -> String,
) -> Vec<String> {
    let mut out = Vec::new();
    for segment in segments {
        match segment {
            Segment::Tokens { start, len } => out.extend_from_slice(&rows[*start..*start + *len]),
            Segment::Marker(i) => out.push(marker(*i)),
        }
    }
    out
}

#[test]
fn the_carry_shadows_every_row() {
    let mut layers = marked(Residuals::Standard);
    layers.grad_horizon = Some(GradHorizon::Mask(vec![false, false, true]));
    let pass = layers.forward(4, None, None, true);
    let input: Vec<String> = (0..4).map(|t| format!("t{t}")).collect();
    let mut rows = splice_labels(&pass.segments, &input, |i| format!("s{i}"));
    let mut carry: Option<Vec<String>> = None;
    let mut lifted = 0;
    for p in &pass.passes {
        match p.boundary {
            Boundary::Cut => carry = Some(rows.clone()),
            Boundary::Lift => {
                assert_eq!(carry.take().unwrap(), rows);
                lifted += 1;
            }
            Boundary::Stay => {}
        }
        let label = |i: usize| format!("l{}m{i}", p.layer);
        rows = splice_labels(&p.segments, &rows, label);
        carry = carry.map(|c| splice_labels(&p.segments, &c, label));
    }
    assert_eq!(lifted, 1);
    assert!(carry.is_none());
}

#[test]
fn an_untied_layer_must_stay_tracked() {
    let mut layers = stack(2);
    layers.n_virtual_layers = Some((4, Schedule::Cyclic));
    layers.real_layers[0].block_untied = vec![UntiedParam::new(7, 1, 0)];
    layers.real_layers[0].n_applications = 2;
    layers.grad_horizon = Some(GradHorizon::last(1, 4));
    assert!(layers.is_valid());
    assert!(layers.can_cut(false));
    assert!(!layers.can_cut(true));
    layers.grad_horizon = Some(GradHorizon::Mask(vec![true, false, true, false]));
    assert!(layers.can_cut(true));
}

#[test]
fn multi_gate_forward_equals_step_and_stays_bounded() {
    let mut layers = stack(4);
    layers.residuals = gated(4, 3);
    let input = tokens(&[2, 7, 1, 8, 2]);
    let (y_fwd, caches_fwd) = forward(&layers, &input);
    let (y_step, caches_step) = steps(&layers, &input, None);
    assert_eq!(y_fwd, y_step);
    assert_eq!(caches_fwd, caches_step);

    let pass = layers.forward(5, None, None, false);
    let streams: Vec<usize> = pass.passes.iter().map(|p| p.streams).collect();
    assert_eq!(streams, vec![1, 2, 3, 3]);
    let ops: Vec<ResidualOp> = pass.passes.iter().map(|p| p.residual).collect();
    assert_eq!(
        ops,
        vec![
            ResidualOp::Accumulate(0),
            ResidualOp::Accumulate(1),
            ResidualOp::Mix(2),
            ResidualOp::Mix(3)
        ]
    );
}

#[test]
fn suppressed_residuals_are_the_bare_transform() {
    let mut layers = stack(3);
    layers.ignore_first_residual = true;
    layers.ignore_last_residual = true;
    let ops = |layers: &Layers| -> Vec<ResidualOp> {
        layers
            .forward(1, None, None, false)
            .passes
            .iter()
            .map(|p| p.residual)
            .collect()
    };
    assert_eq!(
        ops(&layers),
        vec![ResidualOp::Bare, ResidualOp::Skip, ResidualOp::Bare]
    );
    layers.residuals = gated(3, 2);
    assert_eq!(
        ops(&layers),
        vec![
            ResidualOp::Restart,
            ResidualOp::Accumulate(1),
            ResidualOp::Output
        ]
    );
}

#[test]
fn a_stack_that_cannot_run_says_so() {
    let mut layers = stack(2);
    assert!(layers.is_valid());
    layers.residuals = gated(1, 2);
    assert!(!layers.is_valid());
    layers.ignore_last_residual = true;
    assert!(layers.is_valid());
    layers.ignore_last_residual = false;
    layers.residuals = gated(2, 0);
    assert!(!layers.is_valid());
    let mut layers = stack(2);
    layers.n_virtual_layers = Some((3, Schedule::Custom(vec![0, 1, 2])));
    assert!(!layers.is_valid());
    let mut layers = stack(2);
    layers.class_latents = vec![ClassLatent::End];
    let open = Some(ClassCursors::stream());
    assert!(!layers.can_run(1, &open, false, None, false));
    assert!(!layers.can_run(1, &None, false, None, false));
    assert!(!layers.can_run_unplaced());
    let mut foreign = ClassCursors::new(3);
    foreign.per_layer = vec![0];
    assert!(!layers.can_run(1, &Some(foreign), false, None, false));
    assert!(layers.can_run(3, &Some(ClassCursors::new(3)), false, None, false));
}

const LENS: [usize; 4] = [7, 3, 5, 1];

fn mask(lens: &[usize], padded: usize) -> Vec<Vec<bool>> {
    lens.iter()
        .map(|&len| (0..padded).map(|i| i >= len).collect())
        .collect()
}

fn slot_input(b: usize, padded: usize) -> Vec<Token> {
    (0..padded)
        .map(|t| token(10 * (b as i64 + 1) + t as i64, 1))
        .collect()
}

/// Run the padded batch and each slot alone. Compare every row that each slot
/// owns, and every cache.
fn check_each_slot_alone(layers: &Layers, lens: &[usize]) {
    let padded = *lens.iter().max().unwrap();
    let pad = mask(lens, padded);
    assert!(right_padded(&pad));
    let pass = layers.forward(padded, None, Some(pad), true);
    for (b, &len) in lens.iter().enumerate() {
        let input = slot_input(b, padded);
        let (y_solo, caches_solo) = forward(layers, &input[..len]);
        let mut caches = vec![0; layers.n_virtual_count()];
        let (rows, _) = run_padded(&pass, &input, b, &mut caches);
        let owned = sequence(&rows, pass.paddings.last().unwrap(), b);
        assert_eq!(owned, y_solo, "slot {b} (length {len})");
        assert_eq!(caches, caches_solo, "slot {b} (length {len})");
    }
}

#[test]
fn padded_layers_are_each_slot_alone() {
    check_each_slot_alone(&marked(Residuals::Standard), &LENS);
}

#[test]
fn an_all_padding_slot_keeps_its_caches() {
    let mut layers = stack(2);
    layers.class_latents = vec![
        ClassLatent::Start,
        ClassLatent::Middle,
        ClassLatent::Custom(1),
    ];
    layers.real_layers[1].class_latents = vec![ClassLatent::Start];
    let lens = [3, 0];
    let pass = layers.forward(3, None, Some(mask(&lens, 3)), false);
    let mut caches = vec![17, 23];
    let (rows, pad) = run_padded(&pass, &slot_input(1, 3), 1, &mut caches);
    assert_eq!(rows.len(), 3 + 3 + 1);
    assert!(pad.iter().all(|&p| p));
    assert!(sequence(&rows, pass.paddings.last().unwrap(), 1).is_empty());
    assert_eq!(caches, vec![17, 23]);
    check_each_slot_alone(&layers, &lens);
}

#[test]
fn padded_multi_gate_layers_are_each_slot_alone() {
    check_each_slot_alone(&marked(gated(3, 2)), &LENS);
}

#[test]
fn padded_layers_under_a_grad_horizon_are_each_slot_alone() {
    let mut layers = marked(Residuals::Standard);
    layers.grad_horizon = Some(GradHorizon::Mask(vec![false, true, false]));
    check_each_slot_alone(&layers, &LENS);
}

#[test]
fn chunked_padded_layers_are_each_slot_alone() {
    let mut layers = stack(2);
    layers.class_latents = vec![
        ClassLatent::Start,
        ClassLatent::End,
        ClassLatent::Custom(4),
    ];
    layers.real_layers[1].class_latents = vec![ClassLatent::End];

    let lens = [9, 3, 6];
    let split = 5;
    let len = 9;
    let pad = mask(&lens, len);
    let part = |from: usize, to: usize| -> Vec<Vec<bool>> {
        pad.iter().map(|slot| slot[from..to].to_vec()).collect()
    };
    let first = layers.forward(
        split,
        Some(ClassCursors::new(len)),
        Some(part(0, split)),
        true,
    );
    let rest = layers.forward(
        len - split,
        first.class.clone(),
        Some(part(split, len)),
        true,
    );
    for (b, &own) in lens.iter().enumerate() {
        let input = slot_input(b, len);
        let (y_solo, caches_solo) = forward(&layers, &input[..own]);
        let mut caches = vec![0; 2];
        let (rows_a, _) = run_padded(&first, &input[..split], b, &mut caches);
        let (rows_b, _) = run_padded(&rest, &input[split..], b, &mut caches);
        let mut owned = sequence(&rows_a, first.paddings.last().unwrap(), b);
        owned.extend(sequence(&rows_b, rest.paddings.last().unwrap(), b));
        assert_eq!(owned, y_solo, "slot {b} (length {own})");
        assert_eq!(caches, caches_solo, "slot {b} (length {own})");
    }
}

#[test]
fn any_number_of_padded_chunks_is_each_slot_alone() {
    let mut layers = stack(2);
    layers.class_latents = vec![ClassLatent::Custom(1), ClassLatent::End];
    layers.real_layers[0].class_latents = vec![ClassLatent::Start];
    layers.real_layers[1].class_latents = vec![ClassLatent::End];

    let lens = [8, 5, 1, 7];
    let len = 8;
    let pad = mask(&lens, len);
    for sizes in [vec![3, 3, 2], vec![1, 4, 1, 2], vec![1; 8]] {
        let mut class = Some(ClassCursors::new(len));
        let mut from = 0;
        let mut calls = Vec::new();
        for size in sizes {
            let part: Vec<Vec<bool>> = pad
                .iter()
                .map(|slot| slot[from..from + size].to_vec())
                .collect();
            assert!(layers.can_run(size, &class, false, Some(&Padding::new(part.clone())), true));
            let pass = layers.forward(size, class, Some(part), true);
            class = pass.class.clone();
            calls.push((from, size, pass));
            from += size;
        }
        for (b, &own) in lens.iter().enumerate() {
            let input = slot_input(b, len);
            let (y_solo, caches_solo) = forward(&layers, &input[..own]);
            let mut caches = vec![0; 2];
            let mut owned = Vec::new();
            for (from, size, pass) in &calls {
                let (rows, _) = run_padded(pass, &input[*from..*from + *size], b, &mut caches);
                owned.extend(sequence(&rows, pass.paddings.last().unwrap(), b));
            }
            assert_eq!(owned, y_solo, "slot {b} (length {own})");
            assert_eq!(caches, caches_solo, "slot {b} (length {own})");
        }
    }
}

#[test]
fn a_middle_marker_needs_the_whole_padded_sequence() {
    let mut layers = stack(1);
    layers.class_latents = vec![ClassLatent::Middle];
    let pad = mask(&[6, 2], 6);
    let part: Vec<Vec<bool>> = pad.iter().map(|slot| slot[..4].to_vec()).collect();
    let padding = Padding::new(part);
    let class = Some(ClassCursors::new(6));
    assert!(!layers.can_run(4, &class, false, Some(&padding), false));
    let whole = Padding::new(pad);
    assert!(layers.can_run(6, &class, false, Some(&whole), false));
    assert!(layers.can_run(4, &class, false, None, false));
}

fn network(class_tokens: Vec<ClassToken>, layers: Layers) -> LatentNetwork {
    LatentNetwork {
        layers,
        class_tokens,
    }
}

fn token_row(i: usize) -> Token {
    token(5000 + i as i64, 1)
}

#[test]
fn padded_latent_network_is_each_slot_alone() {
    let mut layers = stack(2);
    layers.class_latents = vec![ClassLatent::End];
    let net = network(
        vec![ClassToken::Middle, ClassToken::Start, ClassToken::End],
        layers,
    );
    let pad = mask(&LENS, 7);
    let padding = Padding::new(pad.clone());
    assert!(net.can_forward(7, &None, Some(&padding), false));
    let pass = net.forward(7, None, Some(pad), false);
    for (b, &len) in LENS.iter().enumerate() {
        let input = slot_input(b, 7);
        let solo = net.forward(len, None, None, false);
        let mut caches_solo = vec![0; 2];
        let entering = splice(&solo.segments, &input[..len], token_row);
        let y_solo = run(&solo.stack, &entering, &mut caches_solo);

        let mut caches = vec![0; 2];
        let entering = splice(&pass.segments, &input, token_row);
        let (rows, _) = run_padded(&pass.stack, &entering, b, &mut caches);
        let owned = sequence(&rows, pass.stack.paddings.last().unwrap(), b);
        assert_eq!(owned, y_solo, "slot {b} (length {len})");
        assert_eq!(caches, caches_solo, "slot {b} (length {len})");
    }
}

#[test]
fn class_token_placement_is_the_same_for_forward_and_step() {
    let net = network(vec![ClassToken::Start], stack(2));
    let sequence = 4;
    let pass = net.forward(sequence, None, None, false);
    assert_eq!(
        pass.stack.rows,
        sequence + 1,
        "the Start token is emitted before the first user token",
    );
    assert_eq!(net.class_token_output_indices(sequence), vec![0]);

    let input = tokens(&[1, 2, 3, 4]);
    let mut caches_fwd = vec![0; 2];
    let y_fwd = run(
        &pass.stack,
        &splice(&pass.segments, &input, token_row),
        &mut caches_fwd,
    );

    let mut class = Some(ClassCursors::new(sequence));
    let mut caches = vec![0; 2];
    let mut ys = Vec::new();
    let mut all = Vec::new();
    for t in &input {
        assert!(net.can_step(&class, false));
        let step = net.step(class, false);
        let rows = splice(&step.segments, &[t.clone()], token_row);
        assert_eq!(rows.len(), step.steps.len());
        let mut last = None;
        for (row, pass) in rows.iter().zip(&step.steps) {
            let out = run(pass, &[row.clone()], &mut caches);
            all.extend(out.clone());
            last = out.last().cloned();
        }
        ys.push(last.unwrap());
        class = step.class;
    }
    // `step` returns the last token it emitted, so the marker is folded into
    // the first step's state rather than surfacing as an extra output row.
    assert_eq!(ys.len(), sequence);
    assert_eq!(all, y_fwd);
    assert_eq!(caches, caches_fwd);
}

#[test]
fn a_network_prime_then_step_is_the_step() {
    let mut layers = stack(2);
    layers.class_latents = vec![ClassLatent::Custom(1)];
    layers.real_layers[1].class_latents = vec![ClassLatent::Start];
    let net = network(vec![ClassToken::Start, ClassToken::Custom(0)], layers);
    let one = tokens(&[77]);

    let run_steps = |segments: &[Segment], steps: &[StackPass], input: &[Token], caches: &mut Vec<i64>| {
        let rows = splice(segments, input, token_row);
        let mut out = Vec::new();
        for (row, pass) in rows.iter().zip(steps) {
            out.extend(run(pass, &[row.clone()], caches));
        }
        out
    };

    let mut caches = vec![0; 2];
    let step = net.step(Some(ClassCursors::stream()), false);
    let alone = run_steps(&step.segments, &step.steps, &one, &mut caches);

    let mut primed = vec![0; 2];
    let open = Some(ClassCursors::stream());
    assert!(net.can_prime(&open, false));
    let prime = net.prime(open, false, false);
    assert_eq!(prime.steps.len(), 2);
    let mut out = run_steps(&prime.segments, &prime.steps, &[], &mut primed);
    let inner = prime.prime.pass.unwrap();
    out.extend(run(&inner, &[], &mut primed));
    assert!(prime.prime.zeros.is_empty());
    let next = net.step(prime.class, false);
    out.extend(run_steps(&next.segments, &next.steps, &one, &mut primed));
    assert_eq!(out, alone);
    assert_eq!(primed, caches);
}

#[test]
fn a_network_without_cursors_injects_nothing() {
    let net = network(vec![ClassToken::Start], stack(1));
    let step = net.step(None, false);
    assert_eq!(step.segments, vec![Segment::Tokens { start: 0, len: 1 }]);
    assert_eq!(step.steps.len(), 1);
    assert!(step.class.is_none());
    let prime = net.prime(None, false, false);
    assert!(prime.steps.is_empty());
    assert!(prime.prime.pass.is_none());
    let closed = network(vec![ClassToken::End], stack(1));
    assert!(!closed.can_step(&None, false));
    assert!(!closed.can_prime(&None, false));
    assert!(!closed.can_forward(2, &Some(ClassCursors::stream()), None, false));
    assert!(closed.can_forward(2, &None, None, false));
}

#[test]
fn only_start_latents_sees_both_levels() {
    let mut layers = stack(2);
    layers.class_latents = vec![ClassLatent::Start, ClassLatent::Start];
    let mut net = VocabNetwork {
        embedding: [11, 8],
        layers,
        lm_head: None,
    };
    assert!(net.layers.only_start_latents());
    net.layers.real_layers[1].class_latents = vec![ClassLatent::Custom(4)];
    assert!(!net.layers.only_start_latents());
}

#[test]
fn after_its_opening_a_start_only_network_needs_no_cursors() {
    let mut layers = stack(2);
    layers.class_latents = vec![ClassLatent::Start, ClassLatent::Start];
    let net = VocabNetwork {
        embedding: [11, 8],
        layers,
        lm_head: Some(LinearShape::new(8, 11, false)),
    };
    let prime = net.prime(Some(ClassCursors::stream()), false, false);
    let opened = prime.pass.unwrap();
    assert_eq!(opened.rows, 2);
    let with = net.step(opened.class, false);
    let without = net.step(None, false);
    assert_eq!(with.segments, without.segments);
    assert_eq!(with.passes, without.passes);
    assert_eq!(
        net.apply_lm_head(),
        LmHead::Own(LinearShape::new(8, 11, false))
    );
    let tied = VocabNetwork {
        lm_head: None,
        ..net
    };
    assert_eq!(
        tied.apply_lm_head(),
        LmHead::Tied(LinearShape::new(8, 11, false))
    );
    assert_eq!(tied.forward(3, None, None, false).rows, 5);
}

#[test]
fn packed_rows_splice_nothing() {
    let mut layers = stack(2);
    layers.class_latents = vec![ClassLatent::Start];
    assert!(layers.can_pack());
    let packed = Packed::from_starts(&[vec![0, 3], vec![0]], 1, 6);
    let pass = layers.forward_packed(&packed, false);
    assert!(pass.places);
    assert_eq!(pass.pass.rows, 6);
    assert_eq!(
        pass.pass.segments,
        vec![Segment::Tokens { start: 0, len: 6 }]
    );
    assert!(pass.pass.class.is_none());
    let net = VocabNetwork {
        embedding: [4, 2],
        layers: layers.clone(),
        lm_head: None,
    };
    assert_eq!(net.forward_packed(&packed, false).pass.rows, 6);
    layers.real_layers[0].class_latents = vec![ClassLatent::Start];
    assert!(!layers.can_pack());
    layers.real_layers[0].class_latents = Vec::new();
    layers.class_latents = vec![ClassLatent::End];
    assert!(!layers.can_pack());
}

#[test]
fn packed_sequences_are_each_sequence_alone() {
    let mut layers = stack(2);
    layers.n_virtual_layers = Some((3, Schedule::Cyclic));
    layers.class_latents = vec![ClassLatent::Start, ClassLatent::Start];
    let starts = [0usize, 4, 9];
    let input = [0i64, 0, 5, -3, 0, 0, 7, 7, 2, 0, 0, 4];
    let packed = Packed::from_starts(&[starts.to_vec()], 2, 12);
    assert!(layers.can_pack());
    let pass = layers.forward_packed(&packed, true);
    assert!(pass.places);
    let placed = packed.place(&vec![input.to_vec()], &vec![1000, 1001]);
    let mut rows = tokens(&placed[0]);
    let mut caches = vec![99i64; 3];
    for (v, p) in pass.pass.passes.iter().enumerate() {
        assert_eq!(p.rows, rows.len());
        for (i, row) in rows.iter_mut().enumerate() {
            if packed.reset_bs[0][i] {
                caches[v] = 0;
            }
            let (state, out) = cell(caches[v], row, p.layer, p.residual);
            caches[v] = state;
            *row = out;
        }
    }
    for (i, &start) in starts.iter().enumerate() {
        let end = if i + 1 < starts.len() { starts[i + 1] } else { 12 };
        let own = tokens(&input[start + 2..end]);
        let (out, alone) = forward(&layers, &own);
        assert_eq!(out, rows[start..end].to_vec());
        if end == 12 {
            assert_eq!(alone, caches);
        }
    }
}

fn bidi(n_real: usize) -> BidiLayers {
    BidiLayers {
        n_real_layers: n_real,
        n_virtual_layers: None,
        real_layers: (0..n_real).map(|_| layer()).collect(),
        ignore_first_residual: false,
        ignore_last_residual: false,
        outputs_merge: vec![OutputMerge::Mean; n_real / 2],
        residuals: Residuals::Standard,
        class_latents: Vec::new(),
    }
}

#[test]
fn bidi_virtual_pairs_share_the_real_pair_merge() {
    let mut layers = bidi(4);
    layers.n_virtual_layers = Some((10, Default::default()));
    layers.outputs_merge = vec![OutputMergeConfig::CatLinear.init(8); 2];
    assert!(layers.is_valid());
    let pass = layers.forward(6, None, None);
    assert_eq!(pass.rows, 6);
    assert_eq!(
        layers.outputs_merge[0].forward([2, 6, 8], [2, 6, 8]),
        Some([2, 6, 8])
    );
    let merges: Vec<usize> = pass.pairs.iter().map(|p| p.merge).collect();
    assert_eq!(merges, vec![0, 1, 0, 1, 0]);
    for merge in 0..2 {
        assert!(
            merges.contains(&merge),
            "both real pairs' merges must be exercised, not dangling",
        );
    }
    let straight: Vec<usize> = pass.pairs.iter().map(|p| p.straight.layer).collect();
    let reverse: Vec<usize> = pass.pairs.iter().map(|p| p.reverse.layer).collect();
    assert_eq!(straight, vec![0, 2, 0, 2, 0]);
    assert_eq!(reverse, vec![1, 3, 1, 3, 1]);
    assert_eq!(pass.pairs[2].straight.application, 1);
    // Straight and reverse layers never share caches.
    let mut slots: Vec<usize> = pass
        .pairs
        .iter()
        .flat_map(|p| [p.straight.slot, p.reverse.slot])
        .collect();
    slots.sort();
    assert_eq!(slots, (0..10).collect::<Vec<_>>());
}

#[test]
fn bidi_layers_pair_up() {
    assert!(!bidi(3).is_valid());
    let mut odd = bidi(4);
    odd.n_virtual_layers = Some((5, BidiSchedule::StridedCyclic));
    assert!(!odd.is_valid());
    // A real pair past the merges.
    let mut dangling = bidi(3);
    dangling.n_virtual_layers = Some((2, BidiSchedule::Custom(vec![2, 0])));
    assert!(!dangling.is_valid());
    let mut ok = bidi(4);
    ok.residuals = gated(2, 2);
    ok.ignore_last_residual = true;
    assert!(ok.is_valid());
    let pass = ok.forward(3, None, None);
    assert_eq!(pass.pairs[0].residual, ResidualOp::Accumulate(0));
    assert_eq!(pass.pairs[1].residual, ResidualOp::Output);
    assert_eq!(pass.pairs[1].streams, 2);
    ok.residuals = gated(0, 2);
    assert!(!ok.is_valid());
}

/// What a merge makes of the two directions, over integers.
fn merged(merge: &OutputMerge, index: usize, straight: i64, reverse: i64) -> i64 {
    match merge {
        OutputMerge::Mean => straight.wrapping_add(reverse),
        OutputMerge::CatLinear(_) => straight
            .wrapping_mul(13)
            .wrapping_add(reverse.wrapping_mul(17))
            .wrapping_add(index as i64),
    }
}

/// The rows of slot `b` that the two directions read, in order, and where each
/// puts out every row.
fn directions(reads: &PairReads, n: usize, b: usize) -> [(Vec<usize>, Vec<usize>); 2] {
    let straight: Vec<usize> = (0..n).collect();
    match reads {
        PairReads::Flip => {
            let mut flipped = straight.clone();
            flipped.reverse();
            [(straight.clone(), straight), (flipped.clone(), flipped)]
        }
        PairReads::Slots {
            straight: order,
            reverse,
            padding,
        } => {
            let real = padding.pad_bs[b].iter().filter(|p| !**p).count();
            [order, reverse].map(|order| match order {
                Some(order) => (order.src_bs[b][..real].to_vec(), order.back_bs[b].clone()),
                None => (straight[..real].to_vec(), straight.clone()),
            })
        }
    }
}

/// Run the rows of slot `b` through one pair, whose directions are given by cache
/// and layer. The output of a padded row is junk.
fn run_pair(
    reads: &PairReads,
    rows: &[Token],
    b: usize,
    caches: &mut [i64],
    runs: [(usize, usize); 2],
    merge: impl Fn(i64, i64) -> i64,
    op: ResidualOp,
) -> Vec<Token> {
    let [straight, reverse] = directions(reads, rows.len(), b);
    let mut run = |(slot, layer): (usize, usize), src: &[usize]| -> Vec<i64> {
        src.iter()
            .map(|&i| {
                let (state, y) = block(caches[slot], rows[i].x, layer);
                caches[slot] = state;
                y
            })
            .collect()
    };
    let forwards = run(runs[0], &straight.0);
    let backwards = run(runs[1], &reverse.0);
    rows.iter()
        .enumerate()
        .map(|(i, row)| match reads {
            PairReads::Slots { padding, .. } if padding.pad_bs[b][i] => token(-1, 1),
            _ => {
                let y = merge(forwards[straight.1[i]], backwards[reverse.1[i]]);
                residual(row, y, op)
            }
        })
        .collect()
}

/// Run the rows of slot `b` through a bidirectional stack, along its plan.
fn run_bidi(
    layers: &BidiLayers,
    pass: &BidiPass,
    input: &[Token],
    b: usize,
) -> (Vec<Token>, Vec<i64>) {
    let mut caches: Vec<i64> = (0..2 * pass.pairs.len() as i64).collect();
    let mut rows = splice(&pass.segments, input, |i| token(1000 + i as i64, 1));
    assert_eq!(pass.rows, rows.len());
    for p in &pass.pairs {
        let runs = [
            (p.straight.slot, p.straight.layer),
            (p.reverse.slot, p.reverse.layer),
        ];
        let merge = |straight: i64, reverse: i64| {
            merged(&layers.outputs_merge[p.merge], p.merge, straight, reverse)
        };
        rows = run_pair(&pass.reads, &rows, b, &mut caches, runs, merge, p.residual);
    }
    (rows, caches)
}

/// The real rows of slot `b`, in its own order.
fn owned_rows(reads: &PairReads, rows: &[Token], b: usize) -> Vec<Token> {
    match reads {
        PairReads::Slots { padding, .. } => sequence(rows, padding, b),
        PairReads::Flip => rows.to_vec(),
    }
}

/// Run the padded batch and each slot alone. Compare every row that each slot
/// owns, and every cache.
fn check_each_bidi_slot_alone(layers: &BidiLayers, lens: &[usize]) {
    let padded = *lens.iter().max().unwrap();
    let padding = Padding::new(mask(lens, padded));
    assert!(layers.can_run(padded, &None, Some(&padding)));
    let pass = layers.forward(padded, None, Some(mask(lens, padded)));
    assert!(matches!(pass.reads, PairReads::Slots { .. }));
    for (b, &len) in lens.iter().enumerate() {
        let input = slot_input(b, padded);
        let solo = layers.forward(len, None, None);
        assert!(matches!(solo.reads, PairReads::Flip));
        let (y_solo, caches_solo) = run_bidi(layers, &solo, &input[..len], 0);
        let (rows, caches) = run_bidi(layers, &pass, &input, b);
        let owned = owned_rows(&pass.reads, &rows, b);
        assert_eq!(owned, y_solo, "slot {b} (length {len})");
        assert_eq!(caches, caches_solo, "slot {b} (length {len})");
    }
}

#[test]
fn padded_bidi_layers_are_each_slot_alone() {
    let mut layers = bidi(4);
    layers.class_latents = vec![ClassLatent::Start, ClassLatent::End, ClassLatent::Middle];
    layers.outputs_merge = vec![OutputMergeConfig::CatLinear.init(8); 2];
    assert!(layers.is_valid());
    check_each_bidi_slot_alone(&layers, &LENS);

    // Only the stack cursor moves.
    let pass = layers.forward(7, None, Some(mask(&LENS, 7)));
    assert_eq!(pass.class.stack, 10);
    assert!(pass.class.per_layer.is_empty());
}

#[test]
fn padded_virtual_pairs_are_each_slot_alone() {
    let mut layers = bidi(4);
    layers.class_latents = vec![ClassLatent::End, ClassLatent::Custom(2)];
    layers.n_virtual_layers = Some((6, BidiSchedule::StridedCyclic));
    layers.outputs_merge[1] = OutputMergeConfig::CatLinear.init(8);
    layers.residuals = gated(3, 2);
    assert!(layers.is_valid());
    check_each_bidi_slot_alone(&layers, &LENS);
    layers.class_latents = Vec::new();
    check_each_bidi_slot_alone(&layers, &[4, 0, 2]);
}

#[test]
fn a_padded_pair_is_each_slot_alone() {
    let pair = BidiLayerPair {
        output_merge: OutputMergeConfig::CatLinear.init(8),
        class_latents: vec![ClassLatent::Middle, ClassLatent::Start],
    };
    let run = |segments: &[Segment], reads: &PairReads, input: &[Token], b: usize| {
        let mut caches = vec![5, 6];
        let rows = splice(segments, input, |i| token(1000 + i as i64, 1));
        let merge = |straight: i64, reverse: i64| merged(&pair.output_merge, 0, straight, reverse);
        let out = run_pair(reads, &rows, b, &mut caches, [(0, 0), (1, 1)], merge, ResidualOp::Bare);
        (out, caches)
    };
    let pass = pair.forward(7, None, Some(mask(&LENS, 7)));
    for (b, &len) in LENS.iter().enumerate() {
        let input = slot_input(b, 7);
        let solo = pair.forward(len, None, None);
        let (y_solo, caches_solo) = run(&solo.segments, &solo.reads, &input[..len], 0);
        let (rows, caches) = run(&pass.segments, &pass.reads, &input, b);
        assert_eq!(owned_rows(&pass.reads, &rows, b), y_solo, "slot {b} (length {len})");
        assert_eq!(caches, caches_solo, "slot {b} (length {len})");
    }
}

#[test]
fn a_pair_splices_its_own_latents() {
    let pair = BidiLayerPair {
        output_merge: OutputMerge::Mean,
        class_latents: vec![ClassLatent::Start, ClassLatent::Custom(2)],
    };
    let first = pair.forward(2, Some(ClassCursor::at(0, Some(4))), None);
    assert_eq!(first.rows, 3);
    let rest = pair.forward(2, Some(first.class), None);
    assert_eq!(
        rest.segments,
        vec![Segment::Marker(1), Segment::Tokens { start: 0, len: 2 }]
    );
    let padded = pair.forward(3, None, Some(mask(&[3, 1], 3)));
    match padded.reads {
        PairReads::Slots {
            straight, padding, ..
        } => {
            assert!(straight.is_none());
            assert_eq!(padding.pad_bs[1], vec![false, false, true, true, true]);
        }
        PairReads::Flip => panic!("a padded batch is read slot by slot"),
    }
}

#[test]
fn merges_keep_their_width() {
    assert_eq!(OutputMergeConfig::mean(6), vec![OutputMergeConfig::Mean; 3]);
    assert_eq!(
        OutputMergeConfig::cat_linear(5),
        vec![OutputMergeConfig::CatLinear; 2]
    );
    let cat = OutputMergeConfig::CatLinear.init(4);
    assert_eq!(cat, OutputMerge::CatLinear(LinearShape::new(8, 4, true)));
    assert_eq!(cat.forward([1, 2, 4], [1, 2, 4]), Some([1, 2, 4]));
    assert_eq!(cat.forward([1, 2, 4], [1, 3, 4]), None);
    assert_eq!(cat.forward([1, 2, 5], [1, 2, 5]), None);
    assert_eq!(
        OutputMergeConfig::Mean.init(4).forward([1, 2, 5], [1, 2, 5]),
        Some([1, 2, 5])
    );
}

/// A captured step over integers: the held input and caches, and how often the
/// recording ran.
struct Captured<X, C, F> {
    plan: CapturedStep,
    step: F,
    input: X,
    caches: C,
}

impl<X: Clone, Y, C: Clone, F: FnMut(X, C) -> (Y, C)> Captured<X, C, F> {
    fn capture(hardware: bool, input: X, caches: C, mut step: F) -> Self {
        let mut held = caches;
        let mut saved = None;
        let (mut before, mut after) = (None, None);
        for action in capture_actions() {
            match action {
                CaptureAction::Own => {}
                CaptureAction::Save => saved = Some(held.clone()),
                CaptureAction::Identify => before = Some(vec![1, 2]),
                CaptureAction::Warm => held = step(input.clone(), held).1,
                CaptureAction::Record => {
                    for _ in 0..4 {
                        held = step(input.clone(), held).1;
                    }
                }
                CaptureAction::Restore => held = saved.take().unwrap(),
                CaptureAction::Check => after = Some(vec![1, 2]),
            }
        }
        let plan = CapturedStep::capture(vec![vec![1]], hardware, &before, &after);
        assert_eq!(plan.is_captured(), hardware);
        Captured {
            plan,
            step,
            input,
            caches: held,
        }
    }

    fn step(&mut self, x: X) -> Y {
        let mode = self.plan.step(&vec![vec![1]]).unwrap();
        let mut output = None;
        for action in mode.actions() {
            let x = match action {
                StepAction::Refresh => {
                    self.input = x.clone();
                    continue;
                }
                StepAction::Run => x.clone(),
                StepAction::Replay => self.input.clone(),
            };
            let (y, caches) = (self.step)(x, self.caches.clone());
            self.caches = caches;
            output = Some(y);
        }
        output.unwrap()
    }
}

/// One step of a stack on integers, without cursors.
fn stack_step(layers: &Layers, t: Token, mut caches: Vec<i64>) -> (Token, Vec<i64>) {
    let pass = layers.step(None, false);
    let mut out = run(&pass, &[t], &mut caches);
    (out.pop().unwrap(), caches)
}

#[test]
fn captured_token_steps_are_the_eager_steps() {
    let mut layers = stack(2);
    layers.class_latents = vec![ClassLatent::Start, ClassLatent::Start];
    assert!(layers.only_start_latents());
    let input = tokens(&[3, 1, 4, 1, 5]);
    let mut opening = vec![0; 2];
    let prime = layers.prime(Some(ClassCursors::stream()), false, false);
    let pass = prime.pass.unwrap();
    run(&pass, &[], &mut opening);
    let (_, opening) = stack_step(&layers, input[0].clone(), opening);

    let mut caches = opening.clone();
    let mut eager = Vec::new();
    for t in &input[1..] {
        let (y, next) = stack_step(&layers, t.clone(), caches);
        eager.push(y);
        caches = next;
    }
    for hardware in [true, false] {
        let mut captured = Captured::capture(hardware, input[1].clone(), opening.clone(), |t, c| {
            stack_step(&layers, t, c)
        });
        assert_eq!(captured.caches, opening, "a capture steps nothing");
        // A second round restarts from the caches that are set.
        for _ in 0..2 {
            let out: Vec<Token> = input[1..].iter().map(|t| captured.step(t.clone())).collect();
            assert_eq!(out, eager);
            assert_eq!(captured.caches, caches);
            captured.caches = opening.clone();
        }
        assert!(!captured.plan.into_caches().is_captured());
    }
}

#[test]
fn captured_latent_steps_are_the_eager_steps() {
    let layers = stack(2);
    let input = tokens(&[2, 7, 1, 8]);
    let (eager, eager_caches) = steps(&layers, &input, None);
    let (y0, caches) = stack_step(&layers, input[0].clone(), vec![0; 2]);
    assert_eq!(y0, eager[0]);
    for hardware in [true, false] {
        let mut captured = Captured::capture(hardware, input[1].clone(), caches.clone(), |t, c| {
            stack_step(&layers, t, c)
        });
        for k in 1..input.len() {
            assert_eq!(captured.step(input[k].clone()), eager[k]);
        }
        assert_eq!(captured.caches, eager_caches);
    }
}

#[test]
fn captured_forward_is_the_eager_forward() {
    let layers = stack(2);
    let calls = [tokens(&[1, 2, 3]), tokens(&[4, 5, 6]), tokens(&[7, 8, 9])];
    for hardware in [true, false] {
        let mut captured = Captured::capture(hardware, calls[0].clone(), (), |x: Vec<Token>, ()| {
            (forward(&layers, &x).0, ())
        });
        for x in &calls {
            assert_eq!(captured.step(x.clone()), forward(&layers, x).0);
        }
    }
}
