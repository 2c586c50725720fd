use burn_stack::modules::bidi::{OutputMerge, OutputMergeConfig};
use burn_stack::modules::block::BlockConfig;
use burn_stack::modules::builder::LayersBuilder;
use burn_stack::modules::cache::CacheStack;
use burn_stack::modules::gqa::{can_expand, gqa_expand_to_heads};
use burn_stack::modules::layer::{
    can_build_layer, Layer, LayerShape, LayerUntied, LayerView,
};
use burn_stack::modules::linear::LinearShape;
use burn_stack::modules::mlp::{can_round_up, round_up, GatedMlpConfig};
use burn_stack::modules::multi_gate::{MultiGate, ResidualOp, Residuals, ResidualsConfig};
use burn_stack::modules::network::{LatentNetworkBuilder, VocabNetworkBuilder};
use burn_stack::modules::shape::{BidiShape, LatentShape, NetworkShape, VocabShape};
use burn_stack::optim::spec::ProjSpec;
use burn_stack::utils::class::splice::Segment;
use burn_stack::utils::class::{ClassCursor, ClassLatent, ClassToken};
use burn_stack::utils::graph::{
    capture_actions, landed_in_place, push_id, stable_ids, warmup_steps, whole, zip_tensors,
    CaptureAction, CapturedStep, StepMode, WeightMeta,
};
use burn_stack::utils::init::{Draw, InitPolicy, ParamSite};
use burn_stack::utils::schedule::{BidiSchedule, GradHorizon, Schedule};
use burn_stack::utils::text::{contains, decimal_text, join, list_text, pad_left, pad_right};
use burn_stack::utils::untied::{axis_of, copy_len, retie, tile, view, UntiedParam};

#[derive(Debug, Clone)]
struct Block {
    d_model: usize,
}

impl BlockConfig for Block {
    fn d_model(&self) -> usize {
        self.d_model
    }

    fn muon_projections(&self) -> Vec<ProjSpec> {
        vec![ProjSpec::block_whole("in_proj.weight", self.d_model)]
    }
}

#[test]
fn hidden_rounds_up_to_multiple_of() {
    for (d_intermediate, hidden) in [(1264, 1280), (1536, 1536), (1, 128), (129, 256)] {
        let config = GatedMlpConfig::new(768, d_intermediate);
        assert_eq!(config.hidden(), hidden, "d_intermediate {d_intermediate}");
        let mlp = config.init();
        assert_eq!(mlp.hidden(), hidden);
        assert_eq!(mlp.fc1.weight_dims(), [768, 2 * hidden]);
        assert_eq!(mlp.fc2.weight_dims(), [hidden, 768]);
    }
}

#[test]
fn the_value_half_comes_first() {
    let mlp = GatedMlpConfig::new(16, 100).with_has_proj_bias(true).init();
    assert_eq!(mlp.halves(), [(0, 128), (128, 128)]);
    assert!(mlp.fc1.has_bias && mlp.fc2.has_bias);
    assert_eq!(
        GatedMlpConfig::new(16, 100).with_multiple_of(7).hidden(),
        105
    );
    assert!(!GatedMlpConfig::new(16, 1).with_multiple_of(0).can_init());
    assert!(!GatedMlpConfig::new(16, usize::MAX).can_init());
    assert!(GatedMlpConfig::new(16, 100).can_init());
    assert_eq!(round_up(129, 64), 192);
    assert!(!can_round_up(usize::MAX, 2));
    assert!(can_round_up(usize::MAX, 1));
}

#[test]
fn groups_expand_to_heads() {
    let dims = vec![2, 5, 3, 7];
    let shapes = gqa_expand_to_heads(&dims, 2, 12);
    assert_eq!(shapes.expanded, vec![2, 5, 3, 4, 7]);
    assert_eq!(shapes.final_shape, vec![2, 5, 12, 7]);
    assert!(can_expand(&dims, 2, 12));
    assert!(!can_expand(&dims, 2, 13));
    assert!(!can_expand(&dims, 4, 12));
    assert!(!can_expand(&vec![0], 0, 12));
}

const DEPTH: usize = 4;

fn policy() -> InitPolicy {
    InitPolicy::default()
        .with_residual_paths(InitPolicy::default_residual_paths())
        .with_residual_depth(Some(DEPTH))
}

fn names(path: &str) -> Vec<String> {
    path.split('.').map(String::from).collect()
}

fn draw(policy: &InitPolicy, path: &str, rank: usize) -> Draw {
    policy.map_float(&names(path), rank)
}

#[test]
fn weights_are_redrawn_and_biases_zeroed() {
    let policy = policy();
    assert_eq!(
        draw(&policy, "layers.real_layers.0.block.in_proj.weight", 2),
        Draw::Normal { depth: None }
    );
    assert_eq!(draw(&policy, "in_proj.bias", 1), Draw::Zero);
    assert_eq!(
        draw(&policy.clone().with_zero_bias(false), "in_proj.bias", 1),
        Draw::Keep
    );
}

#[test]
fn residual_weights_are_rescaled_by_depth() {
    let policy = policy();
    for path in [
        "layers.real_layers.0.block.out_proj.weight",
        "layers.real_layers.0.mlp.fc2.weight",
    ] {
        assert_eq!(
            draw(&policy, path, 2),
            Draw::Normal { depth: Some(DEPTH) },
            "{path}"
        );
    }
    // The input map of the mixer is not on the residual path.
    assert_eq!(policy.std_for("layers.real_layers.0.block.in_proj.weight"), None);
    assert_eq!(policy.std_for("block.out_proj.weight"), Some(4));
    let stated = policy.clone().with_default_residual_depth(9);
    assert_eq!(stated.residual_depth, Some(4));
    let unstated = policy.with_residual_depth(None);
    assert!(!unstated.has_depth_for("block.out_proj.weight"));
    assert!(unstated.has_depth_for("block.in_proj.weight"));
    // Only a matrix is rescaled, so only a matrix needs the depth.
    let path: Vec<String> = ["block", "out_proj", "weight"].map(String::from).to_vec();
    assert!(!unstated.can_map_float(&path, 2));
    assert!(unstated.can_map_float(&path, 1));
    assert_eq!(unstated.map_float(&path, 1), Draw::Keep);
    assert_eq!(unstated.with_default_residual_depth(9).residual_depth, Some(9));
}

#[test]
fn bespoke_parameters_are_left_alone() {
    let policy = policy();
    let sites: Vec<ParamSite> = [
        ("layers.real_layers.0.block.decay_raw", 1),
        ("layers.real_layers.0.norm.gamma", 1),
        ("block.conv.weight", 3),
        ("block.weight", 1),
        ("block.bias", 2),
    ]
    .into_iter()
    .map(|(path, rank)| ParamSite {
        path: names(path),
        rank,
    })
    .collect();
    assert_eq!(policy.apply(&sites), vec![Draw::Keep; 5]);
    assert_eq!(policy.map_float(&Vec::new(), 2), Draw::Keep);
}

#[test]
fn copies_fill_the_untied_axis() {
    let dims = vec![3, 4];
    assert_eq!(tile(&dims, 1, 5), vec![3, 20]);
    assert_eq!(tile(&dims, 0, 1), vec![3, 4]);
    let tiled = vec![3, 20];
    assert_eq!(copy_len(&tiled, 1, 5), 4);
    assert_eq!(view(&tiled, 1, 0, 5), (0, 4));
    assert_eq!(view(&tiled, 1, 4, 5), (16, 4));
    let params = [UntiedParam::new(8, 2, 1), UntiedParam::new(9, 1, 0)];
    assert_eq!(axis_of(&params, 9), Some(0));
    assert_eq!(axis_of(&params, 8), Some(1));
    assert_eq!(axis_of(&params, 7), None);
    assert!(retie(&params, 5));
    assert!(!retie(&params, 1));
    assert!(!retie(&[], 5));
}

fn layer() -> Layer {
    Layer {
        norm: 1,
        norm2: Some(2),
        block_untied: vec![UntiedParam::new(7, 2, 1)],
        class_latents: vec![ClassLatent::Start, ClassLatent::Custom(2)],
        untied: vec![LayerUntied::Norm],
        n_applications: 3,
    }
}

#[test]
fn a_layer_unties_its_norms_then_its_block() {
    let layer = layer();
    assert!(layer.is_valid());
    let params = vec![UntiedParam { id: 1, axis: 0 }, UntiedParam { id: 7, axis: 1 }];
    assert_eq!(layer.untied_params(), params);
    assert!(layer.has_untied());
    assert!(layer.covers_application(2));
    assert!(!layer.covers_application(3));
    assert_eq!(
        layer.application(2),
        LayerView::Copy {
            params: params.clone(),
            application: 2,
            n_applications: 3
        }
    );
    assert_eq!(layer.retie(), params);
    let once = Layer {
        n_applications: 1,
        ..layer.clone()
    };
    assert_eq!(once.application(5), LayerView::Itself);
    assert!(once.retie().is_empty());
    assert!(!once.has_untied());
    let bare = Layer {
        norm2: None,
        untied: vec![LayerUntied::Norm2],
        ..layer
    };
    assert!(!bare.is_valid());
}

#[test]
fn a_layer_steps_its_latents_around_the_token() {
    let layer = layer();
    let (segments, cursor) = layer.insert_latents(4, None);
    assert_eq!(
        segments,
        vec![
            Segment::Marker(0),
            Segment::Tokens { start: 0, len: 2 },
            Segment::Marker(1),
            Segment::Tokens { start: 2, len: 2 },
        ]
    );
    assert_eq!(cursor, ClassCursor::at(6, Some(4)));
    let (segments, cursor) = layer.step(Some(ClassCursor::at(3, None)));
    assert_eq!(
        segments,
        vec![Segment::Marker(1), Segment::Tokens { start: 0, len: 1 }]
    );
    assert_eq!(cursor, Some(ClassCursor::at(5, None)));
    let (segments, cursor) = layer.step(None);
    assert_eq!(segments, vec![Segment::Tokens { start: 0, len: 1 }]);
    assert_eq!(cursor, None);
    let (segments, _) = layer.prime(Some(ClassCursor::at(0, None)));
    assert_eq!(segments, vec![Segment::Marker(0)]);
    assert!(layer.prime(None).0.is_empty());
}

#[test]
fn an_untied_norm_holds_one_gain_per_application() {
    let mlp = GatedMlpConfig::new(8, 8);
    let shape = LayerShape::init(8, Some(&mlp), &vec![LayerUntied::Norm2], 3);
    assert_eq!(shape.norm, 8);
    assert_eq!(shape.norm2, Some(24));
    assert_eq!(shape.mlp.map(|m| m.hidden()), Some(128));
    let shape = LayerShape::init(8, None, &vec![LayerUntied::Norm], 3);
    assert_eq!(shape.norm, 24);
    assert_eq!(shape.norm2, None);
    assert!(!can_build_layer(8, None, &vec![LayerUntied::Norm2], 3));
    assert!(!can_build_layer(
        usize::MAX,
        None,
        &vec![LayerUntied::Norm],
        2
    ));
    assert!(can_build_layer(8, None, &Vec::new(), 0));
}

#[test]
fn gates_are_shared_or_one_per_virtual_layer() {
    let shared = ResidualsConfig::MultiGate {
        n_stream: 3,
        per_virtual_layer: false,
    };
    let residuals = shared.init(2, 6);
    assert_eq!(
        residuals,
        Residuals::MultiGate(MultiGate {
            n_modules: 2,
            n_stream: 3,
            per_virtual: false
        })
    );
    assert_eq!(
        residuals.step(false, false, 3, 5, 1),
        (ResidualOp::Mix(1), 3)
    );
    assert_eq!(
        residuals.step(false, false, 2, 5, 1),
        (ResidualOp::Accumulate(1), 3)
    );
    let own = ResidualsConfig::MultiGate {
        n_stream: 3,
        per_virtual_layer: true,
    };
    assert_eq!(
        own.init(2, 6).step(false, false, 3, 5, 1),
        (ResidualOp::Mix(5), 3)
    );
    assert_eq!(ResidualsConfig::Standard.init(2, 6), Residuals::Standard);
}

#[test]
fn a_builder_sizes_its_stack() {
    let builder = LayersBuilder::new(2, Block { d_model: 8 })
        .with_n_virtual_layers(Some((5, Schedule::Cyclic)))
        .with_untied(vec![LayerUntied::Norm])
        .with_mlp(Some(GatedMlpConfig::new(8, 16)))
        .with_class_latents(vec![ClassLatent::Start, ClassLatent::End])
        .with_residuals(ResidualsConfig::MultiGate {
            n_stream: 2,
            per_virtual_layer: true,
        })
        .with_ignore_first_residual(true)
        .with_ignore_last_residual(true)
        .with_grad_horizon(Some(GradHorizon::last(2, 5)));
    assert!(builder.can_build());
    let shape = builder.init();
    assert_eq!(shape.real_layers.len(), 2);
    assert_eq!(shape.real_layers[0].n_applications, 3);
    assert_eq!(shape.real_layers[0].norm, 24);
    assert_eq!(shape.real_layers[1].norm, 16);
    assert_eq!(shape.real_layers[1].norm2, Some(8));
    assert_eq!(shape.class_latents_emb, Some([2, 8]));
    assert_eq!(
        shape.residuals,
        Residuals::MultiGate(MultiGate {
            n_modules: 5,
            n_stream: 2,
            per_virtual: true
        })
    );
    let bad = LayersBuilder::new(2, Block { d_model: 8 })
        .with_n_virtual_layers(Some((2, Schedule::Custom(vec![0, 2]))));
    assert!(!bad.can_build());
}

#[test]
fn a_latent_network_projects_at_both_ends() {
    let builder = LatentNetworkBuilder {
        input_size: 4,
        layers: LayersBuilder::new(2, Block { d_model: 8 }),
        output_size: 3,
        final_norm: true,
        class_tokens: vec![ClassToken::Start],
    };
    let shape = builder.init();
    assert_eq!(shape.in_proj, LinearShape::new(4, 8, true));
    assert_eq!(shape.out_proj, LinearShape::new(8, 3, true));
    assert_eq!(shape.norm_f, Some(8));
    assert_eq!(shape.class_tokens_emb, Some([1, 4]));
}

#[test]
fn a_vocabulary_is_padded() {
    type Vocab = VocabNetworkBuilder<Block>;
    assert_eq!(Vocab::padded_vocab(50257, 128), 50304);
    assert_eq!(Vocab::padded_vocab(128, 128), 128);
    assert_eq!(Vocab::padded_vocab(11, 1), 11);
    assert_eq!(Vocab::padded_vocab(0, 0), 0);
    let builder = VocabNetworkBuilder {
        vocab_size: 11,
        pad_vocab_size_multiple: 8,
        layers: LayersBuilder::new(1, Block { d_model: 4 }),
        missing_lm_head: false,
    };
    assert!(builder.can_build());
    let shape = builder.init();
    assert_eq!(shape.embedding, [16, 4]);
    assert_eq!(shape.norm_f, 4);
    assert_eq!(shape.lm_head, Some(LinearShape::new(4, 16, false)));
    let tied = VocabNetworkBuilder {
        missing_lm_head: true,
        ..builder.clone()
    };
    assert_eq!(tied.init().lm_head, None);
    let bad = VocabNetworkBuilder {
        pad_vocab_size_multiple: 0,
        ..builder
    };
    assert!(!bad.can_build());
}

#[test]
fn a_shape_counts_its_residual_branches() {
    let mut shape = NetworkShape::new(3);
    assert_eq!(shape.residuals_per_layer(), 1);
    assert_eq!(shape.n_applied_layers(), 3);
    assert!(shape.init_policy().is_none());
    shape.mlp = Some(GatedMlpConfig::new(8, 16));
    shape.n_virtual_layers = Some((7, Schedule::Cyclic));
    shape.init =
        Some(InitPolicy::default().with_residual_paths(InitPolicy::default_residual_paths()));
    assert_eq!(shape.residuals_per_layer(), 2);
    assert_eq!(shape.n_applied_layers(), 7);
    let policy = shape.init_policy().unwrap();
    assert_eq!(policy.residual_depth, Some(14));
    assert_eq!(policy.std_for("block.out_proj.weight"), Some(14));
    shape.init = Some(policy.with_residual_depth(Some(3)));
    assert_eq!(shape.init_policy().unwrap().residual_depth, Some(3));
    let plan = shape.muon_plan(&Block { d_model: 8 });
    assert_eq!(plan.specs.len(), 3);
    assert_eq!(plan.specs[0].path, "in_proj.weight");
    let built = shape.init(Block { d_model: 8 });
    assert_eq!(built.real_layers[0].n_applications, 3);
    assert_eq!(shape.layers(Block { d_model: 8 }).n_real_layers, 3);
}

#[test]
fn shapes_wrap_a_stack() {
    let latent = LatentShape::new(4, 3, NetworkShape::new(2));
    let shape = latent.init(Block { d_model: 8 });
    assert_eq!(shape.norm_f, None);
    assert_eq!(shape.class_tokens_emb, None);
    assert_eq!(latent.build(Block { d_model: 8 }).input_size, 4);
    let vocab = VocabShape::new(11, NetworkShape::new(2));
    assert_eq!(vocab.init(Block { d_model: 8 }).embedding, [11, 8]);
    assert!(vocab.build(Block { d_model: 8 }).missing_lm_head);
    let mut bidi = BidiShape::new(4, OutputMergeConfig::cat_linear(4));
    bidi.n_virtual_layers = Some((10, BidiSchedule::StridedCyclic));
    bidi.untied = vec![LayerUntied::Norm];
    assert!(bidi.build(Block { d_model: 8 }).can_build());
    let shape = bidi.init(Block { d_model: 8 });
    assert_eq!(shape.stack.real_layers[0].norm, 24);
    assert_eq!(shape.stack.real_layers[3].norm, 16);
    assert_eq!(
        shape.outputs_merge,
        vec![OutputMerge::CatLinear(LinearShape::new(16, 8, true)); 2]
    );
    assert_eq!(bidi.muon_plan(&Block { d_model: 8 }).specs.len(), 1);
    bidi.outputs_merge = OutputMergeConfig::mean(2);
    assert!(!bidi.build(Block { d_model: 8 }).can_build());
}

/// A cache of one number, and the side of the graph that it lives on.
#[derive(Debug, Clone, PartialEq, Eq)]
struct Cache {
    value: u64,
    graph: Option<u64>,
    inner: bool,
}

struct Caches(Vec<Cache>);

impl CacheStack for Caches {
    type Cache = Cache;

    fn slot_count(&self) -> usize {
        self.0.len()
    }

    fn into_slots(self) -> Vec<Option<Cache>> {
        self.0.into_iter().map(Some).collect()
    }

    fn from_slots(slots: Vec<Option<Cache>>) -> Self {
        Caches(slots.into_iter().map(Option::unwrap).collect())
    }

    fn cache_to_inner(cache: Cache) -> Cache {
        Cache {
            graph: None,
            inner: true,
            ..cache
        }
    }

    fn cache_from_inner(cache: Cache) -> Cache {
        Cache {
            inner: false,
            ..cache
        }
    }
}

#[test]
fn detach_keeps_the_values_and_their_order() {
    let caches = Caches(
        (0..3)
            .map(|value| Cache {
                value,
                graph: Some(10 + value),
                inner: false,
            })
            .collect(),
    );
    assert_eq!(caches.slot_count(), 3);
    let detached = caches.detach();
    assert_eq!(
        detached.0,
        (0..3)
            .map(|value| Cache {
                value,
                graph: None,
                inner: false
            })
            .collect::<Vec<_>>()
    );
}

#[test]
fn a_capture_steps_no_cache() {
    // A step that counts itself, and a recording that runs it any number of
    // times.
    for runs in [0, 1, 3] {
        let mut cache = 5;
        let mut saved = None;
        for action in capture_actions() {
            match action {
                CaptureAction::Save => saved = Some(cache),
                CaptureAction::Warm => cache += 1,
                CaptureAction::Record => cache += runs,
                CaptureAction::Restore => cache = saved.unwrap(),
                _ => {}
            }
        }
        assert_eq!(cache, 5);
    }
}

#[test]
fn a_recording_is_kept_where_every_buffer_stayed() {
    assert_eq!(
        stable_ids(&vec![Some(1)], &vec![Some(2), Some(3)]),
        Some(vec![1, 2, 3])
    );
    assert_eq!(stable_ids(&vec![Some(1)], &vec![None]), None);
    let mut ids = Some(vec![4]);
    push_id(&mut ids, Some(5));
    assert_eq!(ids, Some(vec![4, 5]));
    push_id(&mut ids, None);
    push_id(&mut ids, Some(6));
    assert_eq!(ids, None);
    let before = Some(vec![1, 2]);
    let moved = Some(vec![1, 3]);
    assert!(landed_in_place(&before, &before));
    assert!(!landed_in_place(&before, &moved));
    assert!(!landed_in_place(&None, &None));

    let input = vec![vec![2, 8]];
    let step = CapturedStep::capture(input.clone(), true, &before, &before);
    assert!(step.is_captured());
    assert_eq!(step.step(&input), Some(StepMode::Replay));
    assert_eq!(step.step(&vec![vec![2, 9]]), None);
    assert!(!step.accepts(&vec![vec![2, 8], vec![1]]));
    assert!(step.set_caches(&before, &before));
    assert!(!step.set_caches(&before, &moved));
    assert!(step.set_caches(&None, &moved));
    assert!(!step.into_caches().is_captured());
    for (hardware, after) in [(false, &before), (true, &moved)] {
        let eager = CapturedStep::capture(input.clone(), hardware, &before, after);
        assert!(!eager.is_captured());
        assert_eq!(eager.step(&vec![vec![9]]), Some(StepMode::Eager));
        assert!(eager.set_caches(&before, &moved));
    }
    assert_eq!(whole(&vec![2, 3]), vec![(0, 2), (0, 3)]);
}

#[test]
fn a_tuned_capture_warms_up_longer() {
    assert_eq!(warmup_steps(true), 1);
    assert_eq!(warmup_steps(false), 0);
}

#[test]
fn two_modules_zip_parameter_by_parameter() {
    let meta = |elements, autodiff| WeightMeta {
        elements,
        autodiff,
        checkpointed: true,
        require_grad: true,
    };
    let mine = vec![meta(6, true), meta(4, false)];
    let steps = zip_tensors(&mine, &vec![6, 4]).unwrap();
    assert_eq!(steps[0].other, 0);
    assert_eq!(steps[0].elements, 6);
    assert!(steps[0].lift && steps[0].checkpoint && steps[0].require_grad);
    assert_eq!(steps[1].other, 1);
    assert!(!steps[1].lift && !steps[1].checkpoint && !steps[1].require_grad);
    assert_eq!(zip_tensors(&mine, &vec![6]), None);
    assert_eq!(zip_tensors(&mine, &vec![6, 5]), None);
}

#[test]
fn texts_are_laid_out() {
    assert!(contains("a.block.w", "block."));
    assert!(!contains("a.blocks", "block."));
    assert!(contains("a", ""));
    assert!(!contains("", "a"));
    assert_eq!(decimal_text(0), "0");
    assert_eq!(decimal_text(90210), "90210");
    assert_eq!(pad_left("7", 3), "  7");
    assert_eq!(pad_right("7", 3), "7  ");
    assert_eq!(pad_right("1234", 3), "1234");
    assert_eq!(list_text(&vec![4, 8]), "[4, 8]");
    assert_eq!(list_text(&Vec::new()), "[]");
    assert_eq!(join(&vec!["a".to_string(), "b".to_string()], "."), "a.b");
    assert_eq!(join(&Vec::new(), "."), "");
}
