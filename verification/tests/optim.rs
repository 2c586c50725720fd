use burn_stack::modules::mlp::GatedMlpConfig;
use burn_stack::optim::plan::{GroupOptim, MuonPlan};
use burn_stack::optim::report::ParamRow;
use burn_stack::optim::segmented::{
    state_unflatten, BlockLeaves, BlockOptim, BlockState, BlockStep, Fallback, Segmented,
};
use burn_stack::optim::sgd::{SgdConfig, SgdOp};
use burn_stack::optim::spec::{ProjScope, ProjSegment, ProjSpec, BLOCK_CONTAINERS};
use burn_stack::utils::graph::WeightMeta;

fn row(path: &str, dims: &[usize], id: u64) -> ParamRow {
    ParamRow {
        path: path.to_string(),
        dims: dims.to_vec(),
        id,
    }
}

const D_MODEL: usize = 8;

/// The three projections of a gated block, plain square maps.
fn projections() -> Vec<ProjSpec> {
    vec![
        ProjSpec::block_whole("in_proj.weight", D_MODEL),
        ProjSpec::block_whole("gate_proj.weight", D_MODEL),
        ProjSpec::block_whole("out_proj.weight", D_MODEL),
    ]
}

fn model_rows(n_layers: usize) -> Vec<ParamRow> {
    let mut rows = Vec::new();
    for i in 0..n_layers {
        let id = 10 * i as u64;
        let at = |field: &str| format!("real_layers.{i}.{field}");
        let square = [D_MODEL, D_MODEL];
        rows.push(row(&at("norm.gamma"), &[D_MODEL], id));
        rows.push(row(&at("block.in_proj.weight"), &square, id + 1));
        rows.push(row(&at("block.gate_proj.weight"), &square, id + 2));
        rows.push(row(&at("block.out_proj.weight"), &square, id + 3));
        rows.push(row(&at("block.decay_raw"), &[D_MODEL], id + 4));
    }
    rows
}

#[test]
fn muon_plan_matches_only_existing_rank_2_weights() {
    let plan = MuonPlan::new(projections());
    let rows = model_rows(2);
    assert!(plan.can_describe(&rows));
    let report = plan.describe(&rows);
    let mut on_muon = 0;
    for line in report.text.lines().filter(|l| l.contains("muon[")) {
        on_muon += 1;
        assert!(
            line.trim_start().starts_with("2D"),
            "Muon only ever owns rank-2 weights: {line}",
        );
    }
    assert_eq!(on_muon, 6, "3 listed weights x 2 real layers");
    for line in report.text.lines().filter(|l| l.contains("decay_raw")) {
        assert!(
            line.ends_with("adamw"),
            "the rank-1 decay stays on the fallback optimizer: {line}",
        );
    }
    assert_eq!(report.total, 2 * (8 + 64 + 64 + 64 + 8));
    assert_eq!(report.on_muon, 2 * (64 + 64 + 64));
}

#[test]
fn a_report_line_is_laid_out_in_columns() {
    let plan = MuonPlan::new(vec![ProjSpec::block(
        "in_proj.weight",
        vec![ProjSegment::muon("x", 6), ProjSegment::adamw("dt", 2)],
    )]);
    let path = "real_layers.0.block.in_proj.weight";
    let rows = vec![row(path, &[4, 8], 1), row("lm_head.weight", &[3, 5], 2)];
    let report = plan.describe(&rows);
    let lines: Vec<&str> = report.text.lines().collect();
    assert_eq!(
        lines[0],
        format!(" 2D {path:<62} [4, 8] (32)  muon[x:6 dt:2*]")
    );
    assert_eq!(
        lines[1],
        format!(" 2D {:<62} [3, 5] (15)  adamw", "lm_head.weight")
    );
    assert_eq!(report.total, 47);
    assert_eq!(report.on_muon, 24);
    assert_eq!(plan.describe(&Vec::new()).text, "");
    assert!(!plan.can_describe(&vec![row("w", &[usize::MAX, 2], 1)]));
    assert!(!plan.can_describe(&vec![row(path, &[], 1)]));
}

#[test]
fn the_last_spec_that_selects_a_parameter_owns_it() {
    let plan = MuonPlan::new(vec![
        ProjSpec::path_whole("weight", 1),
        ProjSpec::block_whole("in_proj.weight", 2),
    ]);
    assert_eq!(plan.owner_of(3, "a.block.in_proj.weight"), Some(1));
    assert_eq!(plan.owner_of(3, "a.in_proj.weight"), Some(0));
    assert_eq!(plan.owner_of(3, "a.in_proj.bias"), None);
}

#[test]
fn an_opted_out_spec_owns_nothing() {
    let path = "real_layers.0.block.in_proj.weight";
    let rows = vec![row(path, &[4, 8], 1)];
    let out = MuonPlan::new(vec![ProjSpec::block_whole("in_proj.weight", 8)]).without_segment("all");
    assert!(out.build().groups.is_empty());
    assert_eq!(out.owner_of(1, path), None);
    let report = out.describe(&rows);
    assert_eq!(report.text, format!(" 2D {path:<62} [4, 8] (32)  adamw\n"));
    assert_eq!(report.on_muon, 0);
    let hidden = MuonPlan::new(vec![ProjSpec::path_whole("in_proj.weight", 8)]).extend(out);
    assert_eq!(hidden.owner_of(1, path), Some(0));
    let report = hidden.describe(&rows);
    assert!(report.text.ends_with("muon[all:8]\n"));
    assert_eq!(report.on_muon, 32);
    assert_eq!(hidden.build().groups.len(), 1);
}

#[test]
fn a_tiled_weight_counts_every_copy() {
    let plan = MuonPlan::new(vec![ProjSpec::block(
        "in_proj.weight",
        vec![
            ProjSegment::muon("x", 6),
            ProjSegment::adamw("dt", 2),
            ProjSegment::muon("z", 4),
        ],
    )
    .tiled()]);
    let path = "real_layers.0.block.in_proj.weight";
    let rows = vec![row(path, &[2, 24], 1)];
    assert!(plan.can_describe(&rows));
    let report = plan.describe(&rows);
    assert_eq!(report.total, 48);
    assert_eq!(report.on_muon, 40);
    assert!(!plan.can_describe(&vec![row(path, &[2], 1)]));
}

#[test]
fn a_group_selects_by_every_substring() {
    let spec = ProjSpec::block_whole(String::from("in_proj.weight"), 4);
    assert_eq!(spec.scope, ProjScope::Block);
    assert_eq!(spec.predicates(), vec!["block.", "in_proj.weight"]);
    for container in BLOCK_CONTAINERS {
        let path = format!("real_layers.0.{container}Variant.in_proj.weight");
        assert!(spec.selects_param(7, &path));
        let id = burn::module::ParamId::from(7);
        assert!(spec.param_group().matches(&id, Some(path.as_str())));
    }
    assert!(!spec.selects_param(7, "in_proj.weight"));
    assert!(!spec.selects_param(7, "real_layers.0.block.in_proj.bias"));
    assert!(ProjSpec::path_whole("in_proj.weight", 4).selects_param(7, "in_proj.weight"));
}

#[test]
fn widths_count_columns() {
    let spec = ProjSpec::block(
        "in_proj.weight",
        vec![
            ProjSegment::muon("z", 16),
            ProjSegment::adamw("dt", 4),
            ProjSegment::muon("x", 16),
        ],
    );
    assert_eq!(spec.width(), 36);
    assert_eq!(spec.muon_width(), 32);
    assert_eq!(spec.checked_muon_width(), Some(32));
    assert!(spec.has_muon());
    assert!(!spec.is_whole_muon());
    let whole = ProjSpec::block_whole("out_proj.weight", 8);
    assert!(whole.is_whole_muon());
    assert!(!whole.clone().tiled().is_whole_muon());
    let huge = ProjSpec::path(
        "w",
        vec![
            ProjSegment::muon("a", usize::MAX),
            ProjSegment::muon("b", 1),
        ],
    );
    assert_eq!(huge.checked_muon_width(), None);
}

#[test]
fn a_plan_groups_only_what_muon_owns() {
    let plan = MuonPlan::new(vec![
        ProjSpec::block("a.weight", vec![ProjSegment::adamw("all", 4)]),
        ProjSpec::block_whole("b.weight", 4),
        ProjSpec::block(
            "c.weight",
            vec![ProjSegment::muon("x", 4), ProjSegment::adamw("y", 4)],
        ),
        ProjSpec::block_whole("d.weight", 4).tiled(),
    ]);
    let planned = plan.build();
    assert_eq!(planned.fallback, Fallback::AdamW);
    let groups = planned.groups;
    assert!(groups.iter().all(|g| g.clipping));
    let specs: Vec<usize> = groups.iter().map(|g| g.spec).collect();
    assert_eq!(specs, vec![1, 2, 3]);
    assert_eq!(groups[0].optim, GroupOptim::Muon);
    let GroupOptim::Segmented(fused) = &groups[1].optim else {
        panic!("a fused weight is stepped per segment");
    };
    assert_eq!(fused.dim(), 1);
    assert_eq!(fused.widths, vec![4, 4]);
    assert_eq!(fused.optims, vec![BlockOptim::Muon, BlockOptim::AdamW]);
    assert!(!fused.tiled);
    let GroupOptim::Segmented(copies) = &groups[2].optim else {
        panic!("a tiled weight is stepped per copy");
    };
    assert_eq!(copies.optims, vec![BlockOptim::Muon]);
    assert!(copies.tiled);
    let id = burn::module::ParamId::from(1);
    assert!(groups[0].group.matches(&id, Some("block.b.weight")));
    assert!(!groups[0].group.matches(&id, Some("block.c.weight")));
    assert!(MuonPlan::default().build().groups.is_empty());
    assert!(MuonPlan::empty().specs.is_empty());
}

#[test]
fn an_mlp_adds_its_two_projections() {
    let mlp = GatedMlpConfig::new(64, 100);
    let plan = MuonPlan::new(projections());
    assert_eq!(plan.clone().with_mlp(None), plan);
    let with = plan.clone().with_mlp(Some(&mlp));
    assert_eq!(with.specs[..3], plan.specs[..]);
    assert_eq!(
        with.specs[3],
        ProjSpec::path(
            "mlp.fc1.weight",
            vec![
                ProjSegment::muon("value", 128),
                ProjSegment::muon("gate", 128)
            ],
        )
    );
    assert_eq!(with.specs[4], ProjSpec::path_whole("mlp.fc2.weight", 64));
    assert_eq!(
        plan.clone().extend(MuonPlan::new(projections())).specs.len(),
        6
    );
}

#[test]
fn opting_a_segment_out_leaves_it_to_the_fallback() {
    let plan = MuonPlan::new(vec![ProjSpec::block(
        "in_proj.weight",
        vec![ProjSegment::muon("x", 6), ProjSegment::muon("dt", 2)],
    )])
    .without_segment("dt");
    assert_eq!(
        plan.specs[0].segments,
        vec![ProjSegment::muon("x", 6), ProjSegment::adamw("dt", 2)]
    );
    assert_eq!(plan.clone().without_segment("dt"), plan);
    assert_eq!(plan.clone().without_segment("absent"), plan);
}

fn fused(tiled: bool) -> ProjSpec {
    let spec = ProjSpec::block(
        "in_proj.weight",
        vec![
            ProjSegment::muon("x", 6),
            ProjSegment::adamw("dt", 2),
            ProjSegment::muon("z", 4),
        ],
    );
    if tiled {
        spec.tiled()
    } else {
        spec
    }
}

#[test]
fn a_fused_weight_steps_block_by_block() {
    let segmented = Segmented::new(&fused(false), Fallback::AdamW, 1);
    assert_eq!(segmented.dim(), 1);
    assert_eq!(segmented.per_copy(), 12);
    assert!(segmented.accepts(2, 12));
    assert!(!segmented.accepts(1, 12));
    assert!(!segmented.accepts(2, 24));
    let first = segmented.step(2, 12, None);
    assert_eq!(first.widths, vec![6, 2, 4]);
    assert_eq!(
        first.blocks,
        vec![
            BlockStep {
                optim: BlockOptim::Muon,
                state: None
            },
            BlockStep {
                optim: BlockOptim::AdamW,
                state: None
            },
            BlockStep {
                optim: BlockOptim::Muon,
                state: None
            },
        ]
    );
    assert_eq!(
        first.states,
        vec![BlockState::Muon, BlockState::AdamW, BlockState::Muon]
    );
    let second = segmented.step(2, 12, Some(&first.states));
    let resumed: Vec<Option<usize>> = second.blocks.iter().map(|b| b.state).collect();
    assert_eq!(resumed, vec![Some(0), Some(1), Some(2)]);
    // A state whose length drifted restarts every block.
    let drifted = segmented.step(2, 12, Some(&vec![BlockState::Muon]));
    assert_eq!(drifted, first);
    // A state of the other kind restarts its block alone.
    let mixed = segmented.step(
        2,
        12,
        Some(&vec![BlockState::AdamW, BlockState::AdamW, BlockState::Muon]),
    );
    let resumed: Vec<Option<usize>> = mixed.blocks.iter().map(|b| b.state).collect();
    assert_eq!(resumed, vec![None, Some(1), Some(2)]);
}

#[test]
fn a_stateless_fallback_keeps_no_entry() {
    let segmented = Segmented::new(&fused(false), Fallback::Sgd, 1);
    let step = segmented.step(2, 12, None);
    assert_eq!(step.states, vec![BlockState::Muon, BlockState::Muon]);
    let next = segmented.step(2, 12, Some(&step.states));
    let resumed: Vec<Option<usize>> = next.blocks.iter().map(|b| b.state).collect();
    assert_eq!(resumed, vec![Some(0), None, Some(1)]);
    assert_eq!(BlockOptim::Sgd.state(), None);
    assert!(!BlockOptim::Sgd.is_stateful());
    assert!(BlockOptim::AdamW.is_stateful());
}

#[test]
fn a_tiled_weight_repeats_its_blocks() {
    let segmented = Segmented::new(&fused(true), Fallback::AdamW, 1);
    assert!(segmented.accepts(2, 24));
    assert!(!segmented.accepts(2, 25));
    let step = segmented.step(2, 24, None);
    assert_eq!(step.widths, vec![6, 2, 4, 6, 2, 4]);
    assert_eq!(step.blocks[4].optim, BlockOptim::AdamW);
    assert_eq!(step.states.len(), 6);
}

#[test]
fn a_saved_state_reads_back() {
    let leaf = |any, muon, adamw| BlockLeaves { any, muon, adamw };
    let muon = leaf(true, true, false);
    let adamw = leaf(true, false, true);
    let none = leaf(false, false, false);
    assert_eq!(
        state_unflatten(&vec![muon, adamw, none, muon]),
        Some(vec![BlockState::Muon, BlockState::AdamW])
    );
    assert_eq!(state_unflatten(&vec![none]), None);
    assert_eq!(state_unflatten(&Vec::new()), None);
    assert_eq!(state_unflatten(&vec![muon, leaf(true, false, false)]), None);
}

#[test]
fn sgd_clips_then_decays_then_descends() {
    let weight = WeightMeta {
        elements: 6,
        autodiff: true,
        checkpointed: false,
        require_grad: true,
    };
    let config = SgdConfig {
        weight_decay: true,
        grad_clipping: true,
    };
    assert_eq!(config.step(&weight, false), None);
    let step = config.step(&weight, true).unwrap();
    assert_eq!(step.ops, vec![SgdOp::Clip, SgdOp::Decay, SgdOp::Descend]);
    assert!(step.lift);
    assert!(!step.checkpoint);
    assert!(step.require_grad);
    let plain = SgdConfig {
        weight_decay: false,
        grad_clipping: false,
    };
    let step = plain.step(&weight, true).unwrap();
    assert_eq!(step.ops, vec![SgdOp::Descend]);
}
