//! What a plan keeps of the weights that it splits.
use crate::modules::mlp::GatedMlpConfig;
use crate::optim::plan;
use crate::optim::plan::{GroupOptim, PlannedGroup};
use crate::optim::report;
use crate::optim::report::ParamRow;
use crate::optim::segmented;
use crate::optim::segmented::{BlockLeaves, BlockOptim, BlockState, Fallback, Segmented};
use crate::optim::sgd::{SgdConfig, SgdOp};
use crate::optim::spec;
use crate::optim::spec::{ProjScope, ProjSegment, ProjSpec};
use crate::utils::text;
use vstd::arithmetic::div_mod;
use vstd::prelude::*;

verus! {

/// No two segments are ever orthogonalised together. A group that stock Muon steps
/// is one weight of one segment. Any other group has one block per segment, as wide
/// as the segment and along the columns, with Muon on the segments that it owns and
/// AdamW on the others.
pub proof fn a_group_orthogonalises_one_segment_at_a_time(
    group: PlannedGroup,
    specs: Seq<ProjSpec>,
    at: int,
)
    requires
        group.is_of(specs, at),
    ensures
        ({
            let segments = specs[at].segments@;
            match group.optim {
                GroupOptim::Muon => segments.len() == 1 && segments[0].muon && !specs[at].tiled,
                GroupOptim::Segmented(s) => {
                    &&& segments.len() != 1 || !segments[0].muon || specs[at].tiled
                    &&& s.optims@.len() == segments.len()
                    &&& s.widths@.len() == segments.len()
                    &&& s.dim == 1
                    &&& s.tiled == specs[at].tiled
                    &&& forall|i: int|
                        0 <= i < segments.len() ==> {
                            &&& s.widths@[i] == (#[trigger] segments[i]).width
                            &&& segments[i].muon ==> s.optims@[i] is Muon
                            &&& !segments[i].muon ==> s.optims@[i] is AdamW
                        }
                },
            }
        }),
        group.spec == at,
        group.clipping,
        spec::group_is_inclusive(group.group),
        spec::group_includes(group.group) == (match specs[at].scope {
            ProjScope::Block => seq!["block."@, specs[at].path@],
            ProjScope::Path => seq![specs[at].path@],
        }),
{
    match group.optim {
        GroupOptim::Muon => {},
        GroupOptim::Segmented(s) => {
            assert forall|i: int| 0 <= i < specs[at].segments@.len() implies {
                &&& s.widths@[i] == (#[trigger] specs[at].segments@[i]).width
                &&& specs[at].segments@[i].muon ==> s.optims@[i] is Muon
                &&& !specs[at].segments@[i].muon ==> s.optims@[i] is AdamW
            } by {
                assert(s.widths@[i] == specs[at].segments@[i].width);
                assert(s.optims@[i] == s.optims@[i]);
            }
        },
    }
}

/// A plan moves a spec off the fallback exactly where Muon owns one of its segments,
/// and keeps the order of the specs.
pub proof fn a_plan_owns_what_muon_steps(specs: Seq<ProjSpec>, i: int, a: int, b: int)
    requires
        0 <= i < specs.len(),
        0 <= a < b < plan::owned(specs).len(),
    ensures
        plan::owned(specs).contains(i) == exists|j: int|
            0 <= j < specs[i].segments@.len() && (#[trigger] specs[i].segments@[j]).muon,
        0 <= plan::owned(specs)[a] < plan::owned(specs)[b] < specs.len(),
{
    plan::lemma_owned(specs);
    assert(plan::owned(specs).contains(i) == spec::some_muon(specs[i].segments@)) by {
        if plan::owned(specs).contains(i) {
            let g = plan::owned(specs).index_of(i);
            assert(plan::owned(specs)[g] == i);
        }
    }
}

/// A spec selects the parameters whose path holds its own path, and, for a weight of a
/// block, that of a block container.
pub proof fn a_spec_selects_by_its_path(s: ProjSpec, path: Seq<char>)
    ensures
        s.selects(path) == (text::within(s.path@, path) && (s.scope is Block ==> text::within(
            "block."@,
            path,
        ))),
{
    let parts = s.spec_predicates();
    match s.scope {
        ProjScope::Block => {
            assert(parts[0] == "block."@ && parts[1] == s.path@);
            assert(s.selects(path) ==> text::within(parts[0], path) && text::within(
                parts[1],
                path,
            ));
        },
        ProjScope::Path => {
            assert(parts[0] == s.path@);
            assert(s.selects(path) ==> text::within(parts[0], path));
        },
    }
}

/// The columns of a weight are those of its segments, and Muon owns the columns of
/// its own ones.
pub proof fn columns_add_up(segments: Seq<ProjSegment>, segment: ProjSegment)
    ensures
        spec::columns(Seq::empty()) == 0,
        spec::muon_columns(Seq::empty()) == 0,
        spec::columns(segments.push(segment)) == spec::columns(segments) + segment.width,
        spec::muon_columns(segments.push(segment)) == spec::muon_columns(segments) + (
        if segment.muon {
            segment.width as int
        } else {
            0
        }),
{
    assert(segments.push(segment).drop_last() =~= segments);
}

/// A segment that is opted out by name leaves Muon. Every other one keeps its owner,
/// and all keep their place in the weight.
pub proof fn opting_out_touches_only_the_name(segment: ProjSegment, name: Seq<char>)
    ensures
        ({
            let next = plan::opted_out(segment, name);
            &&& next.name == segment.name
            &&& next.width == segment.width
            &&& segment.name@ == name ==> !next.muon
            &&& segment.name@ != name ==> next.muon == segment.muon
        }),
{
}

/// The specs of a feed-forward split its two weights as it lays them out: the first
/// into two equal halves of the hidden width, the second whole. Muon owns them all.
pub proof fn a_feed_forward_plan_splits_its_halves(specs: Seq<ProjSpec>, mlp: GatedMlpConfig)
    requires
        plan::is_mlp_plan(specs, mlp),
        mlp.inits(),
    ensures
        specs.len() == 2,
        specs[0].path@ == "mlp.fc1.weight"@,
        specs[1].path@ == "mlp.fc2.weight"@,
        specs[0].scope is Path && !specs[0].tiled,
        specs[1].scope is Path && !specs[1].tiled,
        specs[0].segments@.len() == 2,
        specs[0].segments@[0].muon && specs[0].segments@[1].muon,
        specs[0].segments@[0].width == mlp.spec_hidden(),
        specs[0].segments@[1].width == mlp.spec_hidden(),
        spec::columns(specs[0].segments@) == 2 * mlp.spec_hidden(),
        specs[1].segments@.len() == 1,
        specs[1].segments@[0].muon,
        specs[1].segments@[0].width == mlp.d_model,
        spec::columns(specs[1].segments@) == mlp.d_model,
{
    crate::modules::mlp::rounded_up_is_the_least_multiple(
        mlp.d_intermediate as int,
        mlp.multiple_of as int,
    );
    reveal_with_fuel(spec::columns, 3);
    assert(specs[0].segments@.drop_last().drop_last().len() == 0);
    assert(specs[0].segments@.drop_last().last() == specs[0].segments@[0]);
    assert(specs[1].segments@.drop_last().len() == 0);
}

/// The elements of a tensor multiply up along its dimensions.
pub proof fn elements_multiply_up(dims: Seq<usize>, n: usize)
    ensures
        report::elements(Seq::empty()) == 1,
        report::elements(dims.push(n)) == report::elements(dims) * n,
{
    assert(dims.push(n).drop_last() =~= dims);
}

/// The totals of a report add up over its rows.
pub proof fn totals_add_up(specs: Seq<ProjSpec>, rows: Seq<ParamRow>, row: ParamRow)
    ensures
        report::total_elements(Seq::empty()) == 0,
        report::total_muon_elements(specs, Seq::empty()) == 0,
        report::total_elements(rows.push(row)) == report::total_elements(rows) + report::elements(
            row.dims@,
        ),
        report::total_muon_elements(specs, rows.push(row)) == report::total_muon_elements(
            specs,
            rows,
        ) + report::muon_elements(specs, row),
        report::rows_text(specs, Seq::empty()).len() == 0,
        report::rows_text(specs, rows.push(row)) == report::rows_text(specs, rows)
            + report::row_text(specs, row) + "\n"@,
{
    assert(rows.push(row).drop_last() =~= rows);
}

/// Muon owns its columns of every row of a weight, in each of the `n` whole copies that
/// the weight holds.
pub proof fn muon_owns_its_columns_of_every_copy(
    specs: Seq<ProjSpec>,
    row: ParamRow,
    i: int,
    n: int,
)
    requires
        report::owner(specs, row.path@) == Some(i),
        specs[i].tiled ==> spec::columns(specs[i].segments@) * n <= row.dims@[1]
            < spec::columns(specs[i].segments@) * (n + 1),
        !specs[i].tiled ==> n == 1,
    ensures
        report::muon_elements(specs, row) == spec::muon_columns(specs[i].segments@) * n
            * row.dims@[0],
{
    if specs[i].tiled {
        let d = spec::columns(specs[i].segments@);
        let x = row.dims@[1] as int;
        assert(d > 0) by (nonlinear_arith)
            requires
                d * n < d * (n + 1),
        ;
        assert(x == d * n + (x - d * n) && d * (n + 1) == d * n + d) by (nonlinear_arith);
        div_mod::lemma_fundamental_div_mod_converse(x, d, n, x - d * n);
    }
}

/// The owner of a parameter is the last spec that selects its path and of which Muon
/// owns a segment.
pub proof fn the_last_planned_spec_owns_a_parameter(
    specs: Seq<ProjSpec>,
    path: Seq<char>,
    row: ParamRow,
    j: int,
    x: int,
)
    requires
        0 <= j < specs.len(),
        specs[j].selects(path),
        0 <= x < specs[j].segments@.len(),
        specs[j].segments@[x].muon,
        row.path@ == path,
    ensures
        report::owner(specs, path) matches Some(i) && j <= i < specs.len() && specs[i].selects(path)
            && exists|y: int|
            0 <= y < specs[i].segments@.len() && (#[trigger] specs[i].segments@[y]).muon,
{
    report::lemma_owner(specs, path);
    assert(report::plans(specs[j], path));
}

/// What no spec plans Muon for is on the fallback, and counts nothing for Muon.
pub proof fn an_unplanned_parameter_stays_on_the_fallback(specs: Seq<ProjSpec>, row: ParamRow)
    requires
        forall|j: int|
            0 <= j < specs.len() ==> !((#[trigger] specs[j]).selects(row.path@) && exists|y: int|
                0 <= y < specs[j].segments@.len() && (#[trigger] specs[j].segments@[y]).muon),
    ensures
        report::owner(specs, row.path@) is None,
        report::muon_elements(specs, row) == 0,
        report::owner_text(specs, row.path@) == "adamw"@,
{
    report::lemma_owner(specs, row.path@);
    if let Some(i) = report::owner(specs, row.path@) {
        assert(report::plans(specs[i], row.path@));
    }
}

/// How the report names an owner: every segment of its spec in order, and a star on
/// those that stay on the fallback.
pub proof fn the_report_stars_what_muon_does_not_own(
    specs: Seq<ProjSpec>,
    path: Seq<char>,
    i: int,
    segment: ProjSegment,
)
    requires
        report::owner(specs, path) == Some(i),
    ensures
        ({
            let named = segment.name@ + ":"@ + text::decimal(segment.width as int);
            report::segment_text(segment) == (if segment.muon {
                named
            } else {
                named + "*"@
            })
        }),
        exists|names: Seq<Seq<char>>|
            {
                &&& report::owner_text(specs, path) == "muon["@ + #[trigger] text::joined(
                    names,
                    " "@,
                ) + "]"@
                &&& names.len() == specs[i].segments@.len()
                &&& forall|x: int|
                    0 <= x < names.len() ==> #[trigger] names[x] == report::segment_text(
                        specs[i].segments@[x],
                    )
            },
{
    let names = specs[i].segments@.map_values(|s: ProjSegment| report::segment_text(s));
    reveal_strlit("");
    let named = segment.name@ + ":"@ + text::decimal(segment.width as int);
    assert(named + ""@ =~= named);
    assert(report::owner_text(specs, path) == "muon["@ + text::joined(names, " "@) + "]"@);
}

/// The line of a parameter: its rank, its path, its dimensions, its elements and its
/// owner, in columns.
pub proof fn a_report_line_names_its_parameter(specs: Seq<ProjSpec>, row: ParamRow)
    ensures
        ({
            let rank = text::padded_left(text::decimal(row.dims@.len() as int), 2);
            let path = text::padded_right(row.path@, 62);
            let shape = text::list(row.dims@) + " ("@ + text::decimal(
                report::elements(row.dims@),
            ) + ")"@;
            report::row_text(specs, row) =~= rank + "D "@ + path + " "@ + shape + "  "@
                + report::owner_text(specs, row.path@)
        }),
{
    reveal_strlit(")  ");
    reveal_strlit(")");
    reveal_strlit("  ");
    assert(")  "@ =~= ")"@ + "  "@);
}

/// The blocks of a weight are those of one copy, over and over.
pub proof fn every_copy_has_the_same_blocks(s: Segmented, n: int, i: int)
    requires
        s.wf(),
        0 <= i < n,
        0 < s.optims@.len(),
    ensures
        segmented::cycled(s.widths@, n).len() == n,
        i < s.optims@.len() ==> s.block(i) == s.optims@[i] && segmented::cycled(s.widths@, n)[i]
            == s.widths@[i],
        s.block(i + s.optims@.len()) == s.block(i),
        i + s.optims@.len() < n ==> segmented::cycled(s.widths@, n)[i + s.optims@.len()]
            == segmented::cycled(s.widths@, n)[i],
{
    let k = s.optims@.len();
    if i < k {
        div_mod::lemma_small_mod(i as nat, k);
    }
    div_mod::lemma_mod_add_multiples_vanish(i, k as int);
    assert((k + i) % (k as int) == i % (k as int));
    assert(k + i == i + k);
}

/// How many blocks a weight has: those of its spec, once for each of its `n` copies.
pub proof fn a_weight_has_its_blocks_once_per_copy(s: Segmented, width: int, n: int)
    requires
        s.tiled ==> segmented::total(s.widths@) > 0 && width == segmented::total(s.widths@) * n,
        !s.tiled ==> n == 1,
    ensures
        s.n_blocks(width) == s.optims@.len() * n,
{
    if s.tiled {
        div_mod::lemma_div_multiples_vanish(n, segmented::total(s.widths@));
    }
}

/// Which weights the blocks fit: those with their axis, and as many columns as whole
/// copies of the blocks, one copy where the weight is not tiled.
pub proof fn blocks_fit_whole_copies(s: Segmented, rank: int, width: int, n: int)
    requires
        s.wf(),
        0 <= n,
        0 < segmented::total(s.widths@) <= usize::MAX,
        s.optims@.len() * n <= usize::MAX,
    ensures
        s.tiled && s.dim < rank && width == segmented::total(s.widths@) * n ==> s.fits(rank, width),
        !s.tiled && s.dim < rank && width == segmented::total(s.widths@) && n == 1 ==> s.fits(
            rank,
            width,
        ),
        s.fits(rank, width) ==> s.dim < rank && (if s.tiled {
            width % segmented::total(s.widths@) == 0
        } else {
            width == segmented::total(s.widths@)
        }),
{
    let t = segmented::total(s.widths@);
    if s.tiled {
        div_mod::lemma_div_multiples_vanish(n, t);
        if s.fits(rank, width) {
            div_mod::lemma_mod_multiples_basic(s.copies(width), t);
            assert(width == s.copies(width) * t) by (nonlinear_arith)
                requires
                    width == t * s.copies(width),
            ;
        }
    }
}

/// The columns of the blocks add up.
pub proof fn widths_add_up(widths: Seq<usize>, width: usize)
    ensures
        segmented::total(Seq::empty()) == 0,
        segmented::total(widths.push(width)) == segmented::total(widths) + width,
{
    assert(widths.push(width).drop_last() =~= widths);
}

/// A block of Muon or of AdamW keeps a state of its kind, and plain descent keeps
/// none.
pub proof fn plain_descent_keeps_no_state(optim: BlockOptim)
    ensures
        match optim {
            BlockOptim::Muon => optim.spec_state() == Some(BlockState::Muon),
            BlockOptim::AdamW => optim.spec_state() == Some(BlockState::AdamW),
            BlockOptim::Sgd => optim.spec_state() is None,
        },
{
}

/// The states of a weight are those of its stateful blocks, in order.
pub proof fn states_follow_the_stateful_blocks(s: Segmented, i: int)
    requires
        0 <= i,
    ensures
        s.states_before(0) == 0,
        s.states_before(i + 1) == s.states_before(i) + (if s.block(i) is Sgd {
            0nat
        } else {
            1nat
        }),
{
}

/// A block resumes the entry of its own place among the stateful ones, where the saved
/// state has one entry per stateful block and the entry is of its kind. Else it starts
/// from scratch.
pub proof fn a_block_resumes_only_its_own_state(
    s: Segmented,
    width: int,
    state: Option<Seq<BlockState>>,
    i: int,
)
    requires
        0 <= i,
        state matches Some(states) ==> states.len() <= usize::MAX,
        s.states_before(i) <= usize::MAX,
    ensures
        ({
            let entry = s.states_before(i) as int;
            let resumes = state matches Some(states) && states.len() == s.states_before(
                s.n_blocks(width),
            ) && (match s.block(i) {
                BlockOptim::Muon => states[entry] is Muon,
                BlockOptim::AdamW => states[entry] is AdamW,
                BlockOptim::Sgd => false,
            });
            match s.resumes(width, state, i) {
                Some(e) => resumes && e == entry,
                None => !resumes,
            }
        }),
{
}

/// A saved state holds the blocks up to the first number without a leaf, and the
/// leaves of a block tell its kind.
pub proof fn a_saved_state_ends_at_the_first_gap(leaves: Seq<BlockLeaves>, n: int)
    requires
        0 <= n <= leaves.len(),
        forall|i: int| 0 <= i < n ==> (#[trigger] leaves[i]).any,
        n == leaves.len() || !leaves[n].any,
    ensures
        segmented::saved_blocks(leaves) == n,
        forall|i: int|
            0 <= i < n ==> {
                &&& (#[trigger] leaves[i]).muon ==> segmented::saved_kind(leaves[i]) == Some(
                    BlockState::Muon,
                )
                &&& !leaves[i].muon && leaves[i].adamw ==> segmented::saved_kind(leaves[i]) == Some(
                    BlockState::AdamW,
                )
                &&& !leaves[i].muon && !leaves[i].adamw ==> segmented::saved_kind(
                    leaves[i],
                ) is None
            },
    decreases leaves.len(),
{
    if n > 0 {
        assert(leaves[0].any);
        let rest = leaves.skip(1);
        assert forall|i: int| 0 <= i < n - 1 implies (#[trigger] rest[i]).any by {
            assert(leaves[i + 1].any);
        }
        a_saved_state_ends_at_the_first_gap(rest, n - 1);
    }
}

/// A step of plain descent clips the gradient first, then decays, and descends last.
/// It clips and decays only where it is asked to.
pub proof fn a_descent_clips_then_decays_then_descends(config: SgdConfig, x: int, y: int)
    requires
        0 <= x < y < config.ops().len(),
    ensures
        config.ops().last() is Descend,
        config.ops().contains(SgdOp::Clip) == config.grad_clipping,
        config.ops().contains(SgdOp::Decay) == config.weight_decay,
        config.ops()[y] is Descend ==> !(config.ops()[x] is Descend),
        config.ops()[y] is Decay ==> config.ops()[x] is Clip,
        !(config.ops()[y] is Clip),
{
    let ops = config.ops();
    if config.grad_clipping {
        assert(ops[0] is Clip);
        if config.weight_decay {
            assert(ops[1] is Decay);
        }
    } else if config.weight_decay {
        assert(ops[0] is Decay);
    }
}

/// A step of plain descent always descends, and does no more than it is asked to.
pub proof fn a_descent_does_what_it_is_asked_to(config: SgdConfig)
    ensures
        config.ops().len() == 1 + (if config.grad_clipping {
            1int
        } else {
            0
        }) + (if config.weight_decay {
            1int
        } else {
            0
        }),
        config.ops().last() is Descend,
{
}

/// Which models can be described: every product and sum on the way fits the machine
/// integers, and a weight that Muon owns has rows, and columns where it is tiled.
pub proof fn a_model_whose_counts_fit_can_be_described(
    specs: Seq<ProjSpec>,
    rows: Seq<ParamRow>,
    r: int,
)
    requires
        0 <= r < rows.len(),
    ensures
        report::countable(specs, rows) ==> report::elements(rows[r].dims@) <= usize::MAX
            && report::total_elements(rows) <= usize::MAX && report::total_muon_elements(
            specs,
            rows,
        ) <= usize::MAX && (report::owner(specs, rows[r].path@) is Some ==> rows[r].dims@.len()
            > 0),
        report::total_elements(rows) <= usize::MAX && report::total_muon_elements(specs, rows)
            <= usize::MAX && (forall|q: int, n: int|
            0 <= q < rows.len() && 0 <= n <= rows[q].dims@.len() ==> report::elements(
                #[trigger] rows[q].dims@.take(n),
            ) <= usize::MAX) && (forall|q: int|
            0 <= q < rows.len() ==> (report::owner(specs, (#[trigger] rows[q]).path@) matches Some(i)
                ==> rows[q].dims@.len() > 1 && spec::columns(specs[i].segments@) <= usize::MAX))
            ==> report::countable(specs, rows),
{
    let dims = rows[r].dims@;
    if report::countable(specs, rows) {
        assert(dims.take(dims.len() as int) =~= dims);
        assert(report::elements(rows[r].dims@.take(dims.len() as int)) <= usize::MAX);
    }
    assert forall|q: int| 0 <= q < rows.len() && (report::owner(
        specs,
        (#[trigger] rows[q]).path@,
    ) matches Some(i) && spec::columns(specs[i].segments@) <= usize::MAX) implies spec::muon_columns(
        specs[report::owner(specs, rows[q].path@)->Some_0].segments@,
    ) <= usize::MAX by {
        spec::lemma_muon_columns_within(
            specs[report::owner(specs, rows[q].path@)->Some_0].segments@,
        );
    }
}

/// A segmented optimizer has a block per segment of its spec, as wide as the segment and
/// along the axis that it is given: Muon where Muon owns the segment, else the fallback.
pub proof fn every_segment_has_its_own_block(
    s: Segmented,
    spec: ProjSpec,
    fallback: Fallback,
    dim: int,
    i: int,
)
    requires
        s.splits(spec, fallback, dim),
        0 <= i < spec.segments@.len(),
    ensures
        s.dim == dim,
        s.tiled == spec.tiled,
        s.widths@.len() == spec.segments@.len(),
        s.optims@.len() == spec.segments@.len(),
        s.widths@[i] == spec.segments@[i].width,
        spec.segments@[i].muon ==> s.optims@[i] is Muon,
        !spec.segments@[i].muon ==> (match fallback {
            Fallback::AdamW => s.optims@[i] is AdamW,
            Fallback::Sgd => s.optims@[i] is Sgd,
        }),
{
    assert(s.widths@[i] == spec.segments@[i].width);
    assert(s.optims@[i] == s.optims@[i]);
}

/// Blocks without columns fit no tiled weight, and of the others only one without
/// columns.
pub proof fn blocks_without_columns_fit_nothing(s: Segmented, rank: int, width: int)
    requires
        s.wf(),
        segmented::total(s.widths@) == 0,
        s.optims@.len() <= usize::MAX,
    ensures
        s.tiled ==> !s.fits(rank, width),
        !s.tiled ==> s.fits(rank, width) == (s.dim < rank && width == 0),
{
}

} // verus!
