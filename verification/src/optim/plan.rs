//! The plan of a model's Muon weights.
use crate::modules::mlp::GatedMlpConfig;
use crate::optim::segmented::{Fallback, Segmented};
use crate::optim::spec::{ProjSegment, ProjSpec};
use crate::optim::spec;
use burn::module::ParamGroup;
use vstd::prelude::*;

verus! {

/// Which weights Muon owns in a model, and where their fused columns split.
///
/// Built from a *block* config, so it is independent of the network topology:
/// the specs are matched as path substrings, and therefore cover a plain
/// stack, a virtual-layer stack, and a bidirectional stack alike.
#[derive(Debug, Clone, PartialEq, Eq)]
pub struct MuonPlan {
    /// The fused (or plain) weights Muon may touch.
    pub specs: Vec<ProjSpec>,
}

impl Default for MuonPlan {
    fn default() -> (plan: Self)
        ensures
            plan.specs@.len() == 0,
    {
        MuonPlan { specs: Vec::new() }
    }
}

/// How one planned group is stepped.
#[derive(Debug, Clone, PartialEq, Eq)]
pub enum GroupOptim {
    /// Unfused: stock Muon, stock state.
    Muon,
    /// Fused: an optimizer per column block.
    Segmented(Segmented),
}

/// One parameter group that a plan moves off the fallback optimizer.
#[derive(Debug)]
pub struct PlannedGroup {
    /// The spec of the plan that the group selects by.
    pub spec: usize,
    /// The parameters of the group.
    pub group: ParamGroup,
    /// How they are stepped.
    pub optim: GroupOptim,
    /// Whether the gradient clipping of the fallback is applied to them.
    pub clipping: bool,
}

/// The optimizer of a model: one fallback, and the groups that are moved off
/// it.
#[derive(Debug)]
pub struct PlannedOptim {
    /// The optimizer of every parameter that no group selects.
    pub fallback: Fallback,
    /// The groups, in order.
    pub groups: Vec<PlannedGroup>,
}

/// The axis of the output columns of a dense weight, whose layout is
/// `[d_input, d_output]`.
pub const COLUMN_AXIS: usize = 1;

/// The specs that Muon owns a segment of, in order.
pub open spec fn owned(specs: Seq<ProjSpec>) -> Seq<int>
    decreases specs.len(),
{
    if specs.len() == 0 {
        Seq::empty()
    } else if spec::some_muon(specs.last().segments@) {
        owned(specs.drop_last()).push(specs.len() - 1)
    } else {
        owned(specs.drop_last())
    }
}

/// The specs that Muon owns are listed in ascending order, each once.
pub proof fn lemma_owned(specs: Seq<ProjSpec>)
    ensures
        owned(specs).len() <= specs.len(),
        forall|g: int|
            0 <= g < owned(specs).len() ==> 0 <= #[trigger] owned(specs)[g] < specs.len()
                && spec::some_muon(specs[owned(specs)[g]].segments@),
        forall|a: int, b: int|
            0 <= a < b < owned(specs).len() ==> #[trigger] owned(specs)[a]
                < #[trigger] owned(specs)[b],
        forall|i: int|
            0 <= i < specs.len() && spec::some_muon((#[trigger] specs[i]).segments@) ==> owned(
                specs,
            ).contains(i),
    decreases specs.len(),
{
    if specs.len() > 0 {
        let front = specs.drop_last();
        lemma_owned(front);
        assert forall|i: int|
            0 <= i < specs.len() && spec::some_muon(
                (#[trigger] specs[i]).segments@,
            ) implies owned(specs).contains(i) by {
            if i < specs.len() - 1 {
                assert(front[i] == specs[i]);
                let g = owned(front).index_of(i);
                assert(owned(specs)[g] == i);
            } else {
                assert(owned(specs)[owned(specs).len() - 1] == i);
            }
        }
    }
}

impl GroupOptim {
    /// Whether this is how the group of `s` is stepped: by Muon where it owns
    /// the whole weight, else per segment along the columns, with AdamW on the
    /// segments that Muon does not own.
    pub open spec fn steps(self, s: ProjSpec) -> bool {
        match self {
            GroupOptim::Muon => s.spec_is_whole_muon(),
            GroupOptim::Segmented(segmented) => !s.spec_is_whole_muon() && segmented.wf()
                && segmented.splits(s, Fallback::AdamW, COLUMN_AXIS as int),
        }
    }
}

impl PlannedGroup {
    /// Whether this is the group of spec `at`: it selects by the spec's
    /// substrings, and takes the clipping of the fallback.
    pub open spec fn is_of(self, specs: Seq<ProjSpec>, at: int) -> bool {
        &&& self.spec == at
        &&& self.optim.steps(specs[at])
        &&& self.clipping
        &&& spec::group_is_inclusive(self.group)
        &&& spec::group_includes(self.group) == specs[at].spec_predicates()
    }
}

/// The specs a feed-forward sub-block adds to a plan.
pub open spec fn is_mlp_plan(specs: Seq<ProjSpec>, mlp: GatedMlpConfig) -> bool {
    &&& specs.len() == 2
    &&& specs[0].path@ == "mlp.fc1.weight"@
    &&& specs[0].scope is Path
    &&& !specs[0].tiled
    &&& specs[0].segments@ == seq![
        ProjSegment { name: "value", width: mlp.spec_hidden() as usize, muon: true },
        ProjSegment { name: "gate", width: mlp.spec_hidden() as usize, muon: true },
    ]
    &&& specs[1].path@ == "mlp.fc2.weight"@
    &&& specs[1].scope is Path
    &&& !specs[1].tiled
    &&& specs[1].segments@ == seq![ProjSegment { name: "all", width: mlp.d_model, muon: true }]
}

/// A segment opted out of Muon when it is named `name`.
pub open spec fn opted_out(segment: ProjSegment, name: Seq<char>) -> ProjSegment {
    ProjSegment { muon: segment.muon && segment.name@ != name, ..segment }
}

impl MuonPlan {
    /// An empty plan: everything stays on the fallback optimizer.
    pub fn empty() -> (plan: Self)
        ensures
            plan.specs@.len() == 0,
    {
        MuonPlan { specs: Vec::new() }
    }

    /// A plan over the given specs.
    pub fn new(specs: Vec<ProjSpec>) -> (plan: Self)
        ensures
            plan.specs@ == specs@,
    {
        MuonPlan { specs }
    }

    /// Append another plan's specs.
    pub fn extend(self, other: Self) -> (plan: Self)
        ensures
            plan.specs@ == self.specs@ + other.specs@,
    {
        let mut specs = self.specs;
        let mut more = other.specs;
        specs.append(&mut more);
        MuonPlan { specs }
    }

    /// Add the gated-MLP weights of a layer's optional feed-forward sub-block.
    /// Its first projection fuses the value and gating halves.
    pub fn with_mlp(self, mlp: Option<&GatedMlpConfig>) -> (plan: Self)
        requires
            mlp matches Some(mlp) ==> mlp.has_hidden(),
        ensures
            mlp is None ==> plan.specs@ == self.specs@,
            mlp matches Some(mlp) ==> plan.specs@.len() == self.specs@.len() + 2
                && plan.specs@.take(self.specs@.len() as int) == self.specs@ && is_mlp_plan(
                plan.specs@.skip(self.specs@.len() as int),
                *mlp,
            ),
    {
        match mlp {
            None => self,
            Some(mlp) => {
                let ghost before = self.specs@;
                let hidden: usize = mlp.hidden();
                let fused = vec![
                    ProjSegment::muon("value", hidden),
                    ProjSegment::muon("gate", hidden),
                ];
                let added = MuonPlan::new(
                    vec![
                        ProjSpec::path("mlp.fc1.weight", fused),
                        ProjSpec::path_whole("mlp.fc2.weight", mlp.d_model),
                    ],
                );
                let ghost new_specs = added.specs@;
                let plan = self.extend(added);
                proof {
                    assert(plan.specs@.take(before.len() as int) =~= before);
                    assert(plan.specs@.skip(before.len() as int) =~= new_specs);
                    assert(new_specs[0].segments@ =~= seq![
                        ProjSegment {
                            name: "value",
                            width: mlp.spec_hidden() as usize,
                            muon: true,
                        },
                        ProjSegment {
                            name: "gate",
                            width: mlp.spec_hidden() as usize,
                            muon: true,
                        },
                    ]);
                }
                plan
            },
        }
    }

    /// Drop every segment named `name` from Muon's ownership (it falls back).
    /// Lets a caller opt a sub-projection out without rebuilding the plan.
    pub fn without_segment(self, name: &str) -> (plan: Self)
        ensures
            plan.specs@.len() == self.specs@.len(),
            forall|i: int|
                0 <= i < plan.specs@.len() ==> {
                    &&& (#[trigger] plan.specs@[i]).path == self.specs@[i].path
                    &&& plan.specs@[i].scope == self.specs@[i].scope
                    &&& plan.specs@[i].tiled == self.specs@[i].tiled
                    &&& plan.specs@[i].segments@ == self.specs@[i].segments@.map_values(
                        |s: ProjSegment| opted_out(s, name@),
                    )
                },
    {
        let dropped = name.to_owned();
        let mut specs: Vec<ProjSpec> = Vec::new();
        let mut i: usize = 0;
        while i < self.specs.len()
            invariant
                i <= self.specs@.len(),
                specs.len() == i,
                dropped@ == name@,
                forall|j: int|
                    0 <= j < i ==> {
                        &&& (#[trigger] specs@[j]).path == self.specs@[j].path
                        &&& specs@[j].scope == self.specs@[j].scope
                        &&& specs@[j].tiled == self.specs@[j].tiled
                        &&& specs@[j].segments@ == self.specs@[j].segments@.map_values(
                            |s: ProjSegment| opted_out(s, name@),
                        )
                    },
            decreases self.specs@.len() - i,
        {
            let spec = &self.specs[i];
            let mut segments: Vec<ProjSegment> = Vec::new();
            let mut k: usize = 0;
            while k < spec.segments.len()
                invariant
                    k <= spec.segments@.len(),
                    segments.len() == k,
                    dropped@ == name@,
                    forall|j: int|
                        0 <= j < k ==> #[trigger] segments@[j] == opted_out(
                            spec.segments@[j],
                            name@,
                        ),
                decreases spec.segments@.len() - k,
            {
                let segment = &spec.segments[k];
                let named = segment.name.to_owned() == dropped;
                segments.push(
                    ProjSegment {
                        name: segment.name,
                        width: segment.width,
                        muon: segment.muon && !named,
                    },
                );
                k = k + 1;
            }
            assert(segments@ =~= spec.segments@.map_values(
                |s: ProjSegment| opted_out(s, name@),
            ));
            specs.push(
                ProjSpec {
                    path: spec.path.clone(),
                    scope: spec.scope,
                    segments,
                    tiled: spec.tiled,
                },
            );
            i = i + 1;
        }
        MuonPlan { specs }
    }

    /// Assemble the optimizer: AdamW everywhere, Muon on the planned weights.
    ///
    /// There is one group per spec that Muon owns a segment of, in order. AdamW
    /// is the fallback, so any parameter that no group selects, every 1-D and
    /// 3-D tensor included, keeps it. Its gradient clipping is applied to every
    /// group.
    pub fn build(&self) -> (optim: PlannedOptim)
        ensures
            optim.fallback is AdamW,
            optim.groups@.len() == owned(self.specs@).len(),
            forall|g: int|
                0 <= g < optim.groups@.len() ==> (#[trigger] optim.groups@[g]).is_of(
                    self.specs@,
                    owned(self.specs@)[g],
                ),
    {
        let mut groups: Vec<PlannedGroup> = Vec::new();
        let mut i: usize = 0;
        assert(self.specs@.take(0) =~= Seq::<ProjSpec>::empty());
        while i < self.specs.len()
            invariant
                i <= self.specs@.len(),
                groups@.len() == owned(self.specs@.take(i as int)).len(),
                forall|g: int|
                    0 <= g < groups@.len() ==> (#[trigger] groups@[g]).is_of(
                        self.specs@,
                        owned(self.specs@.take(i as int))[g],
                    ),
            decreases self.specs@.len() - i,
        {
            let spec = &self.specs[i];
            proof {
                assert(self.specs@.take(i + 1).drop_last() =~= self.specs@.take(i as int));
            }
            if spec.has_muon() {
                let optim = if spec.is_whole_muon() {
                    GroupOptim::Muon
                } else {
                    GroupOptim::Segmented(Segmented::new(spec, Fallback::AdamW, COLUMN_AXIS))
                };
                groups.push(
                    PlannedGroup { spec: i, group: spec.param_group(), optim, clipping: true },
                );
            }
            i = i + 1;
        }
        assert(self.specs@.take(i as int) =~= self.specs@);
        PlannedOptim { fallback: Fallback::AdamW, groups }
    }
}

/// Opting a segment out twice is opting it out once.
pub proof fn opting_out_is_idempotent(segment: ProjSegment, name: Seq<char>)
    ensures
        opted_out(opted_out(segment, name), name) == opted_out(segment, name),
{
}

} // verus!
