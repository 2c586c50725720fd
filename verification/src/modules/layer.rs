//! A single Pre-LN layer around a mixer block: its class latents, and the
//! parameters that it holds once per application.
use crate::modules::mlp::{GatedMlp, GatedMlpConfig};
use crate::utils::class;
use crate::utils::class::splice;
use crate::utils::class::splice::Segment;
use crate::utils::class::{class_chunk_plan, class_prime_plan, laws, ClassCursor, ClassLatent};
use crate::utils::untied::UntiedParam;
use vstd::prelude::*;

verus! {

/// A [`Layer`] parameter that can be **untied**: held once per application of
/// its real layer.
#[derive(Debug, Clone, Copy, PartialEq, Eq, Structural)]
pub enum LayerUntied {
    /// The pre-norm gain of the mixer.
    Norm,
    /// The pre-norm gain of the feed-forward. Needs one.
    Norm2,
}

/// A layer: `block(norm(x))`, and the optional feed-forward over `norm2`.
///
/// A layer can have its own class latents. It can also **untie** parameters:
/// its pre-norms and those of its block. It then holds one copy per
/// application.
#[derive(Debug, Clone, PartialEq, Eq)]
pub struct Layer {
    /// The id of the pre-norm gain applied before the inner block.
    pub norm: u64,
    /// The id of the pre-norm gain of the feed-forward sub-block. `Some`
    /// exactly when there is one.
    pub norm2: Option<u64>,
    /// The parameters that the block stores once per application.
    pub block_untied: Vec<UntiedParam>,
    /// Positions of this layer's class latents (empty: none).
    pub class_latents: Vec<ClassLatent>,
    /// The pre-norms held once per application. Empty: both tied.
    pub untied: Vec<LayerUntied>,
    /// The number of applications for which the untied parameters (of the layer
    /// and of its block) hold a copy. It is `1` for a layer applied once.
    pub n_applications: usize,
}

/// A layer as one of its applications sees it.
#[derive(Debug, Clone, PartialEq, Eq)]
pub enum LayerView {
    /// The layer itself: nothing differs between its applications.
    Itself,
    /// The layer with each of `params` narrowed to the copy of `application`.
    Copy {
        /// The parameters to narrow.
        params: Vec<UntiedParam>,
        /// The application whose copy is read.
        application: usize,
        /// How many copies there are.
        n_applications: usize,
    },
}

/// The shape of a new layer.
#[derive(Debug, Clone, PartialEq, Eq)]
pub struct LayerShape {
    /// The length of the pre-norm gain of the mixer.
    pub norm: usize,
    /// The length of the pre-norm gain of the feed-forward, when there is one.
    pub norm2: Option<usize>,
    /// The feed-forward sub-block, when there is one.
    pub mlp: Option<GatedMlp>,
    /// The pre-norms held once per application.
    pub untied: Vec<LayerUntied>,
    /// The number of applications that the layer is built for.
    pub n_applications: usize,
}

/// The length of a pre-norm gain: once per application where it is untied.
pub open spec fn norm_len(
    d_model: int,
    untied: Seq<LayerUntied>,
    part: LayerUntied,
    n_applications: int,
) -> int {
    if untied.contains(part) {
        d_model * n_applications
    } else {
        d_model
    }
}

/// Whether `untied` names `part`.
pub fn unties(untied: &Vec<LayerUntied>, part: LayerUntied) -> (found: bool)
    ensures
        found == untied@.contains(part),
{
    let mut i: usize = 0;
    while i < untied.len()
        invariant
            i <= untied@.len(),
            forall|j: int| 0 <= j < i ==> #[trigger] untied@[j] != part,
        decreases untied@.len() - i,
    {
        if untied[i] == part {
            return true;
        }
        i = i + 1;
    }
    false
}

/// Whether a layer of this width can be built: its feed-forward has a width,
/// the second pre-norm is untied only alongside it, and every untied gain holds
/// at least one copy.
pub open spec fn buildable(
    d_model: int,
    mlp: Option<GatedMlpConfig>,
    untied: Seq<LayerUntied>,
    n_applications: int,
) -> bool {
    &&& mlp is Some || !untied.contains(LayerUntied::Norm2)
    &&& mlp matches Some(mlp) ==> mlp.inits()
    &&& untied.len() > 0 ==> n_applications >= 1 && d_model * n_applications <= usize::MAX
}

/// Whether `shape` is that of a layer of width `d_model`, built for
/// `n_applications` applications.
pub open spec fn is_layer_shape(
    shape: LayerShape,
    d_model: int,
    mlp: Option<GatedMlpConfig>,
    untied: Seq<LayerUntied>,
    n_applications: int,
) -> bool {
    &&& shape.norm == norm_len(d_model, untied, LayerUntied::Norm, n_applications)
    &&& shape.norm2 is Some == mlp is Some
    &&& shape.norm2 matches Some(len) ==> len == norm_len(
        d_model,
        untied,
        LayerUntied::Norm2,
        n_applications,
    )
    &&& shape.mlp is Some == mlp is Some
    &&& shape.mlp matches Some(m) ==> m.wf() && m.fc1.d_input == mlp->Some_0.d_model
        && m.fc2.d_input == mlp->Some_0.spec_hidden() && m.fc1.has_bias
        == mlp->Some_0.has_proj_bias && m.fc2.has_bias == mlp->Some_0.has_proj_bias
    &&& shape.untied@ == untied
    &&& shape.n_applications == n_applications
}

/// Whether a layer of this width can be built.
pub fn can_build_layer(
    d_model: usize,
    mlp: Option<&GatedMlpConfig>,
    untied: &Vec<LayerUntied>,
    n_applications: usize,
) -> (ok: bool)
    ensures
        ok == buildable(
            d_model as int,
            crate::utils::schedule::option_deref(mlp),
            untied@,
            n_applications as int,
        ),
{
    match mlp {
        None => {
            if unties(untied, LayerUntied::Norm2) {
                return false;
            }
        },
        Some(mlp) => {
            if !mlp.can_init() {
                return false;
            }
        },
    }
    untied.len() == 0 || (n_applications >= 1 && d_model.checked_mul(n_applications).is_some())
}

impl LayerShape {
    /// The shape of a layer around a block, for a real layer applied
    /// `n_applications` times. The pre-norms that `untied` names get one gain
    /// per application.
    pub fn init(
        d_model: usize,
        mlp: Option<&GatedMlpConfig>,
        untied: &Vec<LayerUntied>,
        n_applications: usize,
    ) -> (shape: Self)
        requires
            buildable(
                d_model as int,
                crate::utils::schedule::option_deref(mlp),
                untied@,
                n_applications as int,
            ),
        ensures
            shape.norm == norm_len(
                d_model as int,
                untied@,
                LayerUntied::Norm,
                n_applications as int,
            ),
            shape.norm2 is Some == mlp is Some,
            shape.norm2 matches Some(len) ==> len == norm_len(
                d_model as int,
                untied@,
                LayerUntied::Norm2,
                n_applications as int,
            ),
            shape.mlp is Some == mlp is Some,
            shape.mlp matches Some(m) ==> m.wf() && m.fc1.d_input == mlp->Some_0.d_model
                && m.fc2.d_input == mlp->Some_0.spec_hidden() && m.fc1.has_bias
                == mlp->Some_0.has_proj_bias && m.fc2.has_bias == mlp->Some_0.has_proj_bias,
            shape.untied@ == untied@,
            shape.n_applications == n_applications,
    {
        let norm: usize = if unties(untied, LayerUntied::Norm) {
            d_model * n_applications
        } else {
            d_model
        };
        let norm2: Option<usize> = match mlp {
            None => None,
            Some(_) => if unties(untied, LayerUntied::Norm2) {
                Some(d_model * n_applications)
            } else {
                Some(d_model)
            },
        };
        let mlp = match mlp {
            None => None,
            Some(mlp) => {
                proof {
                    crate::modules::mlp::rounded_up_is_the_least_multiple(
                        mlp.d_intermediate as int,
                        mlp.multiple_of as int,
                    );
                }
                Some(mlp.init())
            },
        };
        let parts = untied.clone();
        assert(parts@ =~= untied@);
        LayerShape { norm, norm2, mlp, untied: parts, n_applications }
    }
}

impl Layer {
    /// The second pre-norm is untied only where there is one.
    pub open spec fn wf(self) -> bool {
        self.untied@.contains(LayerUntied::Norm2) ==> self.norm2 is Some
    }

    /// Whether the second pre-norm is untied only where there is one.
    pub fn is_valid(&self) -> (ok: bool)
        ensures
            ok == self.wf(),
    {
        self.norm2.is_some() || !unties(&self.untied, LayerUntied::Norm2)
    }

    /// Whether the layer has a copy to read for `application`.
    pub fn covers_application(&self, application: usize) -> (ok: bool)
        requires
            self.wf(),
        ensures
            ok == self.has_application(application as int),
    {
        self.n_applications == 1 || self.untied_params().len() == 0 || application
            < self.n_applications
    }

    /// The untied parameter of one of this layer's parts. The copies of a gain
    /// lie along its only axis.
    pub open spec fn part(self, part: LayerUntied) -> UntiedParam {
        match part {
            LayerUntied::Norm => UntiedParam { id: self.norm, axis: 0 },
            LayerUntied::Norm2 => UntiedParam { id: self.norm2->Some_0, axis: 0 },
        }
    }

    /// Every parameter of this layer that is held once per application.
    pub open spec fn spec_untied_params(self) -> Seq<UntiedParam> {
        self.untied@.map_values(|part: LayerUntied| self.part(part)) + self.block_untied@
    }

    /// Every parameter of this layer that is held once per application: its
    /// untied pre-norms, then those of its block.
    pub fn untied_params(&self) -> (params: Vec<UntiedParam>)
        requires
            self.wf(),
        ensures
            params@ == self.spec_untied_params(),
    {
        let mut params: Vec<UntiedParam> = Vec::new();
        let mut i: usize = 0;
        while i < self.untied.len()
            invariant
                i <= self.untied@.len(),
                self.wf(),
                params.len() == i,
                forall|j: int|
                    0 <= j < i ==> #[trigger] params@[j] == self.part(self.untied@[j]),
            decreases self.untied@.len() - i,
        {
            let part: LayerUntied = self.untied[i];
            assert(self.untied@.contains(part));
            let id: u64 = match part {
                LayerUntied::Norm => self.norm,
                LayerUntied::Norm2 => match self.norm2 {
                    Some(id) => id,
                    None => 0,
                },
            };
            params.push(UntiedParam { id, axis: 0 });
            i = i + 1;
        }
        let mut j: usize = 0;
        let ghost own = params@;
        while j < self.block_untied.len()
            invariant
                j <= self.block_untied@.len(),
                params@ == own + self.block_untied@.take(j as int),
            decreases self.block_untied@.len() - j,
        {
            params.push(self.block_untied[j]);
            assert(self.block_untied@.take(j + 1) =~= self.block_untied@.take(j as int).push(
                self.block_untied@[j as int],
            ));
            j = j + 1;
        }
        assert(self.block_untied@.take(j as int) =~= self.block_untied@);
        assert(params@ =~= self.spec_untied_params());
        params
    }

    /// Whether any weight of this layer differs between its applications.
    pub open spec fn spec_has_untied(self) -> bool {
        self.n_applications > 1 && self.spec_untied_params().len() != 0
    }

    /// Whether any weight of this layer differs between its applications.
    pub fn has_untied(&self) -> (found: bool)
        requires
            self.wf(),
        ensures
            found == self.spec_has_untied(),
    {
        self.n_applications > 1 && self.untied_params().len() != 0
    }

    /// Whether the layer has a copy to read for `application`: nothing differs
    /// between its applications, or it was built for that many.
    pub open spec fn has_application(self, application: int) -> bool {
        self.n_applications == 1 || self.spec_untied_params().len() == 0 || application
            < self.n_applications
    }

    /// This layer as its `application`-th application sees it. Each untied
    /// parameter is narrowed to the copy of that application, and everything
    /// else is shared.
    ///
    /// When nothing differs between the applications, this is the layer itself.
    /// So a layer built for a single application reads that copy at any
    /// application.
    pub fn application(&self, application: usize) -> (view: LayerView)
        requires
            self.wf(),
            self.has_application(application as int),
        ensures
            view is Itself == (self.n_applications == 1 || self.spec_untied_params().len() == 0),
            view matches LayerView::Copy { params, application: k, n_applications } ==> params@
                == self.spec_untied_params() && k == application && n_applications
                == self.n_applications && k < n_applications,
    {
        if self.n_applications == 1 {
            return LayerView::Itself;
        }
        let params = self.untied_params();
        if params.len() == 0 {
            return LayerView::Itself;
        }
        LayerView::Copy { params, application, n_applications: self.n_applications }
    }

    /// The parameters to reset to copies of their first application, on a layer
    /// that something redrew after the build.
    pub fn retie(&self) -> (params: Vec<UntiedParam>)
        requires
            self.wf(),
        ensures
            params@ == (if self.n_applications == 1 {
                Seq::empty()
            } else {
                self.spec_untied_params()
            }),
    {
        let params = self.untied_params();
        if crate::utils::untied::retie(params.as_slice(), self.n_applications) {
            params
        } else {
            let none: Vec<UntiedParam> = Vec::new();
            assert(none@ =~= Seq::<UntiedParam>::empty());
            assert(params@.len() == 0 ==> params@ =~= Seq::<UntiedParam>::empty());
            none
        }
    }

    /// The runs that this layer's class latents cut a chunk of `rows` tokens
    /// into, and the cursor past the chunk. Without a cursor, the chunk is the
    /// whole sequence.
    pub fn insert_latents(&self, rows: usize, cursor: Option<ClassCursor>) -> (out: (
        Vec<Segment>,
        ClassCursor,
    ))
        requires
            class::placement(
                self.class_latents@,
                cursor_or_whole(cursor, rows),
                rows as int,
                false,
            ).fits(),
        ensures
            runs_of(
                out.0@,
                class::placement(
                    self.class_latents@,
                    cursor_or_whole(cursor, rows),
                    rows as int,
                    false,
                ),
            ),
            advanced(
                out.1,
                class::placement(
                    self.class_latents@,
                    cursor_or_whole(cursor, rows),
                    rows as int,
                    false,
                ),
            ),
    {
        let mut at = match cursor {
            Some(cursor) => cursor,
            None => ClassCursor::whole(rows),
        };
        proof {
            laws::plan_names_places(
                class::placement(self.class_latents@, at, rows as int, false),
            );
        }
        let plan = class_chunk_plan(self.class_latents.as_slice(), rows, &mut at);
        (splice::splice_class_rows(&plan, rows), at)
    }

    /// What a single-token step of this layer runs, in order: the latents
    /// whose position falls on this token get a step of their own, around the
    /// token. The last run is what the step returns. Without a cursor, no class
    /// latents are injected.
    pub fn step(&self, cursor: Option<ClassCursor>) -> (out: (Vec<Segment>, Option<ClassCursor>))
        requires
            match cursor {
                Some(cursor) => class::placement(self.class_latents@, cursor, 1, false).fits(),
                None => class::resolvable(class::marks(self.class_latents@), None),
            },
        ensures
            out.1 is Some == cursor is Some,
            cursor matches Some(cursor) ==> {
                let call = class::placement(self.class_latents@, cursor, 1, false);
                runs_of(out.0@, call) && advanced(out.1->Some_0, call)
            },
            cursor is None ==> splice::segment_rows(out.0@) == splice::token_rows(1),
    {
        match cursor {
            None => {
                let plan: Vec<(usize, usize)> = Vec::new();
                proof {
                    let pairs = class::int_pairs(plan@);
                    assert(splice::plan_ats(pairs) =~= Seq::<int>::empty());
                    assert(pairs =~= Seq::<(int, int)>::empty());
                }
                (splice::splice_class_rows(&plan, 1), None)
            },
            Some(cursor) => {
                let mut at = cursor;
                proof {
                    laws::plan_names_places(class::placement(self.class_latents@, at, 1, false));
                }
                let plan = class_chunk_plan(self.class_latents.as_slice(), 1, &mut at);
                (splice::splice_class_rows(&plan, 1), Some(at))
            },
        }
    }

    /// What a prime of this layer runs, in order: the latents that wait for its
    /// next token, with no token. The last run is what the prime returns; none
    /// when nothing waits.
    pub fn prime(&self, cursor: Option<ClassCursor>) -> (out: (Vec<Segment>, Option<ClassCursor>))
        requires
            match cursor {
                Some(cursor) => class::placement(self.class_latents@, cursor, 0, true).fits(),
                None => class::resolvable(class::marks(self.class_latents@), None),
            },
        ensures
            out.1 is Some == cursor is Some,
            cursor matches Some(cursor) ==> {
                let call = class::placement(self.class_latents@, cursor, 0, true);
                runs_of(out.0@, call) && advanced(out.1->Some_0, call)
            },
            cursor is None ==> out.0@.len() == 0,
    {
        match cursor {
            None => (Vec::new(), None),
            Some(cursor) => {
                let mut at = cursor;
                proof {
                    laws::plan_names_places(class::placement(self.class_latents@, at, 0, true));
                }
                let plan = class_prime_plan(self.class_latents.as_slice(), 0, &mut at);
                (splice::splice_class_rows(&plan, 0), Some(at))
            },
        }
    }
}

/// The cursor of a call: the one given, or that of a whole sequence of `rows`.
pub open spec fn cursor_or_whole(cursor: Option<ClassCursor>, rows: usize) -> ClassCursor {
    match cursor {
        Some(cursor) => cursor,
        None => ClassCursor { offset: 0, full_len: Some(rows) },
    }
}

/// Whether the runs are those that the plan of `call` cuts its chunk into.
pub open spec fn runs_of(segments: Seq<Segment>, call: class::Placement) -> bool {
    splice::segment_rows(segments) == splice::spliced_plan(
        splice::token_rows(call.chunk),
        call.plan(),
        splice::marker_row(),
    )
}

/// Whether the cursor is past `call`.
pub open spec fn advanced(cursor: ClassCursor, call: class::Placement) -> bool {
    cursor.offset == call.next_offset() && cursor.full_len == call.full_len
}

} // verus!
