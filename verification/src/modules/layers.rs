//! The (virtual-)layer stack over real weight sets: what every call of it does,
//! layer by layer.
//!
//! A call is planned whole before any layer runs: which real layer each virtual
//! one applies, which class latents it splices around the rows it receives,
//! where the stack leaves and re-enters the gradient graph, and what becomes of
//! the residual. The rows themselves are the caller's.
use crate::modules::insert::{can_insert, insert_class_markers_padded};
use crate::modules::layer;
use crate::modules::layer::{Layer, LayerView};
use crate::modules::multi_gate::{ResidualOp, Residuals};
use crate::modules::stack;
use crate::modules::stack::StackCall;
use crate::utils::class;
use crate::utils::class::laws;
use crate::utils::class::splice::Segment;
use crate::utils::class::{
    class_marker_output_indices, full_len_known, landing_count, ClassCursor,
    ClassCursors, ClassLatent, ClassMarker, Cursors, Marker,
};
use crate::utils::packing::Packed;
use crate::utils::padding;
use crate::utils::padding::Padding;
use crate::utils::schedule;
use crate::utils::schedule::{Applications, GradHorizon, Schedule};
use vstd::prelude::*;

verus! {

/// A stack of [`Layer`]s with optional virtual-layer scheduling.
#[derive(Debug, Clone)]
pub struct Layers {
    /// Number of real (weight-bearing) layers.
    pub n_real_layers: usize,
    /// Optional `(n_virtual_layers, schedule)` for weight-sharing.
    pub n_virtual_layers: Option<(usize, Schedule)>,
    /// The weight-bearing layers, length `n_real_layers`.
    pub real_layers: Vec<Layer>,
    /// Zero the first virtual layer's residual when `true`.
    pub ignore_first_residual: bool,
    /// Zero the last virtual layer's residual when `true`.
    pub ignore_last_residual: bool,
    /// How residuals are threaded between layers.
    pub residuals: Residuals,
    /// Positions of the stack-level class latents, spliced into the sequence
    /// once before the first virtual layer (independent of any per-layer class
    /// latents). Empty: none.
    pub class_latents: Vec<ClassLatent>,
    /// Back-propagate only **some** of the (virtual) layers. The other layers
    /// run without an autodiff graph. `None` keeps the whole stack in it.
    pub grad_horizon: Option<GradHorizon>,
}

/// What a call does at the boundary below a virtual layer.
#[derive(Debug, Clone, Copy, PartialEq, Eq, Structural)]
pub enum Boundary {
    /// The layer runs on the same side of the gradient graph as the one below.
    Stay,
    /// An untracked segment starts: take the straight-through carry, then send
    /// the rows and their streams down.
    Cut,
    /// An untracked segment ends: lift what it produced back, and re-attach the
    /// carry.
    Lift,
}

/// What a call does with one virtual layer.
#[derive(Debug, Clone, PartialEq, Eq)]
pub struct LayerPass {
    /// What happens at the boundary below the layer.
    pub boundary: Boundary,
    /// Whether the layer builds a graph.
    pub track: bool,
    /// The real layer that runs.
    pub layer: usize,
    /// The application of the real layer that this is.
    pub application: usize,
    /// The real layer as this application sees it.
    pub view: LayerView,
    /// The rows that the layer receives.
    pub rows: usize,
    /// The rows that it runs: those that it receives, with its own class
    /// latents spliced in.
    pub segments: Vec<Segment>,
    /// Whether nothing reaches the layer, and it adds nothing.
    pub idle: bool,
    /// The residual streams that enter the layer.
    pub streams: usize,
    /// What becomes of the residual.
    pub residual: ResidualOp,
}

/// What a call does.
#[derive(Debug)]
pub struct StackPass {
    /// The rows that enter the first layer: those of the call, with the class
    /// latents of the stack spliced in.
    pub segments: Vec<Segment>,
    /// What happens to each virtual layer, in order.
    pub passes: Vec<LayerPass>,
    /// The padding of the rows that enter the stack, that enter the first
    /// layer, and that each layer runs. Empty where nothing is padded.
    pub paddings: Vec<Padding>,
    /// Whether the stack ends inside an untracked segment, whose output is
    /// lifted back.
    pub lift: bool,
    /// The rows that leave the stack.
    pub rows: usize,
    /// The cursors past the call.
    pub class: Option<ClassCursors>,
}

impl Layers {
    /// The schedule of the stack, when it runs virtual layers.
    pub open spec fn schedule(self) -> Option<Schedule> {
        match self.n_virtual_layers {
            Some((_, schedule)) => Some(schedule),
            None => None,
        }
    }

    /// The number of (virtual) layers that the stack runs.
    pub open spec fn count(self) -> int {
        match self.n_virtual_layers {
            Some((n, _)) => n as int,
            None => self.n_real_layers as int,
        }
    }

    /// The real layer of each virtual layer.
    pub open spec fn reals(self) -> Seq<int> {
        schedule::virtual_reals(self.schedule(), self.count(), self.n_real_layers as int)
    }

    /// The application of its real layer that virtual layer `i` is.
    pub open spec fn application(self, i: int) -> int {
        schedule::applied(self.reals(), 0, i, self.reals()[i]) as int
    }

    /// Whether virtual layer `i` has a mixing module where it uses one. A layer
    /// whose residual is suppressed uses none.
    pub open spec fn mixes(self, i: int) -> bool {
        self.residuals matches Residuals::MultiGate(mg) ==> self.first(i) || self.last(i)
            || mg.spec_module_index(i, self.reals()[i]) < mg.n_modules
    }

    /// Every virtual layer runs a real layer that exists, as an application it
    /// has a copy for, and has the mixing module that it uses.
    pub open spec fn wf(self) -> bool {
        &&& self.n_real_layers >= 1
        &&& self.real_layers@.len() == self.n_real_layers
        &&& self.schedule() matches Some(s) ==> s.covers(self.count(), self.n_real_layers as int)
        &&& self.count() < usize::MAX
        &&& self.residuals.wf()
        &&& forall|r: int| 0 <= r < self.real_layers@.len() ==> (#[trigger] self.real_layers@[r]).wf()
        &&& forall|i: int|
            0 <= i < self.count() ==> self.real_layers@[#[trigger] self.reals()[i]].has_application(
                self.application(i),
            )
        &&& forall|i: int| 0 <= i < self.count() ==> #[trigger] self.mixes(i)
    }

    /// The markers of level `j`: those of the stack, then those of each virtual
    /// layer.
    pub open spec fn level(self, j: int) -> Seq<Marker> {
        if j <= 0 {
            class::marks(self.class_latents@)
        } else {
            class::marks(self.real_layers@[self.reals()[j - 1]].class_latents@)
        }
    }

    /// The markers of every level.
    pub open spec fn levels(self) -> Seq<Seq<Marker>> {
        Seq::new((self.count() + 1) as nat, |j: int| self.level(j))
    }

    /// The call through every level that `rows` rows make from `class`. Without
    /// cursors, nothing is injected anywhere.
    pub open spec fn call(self, class: Option<Cursors>, rows: int, prime: bool) -> StackCall {
        match class {
            Some(c) => StackCall {
                levels: self.levels(),
                full_len: c.full_len,
                offsets: cursor_offsets(c, self.count()),
                rows,
                prime,
            },
            None => StackCall {
                levels: Seq::new((self.count() + 1) as nat, |j: int| Seq::empty()),
                full_len: None,
                offsets: Seq::new((self.count() + 1) as nat, |j: int| 0int),
                rows,
                prime,
            },
        }
    }

    /// Whether the cursors are those of this stack, and place every marker that
    /// the call injects. Without cursors, no marker may need a length.
    pub open spec fn places(self, class: Option<Cursors>, rows: int, prime: bool) -> bool {
        &&& self.call(class, rows, prime).fits()
        &&& match class {
            Some(c) => c.per_layer.len() == 0 || c.per_layer.len() == self.count(),
            None => forall|j: int|
                0 <= j <= self.count() ==> class::resolvable(#[trigger] self.level(j), None),
        }
    }

    /// Which virtual layers back-propagate under the horizon of the stack.
    pub open spec fn horizon_mask(self) -> Seq<bool> {
        Seq::new(
            self.count() as nat,
            |i: int| self.grad_horizon->Some_0.tracks(self.reals(), i),
        )
    }

    /// Whether virtual layer `i` back-propagates. Off the autodiff backend
    /// there is nothing to cut.
    pub open spec fn tracks(self, on_autodiff: bool, i: int) -> bool {
        !on_autodiff || self.grad_horizon is None || self.horizon_mask()[i]
    }

    /// Whether the horizon of the stack resolves, and leaves out no application
    /// of a layer with untied weights, whose copy would never train.
    pub open spec fn cuts(self, on_autodiff: bool) -> bool {
        on_autodiff ==> (self.grad_horizon matches Some(h) ==> h.fits(
            self.schedule(),
            self.count(),
            self.n_real_layers as int,
        ) && forall|i: int|
            0 <= i < self.count() && !(#[trigger] self.tracks(on_autodiff, i))
                ==> !self.real_layers@[self.reals()[i]].spec_has_untied())
    }

    /// What happens at the boundary below virtual layer `i`.
    pub open spec fn boundary(self, on_autodiff: bool, i: int) -> Boundary {
        let inside = i > 0 && !self.tracks(on_autodiff, i - 1);
        if !inside && !self.tracks(on_autodiff, i) {
            Boundary::Cut
        } else if inside && self.tracks(on_autodiff, i) {
            Boundary::Lift
        } else {
            Boundary::Stay
        }
    }

    /// Whether the residual of virtual layer `i` is the suppressed first one.
    pub open spec fn first(self, i: int) -> bool {
        self.ignore_first_residual && i == 0
    }

    /// Whether the residual of virtual layer `i` is the suppressed last one.
    pub open spec fn last(self, i: int) -> bool {
        self.ignore_last_residual && i + 1 == self.count()
    }

    /// The residual streams that enter virtual layer `i`. They follow the depth
    /// alone.
    pub open spec fn streams(self, i: int) -> int
        decreases i,
    {
        if i <= 0 {
            1
        } else {
            self.residuals.next_streams(self.first(i - 1), self.last(i - 1), self.streams(i - 1))
        }
    }

    /// Whether `pass` is what `call` does with virtual layer `i`.
    pub open spec fn is_layer_pass(
        self,
        pass: LayerPass,
        call: StackCall,
        on_autodiff: bool,
        i: int,
    ) -> bool {
        let real_idx = self.reals()[i];
        &&& pass.boundary == self.boundary(on_autodiff, i)
        &&& pass.track == self.tracks(on_autodiff, i)
        &&& pass.layer == real_idx
        &&& pass.application == self.application(i)
        &&& is_view(self.real_layers@[real_idx], pass.application, pass.view)
        &&& pass.rows == call.rows_at(i + 1)
        &&& layer::runs_of(pass.segments@, call.call(i + 1))
        &&& pass.idle == (call.rows_at(i + 2) == 0)
        &&& pass.streams == self.streams(i)
        &&& pass.residual == self.residuals.op(
            self.first(i),
            self.last(i),
            self.streams(i),
            i,
            real_idx,
        )
    }

    /// Whether `pass` is what `call` does.
    pub open spec fn is_pass(self, pass: StackPass, call: StackCall, on_autodiff: bool) -> bool {
        &&& layer::runs_of(pass.segments@, call.call(0))
        &&& pass.passes@.len() == self.count()
        &&& forall|i: int|
            0 <= i < self.count() ==> self.is_layer_pass(
                #[trigger] pass.passes@[i],
                call,
                on_autodiff,
                i,
            )
        &&& pass.lift == (self.count() > 0 && !self.tracks(on_autodiff, self.count() - 1))
        &&& pass.rows == call.rows_out()
    }
}

impl Layers {
    /// Whether `pass` is what a call of `rows` rows does from `class`: its
    /// layers, the cursors past it, and the padding at every level.
    pub open spec fn is_call(
        self,
        pass: StackPass,
        class: Option<Cursors>,
        rows: int,
        prime: bool,
        padding: Option<Padding>,
        on_autodiff: bool,
    ) -> bool {
        let call = self.call(class, rows, prime);
        &&& self.is_pass(pass, call, on_autodiff)
        &&& match class {
            Some(c) => pass.class matches Some(next) && are_past(next@, c, call, self.count()),
            None => pass.class is None,
        }
        &&& match padding {
            Some(p) => pass.paddings@.len() > 0 && pass.paddings@[0] == p
                && stack::paddings_follow(call, pass.paddings@),
            None => pass.paddings@.len() == 0,
        }
    }
}

/// The output position of each level: that of the stack, then those of the
/// virtual layers.
pub open spec fn cursor_offsets(class: Cursors, n: int) -> Seq<int> {
    Seq::new(
        (n + 1) as nat,
        |j: int|
            if j <= 0 {
                class.stack as int
            } else {
                class::fitted(class.per_layer, n)[j - 1] as int
            },
    )
}

/// Whether `view` is the layer as its `application`-th application sees it.
pub open spec fn is_view(layer: Layer, application: usize, view: LayerView) -> bool {
    match view {
        LayerView::Itself => layer.n_applications == 1 || layer.spec_untied_params().len() == 0,
        LayerView::Copy { params, application: k, n_applications } => {
            &&& layer.n_applications != 1
            &&& layer.spec_untied_params().len() != 0
            &&& params@ == layer.spec_untied_params()
            &&& k == application
            &&& n_applications == layer.n_applications
            &&& k < n_applications
        },
    }
}

/// Whether `next` are the cursors past `call`, from `class`.
pub open spec fn are_past(next: Cursors, class: Cursors, call: StackCall, n: int) -> bool {
    &&& next.full_len == class.full_len
    &&& next.network == class.network
    &&& next.per_layer.len() == n
    &&& cursor_offsets(next, n) == call.next_offsets()
}

impl Layers {
    /// Output positions of the stack-level class latents for an `orig_len`
    /// input. A marker that never lands reports a position past the emitted
    /// sequence.
    pub fn class_latent_output_indices(&self, orig_len: usize) -> (out: Vec<usize>)
        requires
            class::placeable(class::marks(self.class_latents@), orig_len as int),
        ensures
            out@.len() == self.class_latents@.len(),
            forall|i: int|
                0 <= i < out@.len() ==> #[trigger] out@[i] == class::output_position(
                    class::marks(self.class_latents@),
                    orig_len as int,
                    i,
                ),
    {
        class_marker_output_indices(self.class_latents.as_slice(), orig_len)
    }

    /// Whether every class latent that the stack splices (its own and those of
    /// each layer) is a `Start`. Then, after the opening of a sequence has run,
    /// no later step emits one.
    pub fn only_start_latents(&self) -> (only: bool)
        ensures
            only == (all_start(self.class_latents@) && forall|r: int|
                0 <= r < self.real_layers@.len() ==> all_start(
                    (#[trigger] self.real_layers@[r]).class_latents@,
                )),
    {
        if !only_starts(&self.class_latents) {
            return false;
        }
        let mut r: usize = 0;
        while r < self.real_layers.len()
            invariant
                r <= self.real_layers@.len(),
                forall|s: int|
                    0 <= s < r ==> all_start((#[trigger] self.real_layers@[s]).class_latents@),
            decreases self.real_layers@.len() - r,
        {
            if !only_starts(&self.real_layers[r].class_latents) {
                return false;
            }
            r = r + 1;
        }
        true
    }

    /// Number of (virtual) layers this stack runs.
    pub fn n_virtual_count(&self) -> (n: usize)
        ensures
            n == self.count(),
    {
        match &self.n_virtual_layers {
            Some((n, _)) => *n,
            None => self.n_real_layers,
        }
    }

    /// The real layer of virtual layer `virtual_idx`.
    pub fn real_idx(&self, virtual_idx: usize) -> (layer: usize)
        requires
            self.wf(),
            virtual_idx < self.count(),
        ensures
            layer == self.reals()[virtual_idx as int],
            layer < self.n_real_layers,
    {
        match &self.n_virtual_layers {
            Some((n, schedule)) => {
                assert(schedule.lands(
                    virtual_idx as int,
                    *n as int,
                    self.n_real_layers as int,
                ));
                schedule.real_idx(virtual_idx, *n, self.n_real_layers)
            },
            None => virtual_idx,
        }
    }

    /// For each virtual layer, which application of its real layer it is.
    pub fn applications(&self) -> (apps: Applications)
        requires
            self.schedule() matches Some(s) ==> s.covers(
                self.count(),
                self.n_real_layers as int,
            ),
        ensures
            apps.counts(self.reals(), self.n_real_layers as int),
    {
        stack_applications(&self.n_virtual_layers, self.n_real_layers)
    }

    /// Which of the virtual layers back-propagate, per [`Self::grad_horizon`].
    /// A `false` layer runs on the inner backend, and a `true` layer builds the
    /// graph. `None`: no cut anywhere.
    ///
    /// There is no cut off the autodiff backend. A mask that keeps every layer
    /// is the untouched stack, so it is no cut either.
    pub fn grad_tracked(&self, on_autodiff: bool) -> (mask: Option<Vec<bool>>)
        requires
            self.wf(),
            self.cuts(on_autodiff),
        ensures
            mask matches Some(m) ==> m@.len() == self.count(),
            mask is Some == (exists|i: int|
                0 <= i < self.count() && !(#[trigger] self.tracks(on_autodiff, i))),
            forall|i: int|
                0 <= i < self.count() ==> (match mask {
                    Some(m) => m@[i],
                    None => true,
                }) == #[trigger] self.tracks(on_autodiff, i),
    {
        if !on_autodiff {
            return None;
        }
        match &self.grad_horizon {
            None => None,
            Some(horizon) => {
                let n: usize = self.n_virtual_count();
                let schedule = match &self.n_virtual_layers {
                    Some((_, schedule)) => Some(schedule),
                    None => None,
                };
                let mask = horizon.tracked_mask(schedule, n, self.n_real_layers);
                proof {
                    assert(mask@ =~= self.horizon_mask());
                    assert forall|i: int| 0 <= i < n implies mask@[i] == #[trigger] self.tracks(
                        on_autodiff,
                        i,
                    ) by {
                        assert(self.horizon_mask()[i] == mask@[i]);
                    }
                }
                let mut i: usize = 0;
                while i < n
                    invariant
                        i <= n,
                        n == self.count(),
                        mask@.len() == n,
                        forall|j: int|
                            0 <= j < n ==> mask@[j] == #[trigger] self.tracks(on_autodiff, j),
                        forall|j: int| 0 <= j < i ==> #[trigger] self.tracks(on_autodiff, j),
                    decreases n - i,
                {
                    if !mask[i] {
                        assert(!self.tracks(on_autodiff, i as int));
                        return Some(mask);
                    }
                    assert(self.tracks(on_autodiff, i as int));
                    i = i + 1;
                }
                None
            },
        }
    }
}

/// Whether every latent opens the sequence.
pub open spec fn all_start(latents: Seq<ClassLatent>) -> bool {
    forall|i: int| 0 <= i < latents.len() ==> (#[trigger] latents[i]) is Start
}

/// Whether every latent opens the sequence.
fn only_starts(latents: &Vec<ClassLatent>) -> (only: bool)
    ensures
        only == all_start(latents@),
{
    let mut i: usize = 0;
    while i < latents.len()
        invariant
            i <= latents@.len(),
            forall|j: int| 0 <= j < i ==> (#[trigger] latents@[j]) is Start,
        decreases latents@.len() - i,
    {
        if !matches!(latents[i], ClassLatent::Start) {
            return false;
        }
        i = i + 1;
    }
    true
}

/// The applications of a stack of `n_real_layers` under this optional virtual
/// scheduling (none: each real layer applied once).
pub fn stack_applications(
    n_virtual_layers: &Option<(usize, Schedule)>,
    n_real_layers: usize,
) -> (apps: Applications)
    requires
        n_virtual_layers matches Some((n, s)) ==> s.covers(n as int, n_real_layers as int),
    ensures
        apps.counts(
            match *n_virtual_layers {
                Some((n, s)) => schedule::virtual_reals(
                    Some(s),
                    n as int,
                    n_real_layers as int,
                ),
                None => schedule::virtual_reals(
                    None,
                    n_real_layers as int,
                    n_real_layers as int,
                ),
            },
            n_real_layers as int,
        ),
{
    match n_virtual_layers {
        Some((n, schedule)) => schedule.applications(*n, n_real_layers),
        None => {
            let mut reals: Vec<usize> = Vec::new();
            let mut i: usize = 0;
            while i < n_real_layers
                invariant
                    i <= n_real_layers,
                    reals.len() == i,
                    forall|j: int| 0 <= j < i ==> #[trigger] reals@[j] == j,
                decreases n_real_layers - i,
            {
                reals.push(i);
                i = i + 1;
            }
            assert(crate::utils::order::ints(reals@) =~= schedule::virtual_reals(
                None,
                n_real_layers as int,
                n_real_layers as int,
            ));
            Applications::new(&reals, n_real_layers)
        },
    }
}

/// What a call does at one level.
pub struct Level {
    /// The rows that leave the level.
    pub segments: Vec<Segment>,
    /// How many they are.
    pub rows: usize,
    /// Their padding.
    pub padding: Option<Padding>,
    /// The announced length of the sequence that leaves the level.
    pub full: Option<usize>,
}

/// One level of a call: place its markers, and let the padding follow.
pub fn place_level<M: ClassMarker>(
    markers: &Vec<M>,
    cursor: &mut ClassCursor,
    rows: usize,
    prime: bool,
    padding: Option<&Padding>,
) -> (level: Level)
    requires
        class::placement(markers@, *old(cursor), rows as int, prime).fits(),
        class::len_fits(class::grown(class::marks(markers@), old(cursor).full_len)),
        padding matches Some(p) ==> p.wf() && p.batch() > 0 && p.rows() == rows
            && stack::middles_fit(class::placement(markers@, *old(cursor), rows as int, prime)),
    ensures
        layer::runs_of(
            level.segments@,
            class::placement(markers@, *old(cursor), rows as int, prime),
        ),
        layer::advanced(
            *final(cursor),
            class::placement(markers@, *old(cursor), rows as int, prime),
        ),
        level.rows == rows + class::placement(
            markers@,
            *old(cursor),
            rows as int,
            prime,
        ).plan().len(),
        level.full == class::machine_len(
            class::grown(class::marks(markers@), old(cursor).full_len),
        ),
        level.padding is Some == padding is Some,
        level.padding matches Some(next) ==> next.wf() && next.batch() == padding->Some_0.batch()
            && next.rows() == level.rows && padding->Some_0.splices_to(
            class::placement(markers@, *old(cursor), rows as int, prime).plan(),
            class::marks(markers@),
            next,
        ),
{
    let full: Option<usize> = match cursor.full_len {
        Some(len) => Some(len + landing_count(markers.as_slice(), len)),
        None => None,
    };
    let inserted = insert_class_markers_padded(markers, cursor, rows, prime, padding);
    Level {
        segments: inserted.segments,
        rows: inserted.rows,
        padding: inserted.padding,
        full,
    }
}

impl Layers {
    /// Whether the call can run: its markers can be placed, its cuts resolve,
    /// and its padding can follow.
    pub open spec fn runs(
        self,
        class: Option<Cursors>,
        rows: int,
        prime: bool,
        padding: Option<Padding>,
        on_autodiff: bool,
    ) -> bool {
        &&& self.wf()
        &&& self.cuts(on_autodiff)
        &&& self.places(class, rows, prime)
        &&& padding matches Some(p) ==> p.wf() && p.batch() > 0 && p.rows() == rows && self.call(
            class,
            rows,
            prime,
        ).pads()
    }

    /// Thread `rows` rows up through every (virtual) layer. Each layer splices
    /// its own class latents into what it receives, and hands the result to the
    /// next layer.
    ///
    /// This is the shared body of [`Self::forward`], [`Self::step`] and
    /// [`Self::prime`]. They differ in the rows that they open with, and in what
    /// a level emits at the **end** of the rows that it receives: an ordinary
    /// call leaves those latents for the row that they precede (only a closing
    /// `End` trails one), and a prime emits the latents that are due before
    /// that next row.
    fn cascade(
        &self,
        rows: usize,
        class: Option<ClassCursors>,
        prime: bool,
        padding: Option<Padding>,
        on_autodiff: bool,
    ) -> (pass: StackPass)
        requires
            self.runs(class::cursors(class), rows as int, prime, padding, on_autodiff),
        ensures
            self.is_call(
                pass,
                class::cursors(class),
                rows as int,
                prime,
                padding,
                on_autodiff,
            ),
    {
        let ghost call = self.call(class::cursors(class), rows as int, prime);
        let ghost before = class::cursors(class);
        let n: usize = self.n_virtual_count();
        let inject = class.is_some();
        let nothing: Vec<ClassLatent> = Vec::new();
        let mut cursors = match class {
            Some(c) => c,
            None => ClassCursors::stream(),
        };
        cursors.fit(n);
        let mask = self.grad_tracked(on_autodiff);
        let apps = self.applications();
        let padded = padding.is_some();
        let mut paddings: Vec<Padding> = Vec::new();
        if let Some(p) = padding {
            paddings.push(p);
        }

        let stack_latents = if inject {
            &self.class_latents
        } else {
            &nothing
        };
        let mut cursor = ClassCursor::at(cursors.stack, cursors.full_len);
        proof {
            assert(call.level_fits(0));
            assert(class::marks(nothing@) =~= Seq::<Marker>::empty());
            assert(call.call(0) == class::placement(
                stack_latents@,
                cursor,
                rows as int,
                prime,
            ));
            assert(padded ==> stack::middles_fit(call.call(0)));
        }
        let bottom = place_level(
            stack_latents,
            &mut cursor,
            rows,
            prime,
            if padded {
                Some(&paddings[0])
            } else {
                None
            },
        );
        let segments = bottom.segments;
        let mut rows_in: usize = bottom.rows;
        let mut full: Option<usize> = bottom.full;
        if let Some(p) = bottom.padding {
            paddings.push(p);
        }
        let stack_offset: usize = cursor.offset;
        let mut per_layer: Vec<usize> = Vec::new();
        let mut passes: Vec<LayerPass> = Vec::new();
        let mut streams: usize = 1;
        let mut inside = false;
        let mut i: usize = 0;
        while i < n
            invariant
                self.runs(before, rows as int, prime, padding, on_autodiff),
                call == self.call(before, rows as int, prime),
                n == self.count(),
                inject == before is Some,
                nothing@.len() == 0,
                before matches Some(c) ==> cursors.per_layer@ == class::fitted(c.per_layer, n as int),
                before is None ==> cursors.per_layer@ == class::fitted(Seq::empty(), n as int),
                cursors.per_layer@.len() == n,
                mask matches Some(m) ==> m@.len() == n,
                forall|i: int|
                    0 <= i < n ==> (match mask {
                        Some(m) => m@[i],
                        None => true,
                    }) == #[trigger] self.tracks(on_autodiff, i),
                apps.counts(self.reals(), self.n_real_layers as int),
                padded == padding is Some,
                i <= n,
                rows_in == call.rows_at(i + 1),
                full == call.full_at(i + 1),
                streams == self.streams(i as int),
                inside == (i > 0 && !self.tracks(on_autodiff, i - 1)),
                per_layer.len() == i,
                forall|j: int|
                    0 <= j < i ==> #[trigger] per_layer@[j] == call.call(j + 1).next_offset(),
                passes.len() == i,
                forall|j: int|
                    0 <= j < i ==> self.is_layer_pass(
                        #[trigger] passes@[j],
                        call,
                        on_autodiff,
                        j,
                    ),
                !padded ==> paddings.len() == 0,
                padded ==> {
                    &&& paddings.len() == i + 2
                    &&& paddings@[0] == padding->Some_0
                    &&& forall|j: int| 0 <= j < paddings@.len() ==> (#[trigger] paddings@[j]).wf()
                    &&& forall|j: int|
                        0 <= j < i + 1 ==> (#[trigger] paddings@[j]).splices_to(
                            call.call(j).plan(),
                            call.levels[j],
                            paddings@[j + 1],
                        )
                    &&& paddings@[i + 1].batch() > 0
                    &&& paddings@[i + 1].rows() == rows_in
                },
            decreases n - i,
        {
            let real_idx: usize = self.real_idx(i);
            assert(self.tracks(on_autodiff, i as int) == self.tracks(on_autodiff, i as int));
            let track = match &mask {
                Some(m) => m[i],
                None => true,
            };
            let boundary = if !inside && !track {
                Boundary::Cut
            } else if inside && track {
                Boundary::Lift
            } else {
                Boundary::Stay
            };
            let layer = &self.real_layers[real_idx];
            let application: usize = apps.index[i];
            proof {
                assert(self.reals()[i as int] == real_idx);
                assert(layer.has_application(self.application(i as int)));
                assert(layer.wf());
            }
            let view = layer.application(application);
            let latents = if inject {
                &layer.class_latents
            } else {
                &nothing
            };
            let mut cursor = ClassCursor::at(cursors.per_layer[i], full);
            proof {
                assert(call.level_fits(i + 1));
                assert(class::marks(nothing@) =~= Seq::<Marker>::empty());
                assert(call.call(i + 1) == class::placement(
                    latents@,
                    cursor,
                    rows_in as int,
                    prime,
                ));
                assert(padded ==> stack::middles_fit(call.call(i + 1)));
            }
            let level = place_level(
                latents,
                &mut cursor,
                rows_in,
                prime,
                if padded {
                    Some(&paddings[i + 1])
                } else {
                    None
                },
            );
            per_layer.push(cursor.offset);
            if let Some(p) = level.padding {
                paddings.push(p);
            }
            let first = self.ignore_first_residual && i == 0;
            let last = self.ignore_last_residual && i + 1 == n;
            let (residual, next_streams) = self.residuals.step(first, last, streams, i, real_idx);
            passes.push(
                LayerPass {
                    boundary,
                    track,
                    layer: real_idx,
                    application,
                    view,
                    rows: rows_in,
                    segments: level.segments,
                    idle: level.rows == 0,
                    streams,
                    residual,
                },
            );
            rows_in = level.rows;
            full = level.full;
            streams = next_streams;
            inside = !track;
            i = i + 1;
        }
        let class = if inject {
            let next = ClassCursors {
                full_len: cursors.full_len,
                network: cursors.network,
                stack: stack_offset,
                per_layer,
            };
            proof {
                assert(cursor_offsets(next@, n as int) =~= call.next_offsets());
            }
            Some(next)
        } else {
            None
        };
        StackPass { segments, passes, paddings, lift: inside, rows: rows_in, class }
    }

    /// Full-sequence pass through every (virtual) layer.
    ///
    /// `class` places the stack-level and the per-layer class latents. `None`
    /// takes the `rows` as the whole sequence, so every latent lands in this
    /// call. Pass the same cursors to consecutive chunks to split the sequence
    /// without a move of any latent.
    ///
    /// `pad` (one row of flags per slot, `true` at padding) marks a right-padded
    /// batch. Every class latent is placed against the length of each slot.
    pub fn forward(
        &self,
        rows: usize,
        class: Option<ClassCursors>,
        pad: Option<Vec<Vec<bool>>>,
        on_autodiff: bool,
    ) -> (pass: StackPass)
        requires
            pad matches Some(pad) ==> padding::is_right_padded(pad@),
            self.runs(
                Some(class::cursors_or_whole(class, rows)),
                rows as int,
                false,
                padding_of(pad),
                on_autodiff,
            ),
        ensures
            self.is_forward(pass, class::cursors_or_whole(class, rows), rows, padding_of(pad), on_autodiff),
    {
        let padding = match pad {
            Some(pad) => Some(Padding::new(pad)),
            None => None,
        };
        self.forward_padded(rows, class, padding, on_autodiff)
    }

    /// [`Self::forward`] with the padding already followed. A container that
    /// splices its own markers below this stack calls this.
    pub fn forward_padded(
        &self,
        rows: usize,
        class: Option<ClassCursors>,
        padding: Option<Padding>,
        on_autodiff: bool,
    ) -> (pass: StackPass)
        requires
            self.runs(
                Some(class::cursors_or_whole(class, rows)),
                rows as int,
                false,
                padding,
                on_autodiff,
            ),
        ensures
            self.is_forward(pass, class::cursors_or_whole(class, rows), rows, padding, on_autodiff),
    {
        let class = match class {
            Some(class) => class,
            None => ClassCursors::new(rows),
        };
        self.cascade(rows, Some(class), false, padding, on_autodiff)
    }

    /// Whether `pass` is a full-sequence pass of `rows` rows from `class`.
    pub open spec fn is_forward(
        self,
        pass: StackPass,
        class: Cursors,
        rows: usize,
        padding: Option<Padding>,
        on_autodiff: bool,
    ) -> bool {
        self.is_call(pass, Some(class), rows as int, false, padding, on_autodiff)
    }

    /// [`Self::forward`] over packed rows. At each reset of `packed`, every layer
    /// restarts from a zero cache.
    ///
    /// The stack puts its class latents into the opening slots of each
    /// sequence, in place of the input rows. So nothing is spliced anywhere.
    /// Every class latent of the stack must be a `Start`, and a layer cannot
    /// have class latents of its own, because a splice would move the resets.
    pub fn forward_packed(&self, packed: &Packed, on_autodiff: bool) -> (pass: PackedPass)
        requires
            self.wf(),
            self.cuts(on_autodiff),
            self.packs(),
            packed.even(),
        ensures
            pass.places == (self.class_latents@.len() > 0),
            self.is_pass(
                pass.pass,
                self.call(None, packed.rows() as int, false),
                on_autodiff,
            ),
            pass.pass.class is None,
            pass.pass.rows == packed.rows(),
            pass.pass.paddings@.len() == 0,
    {
        let dims = packed.dims();
        let rows: usize = dims[1];
        proof {
            self.lemma_uninjected(rows as int, false);
            assert forall|j: int| 0 <= j <= self.count() implies class::resolvable(
                #[trigger] self.level(j),
                None,
            ) by {
                let ms = self.level(j);
                assert forall|i: int| 0 <= i < ms.len() implies !(
                #[trigger] ms[i]).is_relative() by {
                    if j == 0 {
                        assert(self.class_latents@[i] is Start);
                    } else {
                        let r = self.reals()[j - 1];
                        self.lemma_real_in_range(j - 1);
                        assert(self.real_layers@[r].class_latents@.len() == 0);
                    }
                }
            }
        }
        let pass = self.cascade(rows, None, false, None, on_autodiff);
        PackedPass { places: self.class_latents.len() > 0, pass }
    }

    /// Whether the stack can run packed rows: only its own latents, all of which
    /// open a sequence.
    pub open spec fn packs(self) -> bool {
        &&& all_start(self.class_latents@)
        &&& forall|r: int|
            0 <= r < self.real_layers@.len() ==> (
            #[trigger] self.real_layers@[r]).class_latents@.len() == 0
    }

    /// Whether the stack can run packed rows.
    pub fn can_pack(&self) -> (ok: bool)
        ensures
            ok == self.packs(),
    {
        if !only_starts(&self.class_latents) {
            return false;
        }
        let mut r: usize = 0;
        while r < self.real_layers.len()
            invariant
                r <= self.real_layers@.len(),
                forall|s: int|
                    0 <= s < r ==> (#[trigger] self.real_layers@[s]).class_latents@.len() == 0,
            decreases self.real_layers@.len() - r,
        {
            if self.real_layers[r].class_latents.len() != 0 {
                return false;
            }
            r = r + 1;
        }
        true
    }

    /// Every virtual layer runs a real layer that exists.
    pub proof fn lemma_real_in_range(self, i: int)
        requires
            self.wf(),
            0 <= i < self.count(),
        ensures
            0 <= self.reals()[i] < self.real_layers@.len(),
    {
        if let Some(s) = self.schedule() {
            assert(s.lands(i, self.count(), self.n_real_layers as int));
        }
    }

    /// A call without cursors emits the rows that it receives, and no others.
    pub proof fn lemma_uninjected(self, rows: int, prime: bool)
        requires
            0 <= rows <= usize::MAX,
        ensures
            self.call(None, rows, prime).fits(),
            forall|j: int|
                0 <= j <= self.count() + 1 ==> #[trigger] self.call(None, rows, prime).rows_at(j)
                    == rows,
    {
        let call = self.call(None, rows, prime);
        assert forall|j: int| 0 <= j <= self.count() + 1 implies #[trigger] call.rows_at(j)
            == rows by {
            self.lemma_uninjected_at(rows, prime, j);
        }
        assert forall|j: int| 0 <= j < call.levels.len() implies #[trigger] call.level_fits(
            j,
        ) by {
            self.lemma_uninjected_at(rows, prime, j);
            laws::plan_names_places(call.call(j));
        }
    }

    proof fn lemma_uninjected_at(self, rows: int, prime: bool, j: int)
        requires
            0 <= rows,
            0 <= j <= self.count() + 1,
        ensures
            self.call(None, rows, prime).rows_at(j) == rows,
            self.call(None, rows, prime).full_at(j) is None,
        decreases j,
    {
        let call = self.call(None, rows, prime);
        if j > 0 {
            self.lemma_uninjected_at(rows, prime, j - 1);
            laws::plan_names_places(call.call(j - 1));
        }
    }

    /// Single-token step through every (virtual) layer.
    ///
    /// The rows that enter the stack (the stack latents that fall on this step,
    /// around the user token) go up the stack, and each layer adds its own
    /// class latents to them. So the recurrence of every layer sees the same
    /// token order as in [`Self::forward`]. The step returns the **last** row
    /// that leaves the stack: the user token, unless an `End` latent follows
    /// it.
    ///
    /// `None` injects nothing at any level.
    pub fn step(&self, class: Option<ClassCursors>, on_autodiff: bool) -> (pass: StackPass)
        requires
            self.runs(class::cursors(class), 1, false, None, on_autodiff),
        ensures
            self.is_call(pass, class::cursors(class), 1, false, None, on_autodiff),
            pass.rows >= 1,
    {
        proof {
            let call = self.call(class::cursors(class), 1, false);
            assert(call.stands()) by {
                assert forall|j: int| 0 <= j < call.offsets.len() implies 0
                    <= #[trigger] call.offsets[j] by {
                    assert(call.level_fits(j));
                }
            }
            stack::levels_hand_up_what_they_receive(call, call.levels.len() as int);
        }
        self.cascade(1, class, false, None, on_autodiff)
    }

    /// Step the class latents that the stack has waiting for its next user
    /// token, with **no** user token.
    ///
    /// This is the opening half of [`Self::step`] on its own: a prime followed
    /// by a step runs exactly the sequence that the step alone would run. `End`
    /// latents are never primed. The prime returns the **last** row that leaves
    /// the stack, or nothing when no latent was waiting.
    ///
    /// When nothing ran, the caches come back as they went in. A partly primed
    /// stack without caches gets zero caches for the layers that stepped
    /// nothing, which is exactly the state that they hold. `None` cursors
    /// inject nothing.
    pub fn prime(&self, class: Option<ClassCursors>, has_caches: bool, on_autodiff: bool) -> (prime:
        PrimePass)
        requires
            match class {
                Some(_) => self.runs(class::cursors(class), 0, true, None, on_autodiff),
                None => self.resolves_unplaced(),
            },
        ensures
            self.is_prime(prime, class, has_caches, on_autodiff),
    {
        if class.is_none() {
            let zeros: Vec<bool> = Vec::new();
            assert(zeros@ =~= Seq::new(0, |i: int| false));
            return PrimePass { pass: None, zeros };
        }
        let pass = self.cascade(0, class, true, None, on_autodiff);
        let mut zeros: Vec<bool> = Vec::new();
        if !has_caches && pass.rows != 0 {
            let mut i: usize = 0;
            while i < pass.passes.len()
                invariant
                    i <= pass.passes@.len(),
                    zeros.len() == i,
                    forall|j: int| 0 <= j < i ==> #[trigger] zeros@[j] == pass.passes@[j].idle,
                decreases pass.passes@.len() - i,
            {
                zeros.push(pass.passes[i].idle);
                i = i + 1;
            }
            assert(zeros@ =~= Seq::new(
                pass.passes@.len(),
                |i: int| pass.passes@[i].idle,
            ));
        } else {
            assert(zeros@ =~= Seq::new(0, |i: int| false));
        }
        PrimePass { pass: Some(pass), zeros }
    }

    /// Whether `prime` is what a prime from `class` does.
    pub open spec fn is_prime(
        self,
        prime: PrimePass,
        class: Option<ClassCursors>,
        has_caches: bool,
        on_autodiff: bool,
    ) -> bool {
        &&& prime.pass is Some == class is Some
        &&& prime.pass matches Some(pass) ==> self.is_call(
            pass,
            class::cursors(class),
            0,
            true,
            None,
            on_autodiff,
        )
        &&& prime.zeros@ == (match prime.pass {
            Some(pass) => if has_caches || pass.rows == 0 {
                Seq::new(0, |i: int| false)
            } else {
                Seq::new(pass.passes@.len(), |i: int| pass.passes@[i].idle)
            },
            None => Seq::new(0, |i: int| false),
        })
    }

    /// Whether no marker of the stack or of a layer needs a length.
    pub open spec fn resolves_unplaced(self) -> bool {
        &&& class::resolvable(class::marks(self.class_latents@), None)
        &&& forall|r: int|
            0 <= r < self.real_layers@.len() ==> class::resolvable(
                class::marks((#[trigger] self.real_layers@[r]).class_latents@),
                None,
            )
    }

    /// Whether no marker of the stack or of a layer needs a length.
    pub fn can_run_unplaced(&self) -> (ok: bool)
        ensures
            ok == self.resolves_unplaced(),
    {
        if !full_len_known(self.class_latents.as_slice(), None) {
            return false;
        }
        let mut r: usize = 0;
        while r < self.real_layers.len()
            invariant
                r <= self.real_layers@.len(),
                forall|s: int|
                    0 <= s < r ==> class::resolvable(
                        class::marks((#[trigger] self.real_layers@[s]).class_latents@),
                        None,
                    ),
            decreases self.real_layers@.len() - r,
        {
            if !full_len_known(self.real_layers[r].class_latents.as_slice(), None) {
                return false;
            }
            r = r + 1;
        }
        true
    }

    /// Whether the stack is one that can run: every virtual layer runs a real
    /// layer that exists, as an application it has a copy for, and has the
    /// mixing module that it uses.
    pub fn is_valid(&self) -> (ok: bool)
        ensures
            ok == self.wf(),
    {
        let n: usize = self.n_virtual_count();
        if self.n_real_layers < 1 || self.real_layers.len() != self.n_real_layers || n
            == usize::MAX {
            return false;
        }
        if let Some((n, schedule)) = &self.n_virtual_layers {
            if !schedule.runs(*n, self.n_real_layers) {
                return false;
            }
        }
        if let Residuals::MultiGate(mg) = &self.residuals {
            if mg.n_stream == 0 {
                return false;
            }
        }
        let mut r: usize = 0;
        while r < self.real_layers.len()
            invariant
                r <= self.real_layers@.len(),
                forall|s: int| 0 <= s < r ==> (#[trigger] self.real_layers@[s]).wf(),
            decreases self.real_layers@.len() - r,
        {
            if !self.real_layers[r].is_valid() {
                return false;
            }
            r = r + 1;
        }
        let apps = self.applications();
        let mut i: usize = 0;
        while i < n
            invariant
                i <= n,
                n == self.count(),
                self.n_real_layers >= 1,
                self.real_layers@.len() == self.n_real_layers,
                self.schedule() matches Some(s) ==> s.covers(
                    self.count(),
                    self.n_real_layers as int,
                ),
                forall|r: int|
                    0 <= r < self.real_layers@.len() ==> (#[trigger] self.real_layers@[r]).wf(),
                apps.counts(self.reals(), self.n_real_layers as int),
                forall|j: int|
                    0 <= j < i ==> self.real_layers@[#[trigger] self.reals()[j]].has_application(
                        self.application(j),
                    ),
                forall|j: int| 0 <= j < i ==> #[trigger] self.mixes(j),
            decreases n - i,
        {
            let real_idx: usize = match &self.n_virtual_layers {
                Some((n, schedule)) => {
                    assert(schedule.lands(i as int, *n as int, self.n_real_layers as int));
                    schedule.real_idx(i, *n, self.n_real_layers)
                },
                None => i,
            };
            assert(self.reals()[i as int] == real_idx);
            assert(self.real_layers@[real_idx as int].wf());
            if !self.real_layers[real_idx].covers_application(apps.index[i]) {
                return false;
            }
            let first = self.ignore_first_residual && i == 0;
            let last = self.ignore_last_residual && i + 1 == n;
            let mixed = match &self.residuals {
                Residuals::Standard => true,
                Residuals::MultiGate(mg) => first || last || mg.module_index(i, real_idx)
                    < mg.n_modules,
            };
            if !mixed {
                assert(!self.mixes(i as int));
                return false;
            }
            assert(self.mixes(i as int));
            i = i + 1;
        }
        true
    }

    /// Whether the horizon of the stack resolves, and leaves out no application
    /// of a layer with untied weights.
    pub fn can_cut(&self, on_autodiff: bool) -> (ok: bool)
        requires
            self.wf(),
        ensures
            ok == self.cuts(on_autodiff),
    {
        if !on_autodiff {
            return true;
        }
        let horizon = match &self.grad_horizon {
            Some(horizon) => horizon,
            None => {
                return true;
            },
        };
        let n: usize = self.n_virtual_count();
        let schedule = match &self.n_virtual_layers {
            Some((_, schedule)) => Some(schedule),
            None => None,
        };
        if !horizon.resolves(schedule, n, self.n_real_layers) {
            return false;
        }
        let mask = horizon.tracked_mask(schedule, n, self.n_real_layers);
        assert(mask@ =~= self.horizon_mask());
        let mut i: usize = 0;
        while i < n
            invariant
                i <= n,
                n == self.count(),
                self.wf(),
                on_autodiff,
                self.grad_horizon is Some,
                mask@ == self.horizon_mask(),
                forall|j: int|
                    0 <= j < i && !(#[trigger] self.tracks(on_autodiff, j))
                        ==> !self.real_layers@[self.reals()[j]].spec_has_untied(),
            decreases n - i,
        {
            assert(self.horizon_mask()[i as int] == self.tracks(on_autodiff, i as int));
            if !mask[i] {
                let real_idx: usize = self.real_idx(i);
                assert(self.real_layers@[real_idx as int].wf());
                if self.real_layers[real_idx].has_untied() {
                    assert(!self.tracks(on_autodiff, i as int));
                    return false;
                }
            }
            i = i + 1;
        }
        true
    }

    /// Whether the call can run: its markers can be placed, its cuts resolve,
    /// and its padding can follow.
    pub fn can_run(
        &self,
        rows: usize,
        class: &Option<ClassCursors>,
        prime: bool,
        padding: Option<&Padding>,
        on_autodiff: bool,
    ) -> (ok: bool)
        requires
            self.wf(),
            padding matches Some(p) ==> p.wf(),
        ensures
            ok == self.runs(
                class::cursors(*class),
                rows as int,
                prime,
                schedule::option_deref(padding),
                on_autodiff,
            ),
    {
        let ghost call = self.call(class::cursors(*class), rows as int, prime);
        if !self.can_cut(on_autodiff) {
            return false;
        }
        let padded = match padding {
            Some(p) => {
                let dims = p.dims();
                if dims[0] == 0 || dims[1] != rows {
                    return false;
                }
                true
            },
            None => false,
        };
        let n: usize = self.n_virtual_count();
        let inject = class.is_some();
        let mut cursors = match class {
            Some(c) => c.clone(),
            None => ClassCursors::stream(),
        };
        if cursors.per_layer.len() != 0 && cursors.per_layer.len() != n {
            return false;
        }
        cursors.fit(n);
        if !inject {
            proof {
                self.lemma_uninjected(rows as int, prime);
            }
        }
        let nothing: Vec<ClassLatent> = Vec::new();
        let mut rows_in: usize = rows;
        let mut full: Option<usize> = cursors.full_len;
        let mut j: usize = 0;
        while j <= n
            invariant
                self.wf(),
                self.cuts(on_autodiff),
                call == self.call(class::cursors(*class), rows as int, prime),
                n == self.count(),
                n < usize::MAX,
                inject == class is Some,
                nothing@.len() == 0,
                padded == padding is Some,
                padding matches Some(p) ==> p.wf() && p.batch() > 0 && p.rows() == rows,
                class matches Some(c) ==> cursors@ == (Cursors {
                    per_layer: class::fitted(c.per_layer@, n as int),
                    ..c@
                }) && (c.per_layer@.len() == 0 || c.per_layer@.len() == n),
                class is None ==> cursors@ == (Cursors {
                    per_layer: class::fitted(Seq::empty(), n as int),
                    ..class::start_cursors(None)
                }),
                cursors.per_layer@.len() == n,
                j <= n + 1,
                j <= n ==> rows_in == call.rows_at(j as int),
                j <= n ==> full == call.full_at(j as int),
                forall|l: int| 0 <= l < j ==> #[trigger] call.level_fits(l),
                padded ==> forall|l: int|
                    0 <= l < j ==> stack::middles_fit(#[trigger] call.call(l)),
                !inject ==> forall|l: int|
                    0 <= l < j ==> class::resolvable(#[trigger] self.level(l), None),
            decreases n + 1 - j,
        {
            let latents = if j == 0 {
                &self.class_latents
            } else {
                let real_idx: usize = self.real_idx(j - 1);
                &self.real_layers[real_idx].class_latents
            };
            assert(class::marks(latents@) == self.level(j as int));
            if !inject && !full_len_known(latents.as_slice(), None) {
                assert(!class::resolvable(self.level(j as int), None));
                return false;
            }
            let injected = if inject {
                latents
            } else {
                &nothing
            };
            let offset: usize = if j == 0 {
                cursors.stack
            } else {
                cursors.per_layer[j - 1]
            };
            let mut cursor = ClassCursor::at(offset, full);
            proof {
                assert(class::marks(nothing@) =~= Seq::<Marker>::empty());
                assert(call.call(j as int) == class::placement(
                    injected@,
                    cursor,
                    rows_in as int,
                    prime,
                ));
            }
            if !can_insert(injected, cursor, rows_in, prime, padded) {
                assert(!call.level_fits(j as int) || (padded && !stack::middles_fit(
                    call.call(j as int),
                )));
                return false;
            }
            let level = insert_class_markers_padded(injected, &mut cursor, rows_in, prime, None);
            let next_full: Option<usize> = match full {
                Some(len) => match len.checked_add(landing_count(injected.as_slice(), len)) {
                    Some(len) => Some(len),
                    None => {
                        assert(!call.level_fits(j as int));
                        return false;
                    },
                },
                None => None,
            };
            assert(call.level_fits(j as int));
            rows_in = level.rows;
            full = next_full;
            j = j + 1;
        }
        true
    }

    /// The real layers whose untied parameters are reset to copies of their
    /// first application, each with those parameters.
    pub fn retie(&self) -> (params: Vec<Vec<crate::utils::untied::UntiedParam>>)
        requires
            forall|r: int|
                0 <= r < self.real_layers@.len() ==> (#[trigger] self.real_layers@[r]).wf(),
        ensures
            params@.len() == self.real_layers@.len(),
            forall|r: int|
                0 <= r < params@.len() ==> (#[trigger] params@[r])@ == (
                if self.real_layers@[r].n_applications == 1 {
                    Seq::empty()
                } else {
                    self.real_layers@[r].spec_untied_params()
                }),
    {
        let mut params: Vec<Vec<crate::utils::untied::UntiedParam>> = Vec::new();
        let mut r: usize = 0;
        while r < self.real_layers.len()
            invariant
                r <= self.real_layers@.len(),
                params.len() == r,
                forall|r: int|
                    0 <= r < self.real_layers@.len() ==> (#[trigger] self.real_layers@[r]).wf(),
                forall|s: int|
                    0 <= s < r ==> (#[trigger] params@[s])@ == (
                    if self.real_layers@[s].n_applications == 1 {
                        Seq::empty()
                    } else {
                        self.real_layers@[s].spec_untied_params()
                    }),
            decreases self.real_layers@.len() - r,
        {
            params.push(self.real_layers[r].retie());
            r = r + 1;
        }
        params
    }
}

/// A call of packed rows.
#[derive(Debug)]
pub struct PackedPass {
    /// Whether the class latents of the stack go into the opening slots.
    pub places: bool,
    /// What the call does.
    pub pass: StackPass,
}

/// What a prime does.
#[derive(Debug)]
pub struct PrimePass {
    /// What the call does. `None`: no cursors, so nothing is injected.
    pub pass: Option<StackPass>,
    /// Per virtual layer, whether its cache is filled with zeros after the
    /// call. Empty: the caches come back as they are.
    pub zeros: Vec<bool>,
}

/// The padding of a right-padded mask.
pub open spec fn padding_of(pad: Option<Vec<Vec<bool>>>) -> Option<Padding> {
    match pad {
        Some(pad) => Some(Padding { pad_bs: pad, local_bs: None }),
        None => None,
    }
}

} // verus!
