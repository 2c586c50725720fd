//! The decisions of a captured step: a recurrent step that is recorded once,
//! then replayed as a single dispatch per call.
//!
//! A replay reads and writes the exact device buffers that the recording
//! touched. So the input and the caches live in **stable** buffers, refreshed in
//! place, and a replay is correct only if every write landed in place. Where
//! this cannot be confirmed, the recording is dropped and the step runs eagerly:
//! the same results, without the speed-up.
use vstd::prelude::*;

verus! {

/// Eager steps to run before a capture, in addition to the runs that it makes
/// itself. Fusion and autotune get one, because their first run builds the
/// variants that a replay should record.
pub fn warmup_steps(tuned: bool) -> (n: usize)
    ensures
        n == (if tuned {
            1int
        } else {
            0
        }),
{
    if tuned {
        1
    } else {
        0
    }
}

/// Append the buffer id of a tensor to `ids`. `ids` becomes `None` when an id
/// cannot be read, and stays so.
pub fn push_id(ids: &mut Option<Vec<usize>>, id: Option<usize>)
    ensures
        *final(ids) is Some == (*old(ids) is Some && id is Some),
        *final(ids) matches Some(next) ==> next@ == old(ids)->Some_0@.push(id->Some_0),
{
    let taken = ids.take();
    *ids = match (taken, id) {
        (Some(mut known), Some(id)) => {
            known.push(id);
            Some(known)
        },
        _ => None,
    };
}

/// The buffer ids of the input tensors and of every cache tensor, in order.
/// `None` if any cannot be read.
pub fn stable_ids(input: &Vec<Option<usize>>, caches: &Vec<Option<usize>>) -> (ids: Option<
    Vec<usize>,
>)
    ensures
        ids is Some == (all_read(input@) && all_read(caches@)),
        ids matches Some(ids) ==> ids@ == read(input@) + read(caches@),
{
    let mut ids: Option<Vec<usize>> = Some(Vec::new());
    push_all(&mut ids, input);
    push_all(&mut ids, caches);
    assert(Seq::<usize>::empty() + read(input@) =~= read(input@));
    ids
}

/// Whether every id could be read.
pub open spec fn all_read(ids: Seq<Option<usize>>) -> bool {
    forall|i: int| 0 <= i < ids.len() ==> (#[trigger] ids[i]) is Some
}

/// The ids that were read.
pub open spec fn read(ids: Seq<Option<usize>>) -> Seq<usize> {
    ids.map_values(|id: Option<usize>| id->Some_0)
}

fn push_all(ids: &mut Option<Vec<usize>>, more: &Vec<Option<usize>>)
    ensures
        *final(ids) is Some == (*old(ids) is Some && all_read(more@)),
        *final(ids) matches Some(next) ==> next@ == old(ids)->Some_0@ + read(more@),
{
    let ghost before = *ids;
    let mut i: usize = 0;
    assert(read(more@).take(0) =~= Seq::<usize>::empty());
    if let Some(known) = &ids {
        assert(known@ =~= known@ + Seq::<usize>::empty());
    }
    while i < more.len()
        invariant
            i <= more@.len(),
            *ids is Some == (before is Some && all_read(more@.take(i as int))),
            *ids matches Some(next) ==> next@ == before->Some_0@ + read(more@).take(i as int),
        decreases more@.len() - i,
    {
        let ghost known = *ids;
        push_id(ids, more[i]);
        proof {
            let next = more@.take(i + 1);
            assert forall|j: int| 0 <= j < i implies next[j] == more@.take(i as int)[j] by {}
            assert(next[i as int] == more@[i as int]);
            if all_read(more@.take(i as int)) && more@[i as int] is Some {
                assert(all_read(next));
            }
            if all_read(next) {
                assert forall|j: int| 0 <= j < i implies (
                #[trigger] more@.take(i as int)[j]) is Some by {
                    assert(next[j] is Some);
                }
            }
            if *ids is Some {
                assert(ids->Some_0@ =~= before->Some_0@ + read(more@).take(i + 1));
            }
        }
        i = i + 1;
    }
    assert(more@.take(i as int) =~= more@);
    assert(read(more@).take(i as int) =~= read(more@));
}

/// Whether two readings of the buffer ids agree: both could be read in full, and
/// every tensor is in the buffer it was in.
pub open spec fn in_place(before: Option<Vec<usize>>, after: Option<Vec<usize>>) -> bool {
    match (before, after) {
        (Some(b), Some(a)) => b@ == a@,
        _ => false,
    }
}

/// Whether two readings of the buffer ids agree.
pub fn landed_in_place(before: &Option<Vec<usize>>, after: &Option<Vec<usize>>) -> (kept: bool)
    ensures
        kept == in_place(*before, *after),
{
    match (before, after) {
        (Some(b), Some(a)) => same_list(b, a),
        _ => false,
    }
}

/// What a capture does, in order.
#[derive(Debug, Clone, Copy, PartialEq, Eq, Structural)]
pub enum CaptureAction {
    /// Move the input and the caches into buffers of their own.
    Own,
    /// Save the caches.
    Save,
    /// Read the buffer ids.
    Identify,
    /// Run the step once, eagerly, so that every kernel is compiled.
    Warm,
    /// Record the step. This may run it any number of times.
    Record,
    /// Put the saved caches back, in place.
    Restore,
    /// Read the buffer ids again, and keep the recording or drop it.
    Check,
}

/// What a capture does, in order.
pub open spec fn capture_order() -> Seq<CaptureAction> {
    seq![
        CaptureAction::Own,
        CaptureAction::Save,
        CaptureAction::Identify,
        CaptureAction::Warm,
        CaptureAction::Record,
        CaptureAction::Restore,
        CaptureAction::Check,
    ]
}

/// What a capture does, in order.
pub fn capture_actions() -> (actions: Vec<CaptureAction>)
    ensures
        actions@ == capture_order(),
{
    let actions = vec![
        CaptureAction::Own,
        CaptureAction::Save,
        CaptureAction::Identify,
        CaptureAction::Warm,
        CaptureAction::Record,
        CaptureAction::Restore,
        CaptureAction::Check,
    ];
    assert(actions@ =~= capture_order());
    actions
}

/// The caches after `n` runs of `step`.
pub open spec fn run<C>(step: spec_fn(C) -> C, caches: C, n: nat) -> C
    decreases n,
{
    if n == 0 {
        caches
    } else {
        step(run(step, caches, (n - 1) as nat))
    }
}

/// The caches and what was saved of them, after one action. `runs` is how often
/// the recording runs the step.
pub open spec fn acted<C>(
    state: (C, Option<C>),
    action: CaptureAction,
    step: spec_fn(C) -> C,
    runs: nat,
) -> (C, Option<C>) {
    match action {
        CaptureAction::Save => (state.0, Some(state.0)),
        CaptureAction::Warm => (step(state.0), state.1),
        CaptureAction::Record => (run(step, state.0, runs), state.1),
        CaptureAction::Restore => (
            match state.1 {
                Some(saved) => saved,
                None => state.0,
            },
            state.1,
        ),
        _ => state,
    }
}

/// The caches and what was saved of them, after the first `n` actions.
pub open spec fn acted_all<C>(
    caches: C,
    actions: Seq<CaptureAction>,
    step: spec_fn(C) -> C,
    runs: nat,
    n: int,
) -> (C, Option<C>)
    decreases n,
{
    if n <= 0 {
        (caches, None)
    } else {
        acted(acted_all(caches, actions, step, runs, n - 1), actions[n - 1], step, runs)
    }
}

/// A capture steps nothing: however often it ran the step, the caches are those
/// that it was given.
pub proof fn capture_steps_nothing<C>(caches: C, step: spec_fn(C) -> C, runs: nat)
    ensures
        acted_all(caches, capture_order(), step, runs, capture_order().len() as int).0 == caches,
{
    reveal_with_fuel(acted_all, 8);
}

/// A captured step: whether it kept its recording, and the shapes of its input.
#[derive(Debug, Clone)]
pub struct CapturedStep {
    /// Whether calls replay a recording (`false`: they step eagerly).
    pub captured: bool,
    /// The dimensions of each tensor of the captured input.
    pub input: Vec<Vec<usize>>,
}

/// How a call runs.
#[derive(Debug, Clone, Copy, PartialEq, Eq, Structural)]
pub enum StepMode {
    /// The step runs on the caches, which it replaces.
    Eager,
    /// The input is refreshed in place, then the recording is replayed.
    Replay,
}

/// What a call does, in order.
#[derive(Debug, Clone, Copy, PartialEq, Eq, Structural)]
pub enum StepAction {
    /// Run the step on the input of the call and on the caches, and keep the
    /// caches that it gives.
    Run,
    /// Write the input of the call into the held input, in place.
    Refresh,
    /// Replay the recording: it runs the step on the held input and the held
    /// caches, and writes the caches that it gives into the held ones.
    Replay,
}

impl StepMode {
    /// What a call does, in order.
    pub open spec fn order(self) -> Seq<StepAction> {
        match self {
            StepMode::Eager => seq![StepAction::Run],
            StepMode::Replay => seq![StepAction::Refresh, StepAction::Replay],
        }
    }

    /// What a call does, in order.
    pub fn actions(&self) -> (actions: Vec<StepAction>)
        ensures
            actions@ == self.order(),
    {
        let actions = match self {
            StepMode::Eager => vec![StepAction::Run],
            StepMode::Replay => vec![StepAction::Refresh, StepAction::Replay],
        };
        assert(actions@ =~= self.order());
        actions
    }
}

/// Whether two inputs have the same shapes.
pub open spec fn same_shape(a: Seq<Vec<usize>>, b: Seq<Vec<usize>>) -> bool {
    a.len() == b.len() && forall|i: int| 0 <= i < a.len() ==> (#[trigger] a[i])@ == b[i]@
}

impl CapturedStep {
    /// A captured step. The recording is kept where it is a hardware graph, and
    /// every buffer is the one that it was before the recording.
    pub fn capture(
        input: Vec<Vec<usize>>,
        hardware: bool,
        before: &Option<Vec<usize>>,
        after: &Option<Vec<usize>>,
    ) -> (step: Self)
        ensures
            step.captured == (hardware && in_place(*before, *after)),
            step.input == input,
    {
        CapturedStep { captured: hardware && landed_in_place(before, after), input }
    }

    /// Whether calls replay a recording.
    pub fn is_captured(&self) -> (captured: bool)
        ensures
            captured == self.captured,
    {
        self.captured
    }

    /// Whether `x` has the shapes of the captured input, which every call keeps.
    pub fn accepts(&self, x: &Vec<Vec<usize>>) -> (ok: bool)
        ensures
            ok == same_shape(self.input@, x@),
    {
        if self.input.len() != x.len() {
            return false;
        }
        let mut i: usize = 0;
        while i < x.len()
            invariant
                i <= x@.len(),
                self.input@.len() == x@.len(),
                forall|j: int| 0 <= j < i ==> (#[trigger] self.input@[j])@ == x@[j]@,
            decreases x@.len() - i,
        {
            if !same_list(&self.input[i], &x[i]) {
                assert(self.input@[i as int]@ != x@[i as int]@);
                return false;
            }
            i = i + 1;
        }
        true
    }

    /// How a call on an input of the shapes `x` runs. `None`: a captured step
    /// keeps its input shape, and this is another.
    pub open spec fn mode(self, x: Seq<Vec<usize>>) -> Option<StepMode> {
        if !self.captured {
            Some(StepMode::Eager)
        } else if same_shape(self.input@, x) {
            Some(StepMode::Replay)
        } else {
            None
        }
    }

    /// How a call on `x` runs. A captured step keeps its input shape. `None`: it
    /// is not that of `x`.
    pub fn step(&self, x: &Vec<Vec<usize>>) -> (mode: Option<StepMode>)
        ensures
            mode == self.mode(x@),
    {
        if !self.captured {
            Some(StepMode::Eager)
        } else if self.accepts(x) {
            Some(StepMode::Replay)
        } else {
            None
        }
    }

    /// Whether caches may be overwritten, as the buffer ids read before and
    /// after show it: under a recording, in place.
    pub fn set_caches(
        &self,
        before: &Option<Vec<usize>>,
        after: &Option<Vec<usize>>,
    ) -> (ok: bool)
        ensures
            ok == (self.captured && *before is Some ==> in_place(*before, *after)),
    {
        !self.captured || before.is_none() || landed_in_place(before, after)
    }

    /// Release the recording.
    pub fn into_caches(self) -> (step: Self)
        ensures
            step == (CapturedStep { captured: false, ..self }),
    {
        CapturedStep { captured: false, ..self }
    }
}

/// What a captured step holds.
pub struct Held<X, Y, C> {
    /// The input of the last replay.
    pub input: X,
    /// The caches.
    pub caches: C,
    /// The output of the last call.
    pub output: Option<Y>,
}

/// What is held after one action of a call on `x`.
pub open spec fn performed<X, Y, C>(
    held: Held<X, Y, C>,
    action: StepAction,
    step: spec_fn(X, C) -> (Y, C),
    x: X,
) -> Held<X, Y, C> {
    match action {
        StepAction::Run => {
            let (y, caches) = step(x, held.caches);
            Held { input: held.input, caches, output: Some(y) }
        },
        StepAction::Refresh => Held { input: x, ..held },
        StepAction::Replay => {
            let (y, caches) = step(held.input, held.caches);
            Held { input: held.input, caches, output: Some(y) }
        },
    }
}

/// What is held after the first `n` actions of a call on `x`.
pub open spec fn performed_all<X, Y, C>(
    held: Held<X, Y, C>,
    actions: Seq<StepAction>,
    step: spec_fn(X, C) -> (Y, C),
    x: X,
    n: int,
) -> Held<X, Y, C>
    decreases n,
{
    if n <= 0 {
        held
    } else {
        performed(performed_all(held, actions, step, x, n - 1), actions[n - 1], step, x)
    }
}

/// What is done with a captured step.
pub enum Use<X, C> {
    /// A call on an input of these shapes.
    Step(Seq<Vec<usize>>, X),
    /// The caches are overwritten.
    Overwrite(C),
}

/// What a captured step puts out over its uses, and what it holds after them.
pub open spec fn used<X, Y, C>(
    s: CapturedStep,
    step: spec_fn(X, C) -> (Y, C),
    held: Held<X, Y, C>,
    uses: Seq<Use<X, C>>,
) -> (Seq<Y>, Held<X, Y, C>)
    decreases uses.len(),
{
    if uses.len() == 0 {
        (Seq::empty(), held)
    } else {
        let (outputs, held) = used(s, step, held, uses.drop_last());
        match uses.last() {
            Use::Step(shapes, x) => {
                let order = s.mode(shapes)->Some_0.order();
                let held = performed_all(held, order, step, x, order.len() as int);
                (outputs.push(held.output->Some_0), held)
            },
            Use::Overwrite(caches) => (outputs, Held { caches, ..held }),
        }
    }
}

/// What the step itself puts out over the same uses, and the caches that it
/// leaves.
pub open spec fn used_eagerly<X, Y, C>(
    step: spec_fn(X, C) -> (Y, C),
    caches: C,
    uses: Seq<Use<X, C>>,
) -> (Seq<Y>, C)
    decreases uses.len(),
{
    if uses.len() == 0 {
        (Seq::empty(), caches)
    } else {
        let (outputs, caches) = used_eagerly(step, caches, uses.drop_last());
        match uses.last() {
            Use::Step(_, x) => {
                let (y, caches) = step(x, caches);
                (outputs.push(y), caches)
            },
            Use::Overwrite(caches) => (outputs, caches),
        }
    }
}

/// A captured run is the eager run, whether or not a recording was kept: every
/// call puts out what the step puts out, and the caches are the same after any
/// calls and any overwrites of the caches. The capture before them steps
/// nothing, however often it ran the step.
pub proof fn captured_run_is_the_eager_run<X, Y, C>(
    s: CapturedStep,
    step: spec_fn(X, C) -> (Y, C),
    input: X,
    caches: C,
    runs: nat,
    uses: Seq<Use<X, C>>,
)
    requires
        forall|k: int|
            0 <= k < uses.len() ==> ((#[trigger] uses[k]) matches Use::Step(shapes, _) ==> s.mode(
                shapes,
            ) is Some),
    ensures
        ({
            let captured = acted_all(
                caches,
                capture_order(),
                |c: C| step(input, c).1,
                runs,
                capture_order().len() as int,
            ).0;
            let ran = used(s, step, Held { input, caches: captured, output: None }, uses);
            let eager = used_eagerly(step, caches, uses);
            ran.0 == eager.0 && ran.1.caches == eager.1
        }),
    decreases uses.len(),
{
    capture_steps_nothing(caches, |c: C| step(input, c).1, runs);
    if uses.len() > 0 {
        let front = uses.drop_last();
        assert forall|k: int| 0 <= k < front.len() implies ((#[trigger] front[k]) matches Use::Step(
            shapes,
            _,
        ) ==> s.mode(shapes) is Some) by {
            assert(front[k] == uses[k]);
        }
        captured_run_is_the_eager_run(s, step, input, caches, runs, front);
        assert(uses.last() == uses[uses.len() - 1]);
        reveal_with_fuel(performed_all, 3);
    }
}

/// Whether two lists hold the same numbers.
fn same_list(a: &Vec<usize>, b: &Vec<usize>) -> (same: bool)
    ensures
        same == (a@ == b@),
{
    if a.len() != b.len() {
        return false;
    }
    let mut i: usize = 0;
    while i < a.len()
        invariant
            i <= a@.len(),
            a@.len() == b@.len(),
            forall|j: int| 0 <= j < i ==> #[trigger] a@[j] == b@[j],
        decreases a@.len() - i,
    {
        if a[i] != b[i] {
            return false;
        }
        i = i + 1;
    }
    assert(a@ =~= b@);
    true
}

/// A whole-tensor slice: per dimension, from zero up to its extent.
pub fn whole(dims: &Vec<usize>) -> (ranges: Vec<(usize, usize)>)
    ensures
        ranges@ == dims@.map_values(|d: usize| (0usize, d)),
{
    let mut ranges: Vec<(usize, usize)> = Vec::new();
    let mut i: usize = 0;
    while i < dims.len()
        invariant
            i <= dims@.len(),
            ranges.len() == i,
            forall|j: int| 0 <= j < i ==> #[trigger] ranges@[j] == (0usize, dims@[j]),
        decreases dims@.len() - i,
    {
        ranges.push((0, dims[i]));
        i = i + 1;
    }
    assert(ranges@ =~= dims@.map_values(|d: usize| (0usize, d)));
    ranges
}

/// A float parameter as a captured training step sees it.
#[derive(Debug, Clone, Copy, PartialEq, Eq, Structural)]
pub struct WeightMeta {
    /// Its number of elements.
    pub elements: usize,
    /// Whether it lives on the autodiff side.
    pub autodiff: bool,
    /// Whether it has a checkpointing strategy of its own.
    pub checkpointed: bool,
    /// Whether it collects a gradient.
    pub require_grad: bool,
}

/// What becomes of one parameter of a pairwise visit.
#[derive(Debug, Clone, Copy, PartialEq, Eq, Structural)]
pub struct WeightStep {
    /// The parameter of the other module that it meets.
    pub other: usize,
    /// The elements that both are flattened to.
    pub elements: usize,
    /// Whether it goes back to the autodiff side.
    pub lift: bool,
    /// Whether its checkpointing strategy is put back.
    pub checkpoint: bool,
    /// Whether it collects a gradient again.
    pub require_grad: bool,
}

/// What becomes of a parameter whose match is the parameter `i` of the other
/// module.
pub open spec fn weight_step(meta: WeightMeta, i: int) -> WeightStep {
    WeightStep {
        other: i as usize,
        elements: meta.elements,
        lift: meta.autodiff,
        checkpoint: meta.autodiff && meta.checkpointed,
        require_grad: meta.autodiff && meta.require_grad,
    }
}

/// The pairwise visit of the float parameters of two modules, in visit order,
/// each flattened off the gradient graph. The association of each parameter is
/// put back afterwards. `None` where the two differ in parameter count, or in
/// the size of a parameter.
pub fn zip_tensors(mine: &Vec<WeightMeta>, other: &Vec<usize>) -> (steps: Option<Vec<WeightStep>>)
    ensures
        steps is Some == (mine@.len() == other@.len() && forall|i: int|
            0 <= i < mine@.len() ==> (#[trigger] mine@[i]).elements == other@[i]),
        steps matches Some(steps) ==> steps@ == mine@.map(
            |i: int, meta: WeightMeta| weight_step(meta, i),
        ),
{
    if mine.len() != other.len() {
        return None;
    }
    let mut steps: Vec<WeightStep> = Vec::new();
    let mut i: usize = 0;
    while i < mine.len()
        invariant
            i <= mine@.len(),
            mine@.len() == other@.len(),
            steps.len() == i,
            forall|j: int| 0 <= j < i ==> (#[trigger] mine@[j]).elements == other@[j],
            forall|j: int| 0 <= j < i ==> #[trigger] steps@[j] == weight_step(mine@[j], j),
        decreases mine@.len() - i,
    {
        let meta = mine[i];
        if meta.elements != other[i] {
            assert(mine@[i as int].elements != other@[i as int]);
            return None;
        }
        steps.push(
            WeightStep {
                other: i,
                elements: meta.elements,
                lift: meta.autodiff,
                checkpoint: meta.autodiff && meta.checkpointed,
                require_grad: meta.autodiff && meta.require_grad,
            },
        );
        i = i + 1;
    }
    assert(steps@ =~= mine@.map(|i: int, meta: WeightMeta| weight_step(meta, i)));
    Some(steps)
}

/// Two readings agree where both are complete and name the same buffers.
pub proof fn a_tensor_that_moved_is_not_in_place(
    before: Option<Vec<usize>>,
    after: Option<Vec<usize>>,
    i: int,
)
    ensures
        in_place(before, after) ==> before is Some && after is Some && before->Some_0@.len()
            == after->Some_0@.len(),
        in_place(before, after) && 0 <= i < before->Some_0@.len() ==> before->Some_0@[i]
            == after->Some_0@[i],
        before is Some && after is Some && before->Some_0@ == after->Some_0@ ==> in_place(
            before,
            after,
        ),
{
}

/// A step without a recording takes any input, and runs. One with a recording takes
/// the shapes that it was recorded on, and replays. It refuses any others.
pub proof fn a_recording_keeps_its_shapes(s: CapturedStep, x: Seq<Vec<usize>>, i: int)
    ensures
        !s.captured ==> s.mode(x) == Some(StepMode::Eager),
        s.captured && s.input@.len() != x.len() ==> s.mode(x) is None,
        s.captured && 0 <= i < x.len() && s.input@[i]@ != x[i]@ ==> s.mode(x) is None,
        s.captured && s.input@.len() == x.len() && (forall|j: int|
            0 <= j < x.len() ==> s.input@[j]@ == (#[trigger] x[j])@) ==> s.mode(x) == Some(
            StepMode::Replay,
        ),
{
    if s.captured && s.input@.len() == x.len() && (forall|j: int|
        0 <= j < x.len() ==> s.input@[j]@ == (#[trigger] x[j])@) {
        assert forall|j: int| 0 <= j < s.input@.len() implies (#[trigger] s.input@[j])@ == x[j]@ by {
            assert(s.input@[j]@ == x[j]@);
        }
    }
}

/// A step without a recording only runs. One with a recording refreshes the held input
/// before it replays, and runs nothing else.
pub proof fn a_replay_refreshes_its_input_first()
    ensures
        StepMode::Eager.order().len() == 1,
        StepMode::Eager.order()[0] is Run,
        StepMode::Replay.order().len() == 2,
        StepMode::Replay.order()[0] is Refresh,
        StepMode::Replay.order()[1] is Replay,
{
}

/// A capture does each of its actions once: it owns its buffers first, saves the caches
/// and reads the buffers before anything runs, and puts the caches back after the
/// last run, before it reads the buffers again.
pub proof fn a_capture_checks_what_its_runs_left(x: int, y: int)
    requires
        0 <= x < y < capture_order().len(),
    ensures
        capture_order().len() == 7,
        capture_order()[x] != capture_order()[y],
        !(capture_order()[y] is Own),
        !(capture_order()[x] is Check),
        capture_order()[x] is Warm || capture_order()[x] is Record ==> !(capture_order()[y] is Save
            || capture_order()[y] is Identify),
        capture_order()[x] is Restore ==> !(capture_order()[y] is Warm
            || capture_order()[y] is Record),
        capture_order()[x] is Record ==> !(capture_order()[y] is Warm),
{
}

/// The association of a parameter is put back: a parameter of the autodiff side goes
/// back there, with the checkpointing and the gradient that it had. Any other stays
/// where it was.
pub proof fn a_weight_gets_its_association_back(meta: WeightMeta, i: usize)
    ensures
        ({
            let step = weight_step(meta, i as int);
            &&& step.other == i
            &&& step.elements == meta.elements
            &&& step.lift == meta.autodiff
            &&& meta.autodiff ==> step.checkpoint == meta.checkpointed && step.require_grad
                == meta.require_grad
            &&& !meta.autodiff ==> !step.checkpoint && !step.require_grad
        }),
{
}

/// The buffers are those of the input tensors, then those of the caches, each in order.
pub proof fn ids_are_read_in_order(ids: Seq<Option<usize>>, i: int)
    requires
        0 <= i < ids.len(),
    ensures
        all_read(ids) ==> ids[i] is Some && read(ids)[i] == ids[i]->Some_0,
        ids[i] is None ==> !all_read(ids),
        read(ids).len() == ids.len(),
        (forall|j: int| 0 <= j < ids.len() ==> (#[trigger] ids[j]) is Some) ==> all_read(ids),
{
}

} // verus!
