//! Networks around a stack: class tokens at the input, and the boundary
//! projections.
use crate::modules::block::BlockConfig;
use crate::modules::builder::{LayersBuilder, StackShape};
use crate::modules::insert::can_insert;
use crate::modules::layer;
use crate::modules::layers;
use crate::modules::layers::{
    place_level, Layers, PackedPass, PrimePass, StackPass,
};
use crate::modules::linear::LinearShape;
use crate::modules::mlp;
use crate::modules::stack;
use crate::modules::stack::StackCall;
use crate::utils::class;
use crate::utils::class::laws as placement;
use crate::utils::class::splice;
use crate::utils::class::splice::Segment;
use crate::utils::class::{
    class_marker_output_indices, class_plan, full_len_known, init_class_emb, landing_count,
    ClassCursor, ClassCursors, ClassToken, Cursors, Marker,
};
use crate::utils::packing::Packed;
use crate::utils::padding;
use crate::utils::padding::Padding;
use crate::utils::schedule;
use vstd::prelude::*;

verus! {

/// The rows that a prime steps through the stack, as one chunk.
pub open spec fn opening(call: StackCall) -> StackCall {
    StackCall { prime: false, ..stack::above(call) }
}

/// The prime of the stack that follows those steps.
pub open spec fn primed(call: StackCall) -> StackCall {
    StackCall {
        rows: 0,
        prime: true,
        ..stack::stepped(stack::above(call), call.rows_at(1))
    }
}

/// A feature/regression network on latents: a projection to the model width, a
/// stack, an optional final norm, and a projection to the output width. Its
/// class tokens are spliced into the input sequence before the first
/// projection.
#[derive(Debug, Clone)]
pub struct LatentNetwork {
    /// The shared layer stack.
    pub layers: Layers,
    /// Positions of the network's class tokens. Empty: none.
    pub class_tokens: Vec<ClassToken>,
}

/// What a full-sequence call does.
#[derive(Debug)]
pub struct NetworkPass {
    /// The rows that enter the stack: those of the call, with the class tokens
    /// spliced in.
    pub segments: Vec<Segment>,
    /// What the stack does with them.
    pub stack: StackPass,
    /// The cursors past the call.
    pub class: ClassCursors,
}

/// What a single-token call does: one stack step per row that the network
/// emits.
#[derive(Debug)]
pub struct NetworkStep {
    /// The rows that enter the stack, in order.
    pub segments: Vec<Segment>,
    /// What the stack does with each of them.
    pub steps: Vec<StackPass>,
    /// The cursors past the call.
    pub class: Option<ClassCursors>,
}

/// What a prime does: one stack step per class token that waits, then a prime
/// of the stack.
#[derive(Debug)]
pub struct NetworkPrime {
    /// The class tokens that enter the stack, in order.
    pub segments: Vec<Segment>,
    /// What the stack does with each of them.
    pub steps: Vec<StackPass>,
    /// What the prime of the stack does.
    pub prime: PrimePass,
    /// The cursors past the call.
    pub class: Option<ClassCursors>,
}

impl LatentNetwork {
    /// The markers of every level: those of the network, then those of the
    /// stack.
    pub open spec fn levels(self) -> Seq<Seq<Marker>> {
        seq![class::marks(self.class_tokens@)] + self.layers.levels()
    }

    /// The call through every level that `rows` rows make from `class`.
    pub open spec fn call(self, class: Cursors, rows: int, prime: bool) -> StackCall {
        StackCall {
            levels: self.levels(),
            full_len: class.full_len,
            offsets: seq![class.network as int] + layers::cursor_offsets(
                class,
                self.layers.count(),
            ),
            rows,
            prime,
        }
    }

    /// Whether the cursors are those of this network.
    pub open spec fn owns(self, class: Cursors) -> bool {
        class.per_layer.len() == 0 || class.per_layer.len() == self.layers.count()
    }

    /// Whether a full-sequence call can run.
    pub open spec fn runs(
        self,
        class: Cursors,
        rows: int,
        padding: Option<Padding>,
        on_autodiff: bool,
    ) -> bool {
        let call = self.call(class, rows, false);
        &&& self.layers.wf()
        &&& self.layers.cuts(on_autodiff)
        &&& self.owns(class)
        &&& call.fits()
        &&& padding matches Some(p) ==> p.wf() && p.batch() > 0 && p.rows() == rows && call.pads()
    }

    /// The cursors that the stack runs from: the length that the network hands
    /// up is longer by its class tokens.
    pub open spec fn entered(self, class: Cursors) -> Cursors {
        Cursors {
            full_len: class::machine_len(
                class::grown(class::marks(self.class_tokens@), class.full_len),
            ),
            ..class
        }
    }

    /// The stack sees the levels above the first.
    proof fn lemma_stack_call(self, class: Cursors, rows: int, prime: bool)
        ensures
            self.layers.call(
                Some(self.entered(class)),
                self.call(class, rows, prime).rows_at(1),
                prime,
            ) == stack::above(self.call(class, rows, prime)),
    {
        let call = self.call(class, rows, prime);
        assert(call.levels.skip(1) =~= self.layers.levels());
        assert(call.offsets.skip(1) =~= layers::cursor_offsets(class, self.layers.count()));
        assert(layers::cursor_offsets(self.entered(class), self.layers.count())
            =~= layers::cursor_offsets(class, self.layers.count()));
        assert(call.full_at(0) == call.full_len);
        assert(call.full_at(1) == self.entered(class).full_len);
    }

    /// Output positions of the class tokens for an `orig_len` input. A marker
    /// that never lands reports a position past the emitted sequence.
    pub fn class_token_output_indices(&self, orig_len: usize) -> (out: Vec<usize>)
        requires
            class::placeable(class::marks(self.class_tokens@), orig_len as int),
        ensures
            out@.len() == self.class_tokens@.len(),
            forall|i: int|
                0 <= i < out@.len() ==> #[trigger] out@[i] == class::output_position(
                    class::marks(self.class_tokens@),
                    orig_len as int,
                    i,
                ),
    {
        class_marker_output_indices(self.class_tokens.as_slice(), orig_len)
    }

    /// Full-sequence pass: the class tokens of the network are spliced in, then
    /// the stack runs over the longer sequence.
    ///
    /// `class` places the class tokens of this network *and* the class latents
    /// of the inner stack. `None` takes the `rows` as the whole sequence. `pad`
    /// marks a right-padded batch. The class tokens are also placed against the
    /// length of each slot.
    pub fn forward(
        &self,
        rows: usize,
        class: Option<ClassCursors>,
        pad: Option<Vec<Vec<bool>>>,
        on_autodiff: bool,
    ) -> (pass: NetworkPass)
        requires
            pad matches Some(pad) ==> padding::is_right_padded(pad@),
            self.runs(
                class::cursors_or_whole(class, rows),
                rows as int,
                layers::padding_of(pad),
                on_autodiff,
            ),
        ensures
            ({
                let given = class::cursors_or_whole(class, rows);
                let call = self.call(given, rows as int, false);
                &&& layer::runs_of(pass.segments@, call.call(0))
                &&& self.layers.is_pass(pass.stack, stack::above(call), on_autodiff)
                &&& self.are_past(pass.class@, given, call)
                &&& match layers::padding_of(pad) {
                    Some(p) => stack::paddings_follow(call, seq![p] + pass.stack.paddings@),
                    None => pass.stack.paddings@.len() == 0,
                }
            }),
    {
        let padding = match pad {
            Some(pad) => Some(Padding::new(pad)),
            None => None,
        };
        let ghost given = class::cursors_or_whole(class, rows);
        let ghost call = self.call(given, rows as int, false);
        let mut class = match class {
            Some(class) => class,
            None => ClassCursors::new(rows),
        };
        let mut cursor = ClassCursor::at(class.network, class.full_len);
        proof {
            assert(call.level_fits(0));
            assert(call.levels[0] == class::marks(self.class_tokens@));
            assert(call.call(0) == class::placement(
                self.class_tokens@,
                cursor,
                rows as int,
                false,
            ));
            assert(padding is Some ==> stack::middles_fit(call.call(0)));
        }
        let bottom = place_level(
            &self.class_tokens,
            &mut cursor,
            rows,
            false,
            match &padding {
                Some(p) => Some(p),
                None => None,
            },
        );
        let saved = class.full_len;
        class.network = cursor.offset;
        class.full_len = bottom.full;
        let next = bottom.padding;
        proof {
            self.lemma_stack_call(given, rows as int, false);
            stack::lemma_above_fits(call);
            let entered = self.entered(given);
            assert(layers::cursor_offsets(class@, self.layers.count())
                =~= layers::cursor_offsets(entered, self.layers.count()));
            assert(self.layers.call(Some(class@), bottom.rows as int, false) == stack::above(call));
        }
        let pass = self.layers.forward_padded(bottom.rows, Some(class), next, on_autodiff);
        let ghost ups = stack::above(call);
        let ghost after = pass.class->Some_0@;
        let mut next_class = match &pass.class {
            Some(class) => class.clone(),
            None => ClassCursors::stream(),
        };
        next_class.leave(saved);
        proof {
            assert(layers::cursor_offsets(next_class@, self.layers.count())
                =~= layers::cursor_offsets(after, self.layers.count()));
            self.lemma_past(next_class@, given, call);
            if let Some(p) = padding {
                let all = seq![p] + pass.paddings@;
                assert forall|j: int| 0 <= j < call.levels.len() implies (
                #[trigger] all[j]).splices_to(call.call(j).plan(), call.levels[j], all[j + 1]) by {
                    if j > 0 {
                        stack::lemma_above(call, Seq::<int>::empty(), |l: int| |m: int| m, j - 1);
                        assert(pass.paddings@[j - 1].splices_to(
                            ups.call(j - 1).plan(),
                            ups.levels[j - 1],
                            pass.paddings@[j],
                        ));
                        assert(ups.levels[j - 1] == call.levels[j]);
                    }
                }
                assert forall|j: int| 0 <= j < all.len() implies (#[trigger] all[j]).wf() by {
                    if j > 0 {
                        assert(pass.paddings@[j - 1].wf());
                    }
                }
            }
        }
        NetworkPass { segments: bottom.segments, stack: pass, class: next_class }
    }

    /// Run `rows` rows through the stack, one step each, from the cursors
    /// `class` of the stack.
    fn run_steps(&self, class: ClassCursors, rows: usize, on_autodiff: bool) -> (out: (
        Vec<StackPass>,
        ClassCursors,
    ))
        requires
            self.layers.wf(),
            self.layers.cuts(on_autodiff),
            self.owns(class@),
            rows > 0 ==> self.layers.call(Some(class@), rows as int, false).fits(),
        ensures
            out.0@.len() == rows,
            forall|r: int|
                0 <= r < rows ==> self.layers.is_pass(
                    #[trigger] out.0@[r],
                    stack::stepped(self.layers.call(Some(class@), rows as int, false), r),
                    on_autodiff,
                ),
            out.1.full_len == class.full_len,
            out.1.network == class.network,
            self.owns(out.1@),
            rows > 0 ==> out.1.per_layer@.len() == self.layers.count(),
            layers::cursor_offsets(out.1@, self.layers.count()) == stack::stepped(
                self.layers.call(Some(class@), rows as int, false),
                rows as int,
            ).offsets,
    {
        let ghost chunk = self.layers.call(Some(class@), rows as int, false);
        let ghost full_len = class.full_len;
        let ghost network = class.network;
        let mut class = class;
        let mut steps: Vec<StackPass> = Vec::new();
        let mut r: usize = 0;
        while r < rows
            invariant
                r <= rows,
                self.layers.wf(),
                self.layers.cuts(on_autodiff),
                rows > 0 ==> chunk.fits(),
                chunk.rows == rows,
                !chunk.prime,
                chunk.levels == self.layers.levels(),
                chunk.full_len == full_len,
                class.full_len == full_len,
                class.network == network,
                self.owns(class@),
                r > 0 ==> class.per_layer@.len() == self.layers.count(),
                layers::cursor_offsets(class@, self.layers.count()) == stack::stepped(
                    chunk,
                    r as int,
                ).offsets,
                steps@.len() == r,
                forall|q: int|
                    0 <= q < r ==> self.layers.is_pass(
                        #[trigger] steps@[q],
                        stack::stepped(chunk, q),
                        on_autodiff,
                    ),
            decreases rows - r,
        {
            proof {
                stack::steps_fit_where_the_chunk_does(chunk, r as int);
                stack::lemma_stepped_agrees(chunk, chunk, r as int);
                assert(self.layers.call(Some(class@), 1, false) == stack::stepped(
                    chunk,
                    r as int,
                ));
            }
            let pass = self.layers.step(Some(class), on_autodiff);
            class = match &pass.class {
                Some(class) => class.clone(),
                None => ClassCursors::stream(),
            };
            steps.push(pass);
            r = r + 1;
        }
        (steps, class)
    }

    /// Whether a single-token call can run.
    pub open spec fn steps(self, class: Option<Cursors>, on_autodiff: bool) -> bool {
        match class {
            Some(c) => self.runs(c, 1, None, on_autodiff),
            None => {
                &&& class::resolvable(class::marks(self.class_tokens@), None)
                &&& self.layers.runs(None, 1, false, None, on_autodiff)
            },
        }
    }

    /// Single-token step.
    ///
    /// The class tokens of the network are part of the sequence that enters the
    /// layers, so each one that falls on this step runs a full pass of its own,
    /// which carries the inner cursors. The call returns the output of the
    /// **last** row that it emitted: the user token, unless an `End` marker
    /// follows it. `None` injects nothing anywhere.
    pub fn step(&self, class: Option<ClassCursors>, on_autodiff: bool) -> (step: NetworkStep)
        requires
            self.steps(class::cursors(class), on_autodiff),
        ensures
            step.class is Some == class is Some,
            step.steps@.len() >= 1,
            match class {
                Some(given) => {
                    let call = self.call(given@, 1, false);
                    &&& layer::runs_of(step.segments@, call.call(0))
                    &&& step.steps@.len() == call.rows_at(1)
                    &&& forall|r: int|
                        0 <= r < step.steps@.len() ==> self.layers.is_pass(
                            #[trigger] step.steps@[r],
                            stack::stepped(stack::above(call), r),
                            on_autodiff,
                        )
                    &&& self.are_past(step.class->Some_0@, given@, call)
                },
                None => {
                    &&& splice::segment_rows(step.segments@) == splice::token_rows(1)
                    &&& step.steps@.len() == 1
                    &&& self.layers.is_pass(
                        step.steps@[0],
                        self.layers.call(None, 1, false),
                        on_autodiff,
                    )
                },
            },
    {
        let mut class = match class {
            Some(class) => class,
            None => {
                let plan: Vec<(usize, usize)> = Vec::new();
                proof {
                    let pairs = class::int_pairs(plan@);
                    assert(splice::plan_ats(pairs) =~= Seq::<int>::empty());
                    assert(pairs =~= Seq::<(int, int)>::empty());
                }
                let segments = splice::splice_class_rows(&plan, 1);
                let mut steps: Vec<StackPass> = Vec::new();
                steps.push(self.layers.step(None, on_autodiff));
                return NetworkStep { segments, steps, class: None };
            },
        };
        let ghost given = class@;
        let ghost call = self.call(given, 1, false);
        let mut cursor = ClassCursor::at(class.network, class.full_len);
        proof {
            assert(call.level_fits(0));
            assert(call.levels[0] == class::marks(self.class_tokens@));
            assert(call.call(0) == class::placement(self.class_tokens@, cursor, 1, false));
        }
        let bottom = place_level(&self.class_tokens, &mut cursor, 1, false, None);
        class.network = cursor.offset;
        let saved = class.enter(self.class_tokens.as_slice());
        proof {
            self.lemma_stack_call(given, 1, false);
            stack::lemma_above_fits(call);
            assert(layers::cursor_offsets(class@, self.layers.count())
                =~= layers::cursor_offsets(self.entered(given), self.layers.count()));
            assert(self.layers.call(Some(class@), bottom.rows as int, false) == stack::above(call));
        }
        let (steps, next) = self.run_steps(class, bottom.rows, on_autodiff);
        let mut next_class = next;
        next_class.leave(saved);
        proof {
            let up = stack::above(call);
            stack::steps_fit_where_the_chunk_does(up, 0);
            let input = Seq::new(up.rows as nat, |i: int| i);
            stack::forward_is_step_unrolled(up, input, |l: int| |m: int| m);
            assert(layers::cursor_offsets(next_class@, self.layers.count())
                =~= layers::cursor_offsets(next@, self.layers.count()));
            self.lemma_past(next_class@, given, call);
        }
        NetworkStep { segments: bottom.segments, steps, class: Some(next_class) }
    }

    /// Whether a prime can run: the steps of the class tokens that wait, then
    /// the prime of the stack.
    pub open spec fn primes(self, class: Option<Cursors>, on_autodiff: bool) -> bool {
        match class {
            Some(c) => {
                let call = self.call(c, 0, true);
                &&& self.layers.wf()
                &&& self.layers.cuts(on_autodiff)
                &&& self.owns(c)
                &&& call.level_fits(0)
                &&& call.rows_at(1) > 0 ==> opening(call).fits()
                &&& primed(call).fits()
            },
            None => {
                &&& class::resolvable(class::marks(self.class_tokens@), None)
                &&& self.layers.resolves_unplaced()
            },
        }
    }

    /// Step the class tokens and class latents that wait for the next user
    /// token, with **no** user token.
    ///
    /// This is the opening half of [`Self::step`] on its own, at every level.
    /// Each class token that is due runs a full pass. Then the call flushes
    /// what the stack still has waiting ([`Layers::prime`]). So a prime followed
    /// by a step runs the sequence that the step alone would run. `End` markers
    /// are never primed. `None` cursors inject nothing.
    pub fn prime(
        &self,
        class: Option<ClassCursors>,
        has_caches: bool,
        on_autodiff: bool,
    ) -> (prime: NetworkPrime)
        requires
            self.primes(class::cursors(class), on_autodiff),
        ensures
            prime.class is Some == class is Some,
            prime.prime.pass is Some == class is Some,
            match class {
                Some(given) => {
                    let call = self.call(given@, 0, true);
                    let next = prime.class->Some_0@;
                    let pass = prime.prime.pass->Some_0;
                    &&& layer::runs_of(prime.segments@, call.call(0))
                    &&& prime.steps@.len() == call.rows_at(1)
                    &&& forall|r: int|
                        0 <= r < prime.steps@.len() ==> self.layers.is_pass(
                            #[trigger] prime.steps@[r],
                            stack::stepped(opening(call), r),
                            on_autodiff,
                        )
                    &&& self.layers.is_pass(pass, primed(call), on_autodiff)
                    &&& prime.prime.zeros@ == (if has_caches || prime.steps@.len() > 0 || pass.rows
                        == 0 {
                        Seq::new(0, |i: int| false)
                    } else {
                        Seq::new(pass.passes@.len(), |i: int| pass.passes@[i].idle)
                    })
                    &&& next.full_len == given.full_len
                    &&& next.per_layer.len() == self.layers.count()
                    &&& next.network == call.call(0).next_offset()
                    &&& layers::cursor_offsets(next, self.layers.count()) == primed(
                        call,
                    ).next_offsets()
                },
                None => prime.segments@.len() == 0 && prime.steps@.len() == 0
                    && prime.prime.zeros@.len() == 0,
            },
    {
        let mut class = match class {
            Some(class) => class,
            None => {
                let prime = self.layers.prime(None, has_caches, on_autodiff);
                return NetworkPrime { segments: Vec::new(), steps: Vec::new(), prime, class: None };
            },
        };
        let ghost given = class@;
        let ghost call = self.call(given, 0, true);
        let mut cursor = ClassCursor::at(class.network, class.full_len);
        proof {
            assert(call.levels[0] == class::marks(self.class_tokens@));
            assert(call.call(0) == class::placement(self.class_tokens@, cursor, 0, true));
        }
        let bottom = place_level(&self.class_tokens, &mut cursor, 0, true, None);
        class.network = cursor.offset;
        let saved = class.enter(self.class_tokens.as_slice());
        proof {
            self.lemma_stack_call(given, 0, true);
            assert(layers::cursor_offsets(class@, self.layers.count())
                =~= layers::cursor_offsets(self.entered(given), self.layers.count()));
            assert(self.layers.call(Some(class@), bottom.rows as int, false) == opening(call));
        }
        let (steps, next) = self.run_steps(class, bottom.rows, on_autodiff);
        let network: usize = next.network;
        let ghost offsets = layers::cursor_offsets(next@, self.layers.count());
        proof {
            stack::lemma_stepped_agrees(opening(call), stack::above(call), call.rows_at(1));
            assert(self.layers.call(Some(next@), 0, true) == primed(call));
        }
        let prime = self.layers.prime(
            Some(next),
            has_caches || steps.len() > 0,
            on_autodiff,
        );
        let mut next_class = match &prime.pass {
            Some(pass) => match &pass.class {
                Some(class) => class.clone(),
                None => ClassCursors::stream(),
            },
            None => ClassCursors::stream(),
        };
        let ghost after = next_class@;
        next_class.leave(saved);
        assert(layers::cursor_offsets(next_class@, self.layers.count())
            =~= layers::cursor_offsets(after, self.layers.count()));
        NetworkPrime { segments: bottom.segments, steps, prime, class: Some(next_class) }
    }

    /// Place the class tokens for `rows` rows, and enter the stack. `None` where
    /// they cannot be placed.
    fn enter(
        &self,
        class: &ClassCursors,
        rows: usize,
        prime: bool,
    ) -> (entered: Option<(usize, ClassCursors)>)
        ensures
            entered is Some == self.call(class@, rows as int, prime).level_fits(0),
            entered matches Some((up, inner)) ==> {
                let call = self.call(class@, rows as int, prime);
                &&& up == call.rows_at(1)
                &&& self.layers.call(Some(inner@), up as int, prime) == stack::above(call)
                &&& inner.per_layer@ == class.per_layer@
            },
    {
        let ghost call = self.call(class@, rows as int, prime);
        let mut inner = class.clone();
        let mut cursor = ClassCursor::at(class.network, class.full_len);
        proof {
            assert(call.levels[0] == class::marks(self.class_tokens@));
            assert(call.call(0) == class::placement(
                self.class_tokens@,
                cursor,
                rows as int,
                prime,
            ));
        }
        let plan = match class_plan(self.class_tokens.as_slice(), rows, &mut cursor, prime) {
            Some(plan) => plan,
            None => {
                return None;
            },
        };
        if let Some(len) = class.full_len {
            if len.checked_add(landing_count(self.class_tokens.as_slice(), len)).is_none() {
                return None;
            }
        }
        assert(call.level_fits(0));
        inner.network = cursor.offset;
        let _ = inner.enter(self.class_tokens.as_slice());
        proof {
            self.lemma_stack_call(class@, rows as int, prime);
            assert(layers::cursor_offsets(inner@, self.layers.count())
                =~= layers::cursor_offsets(self.entered(class@), self.layers.count()));
        }
        Some((rows + plan.len(), inner))
    }

    /// Whether a full-sequence call can run.
    pub fn can_forward(
        &self,
        rows: usize,
        class: &Option<ClassCursors>,
        padding: Option<&Padding>,
        on_autodiff: bool,
    ) -> (ok: bool)
        requires
            self.layers.wf(),
            padding matches Some(p) ==> p.wf(),
        ensures
            ok == self.runs(
                class::cursors_or_whole(*class, rows),
                rows as int,
                schedule::option_deref(padding),
                on_autodiff,
            ),
    {
        let given = match class {
            Some(class) => class.clone(),
            None => ClassCursors::new(rows),
        };
        let ghost call = self.call(given@, rows as int, false);
        proof {
            stack::lemma_above_fits(call);
        }
        if !self.layers.can_cut(on_autodiff) {
            return false;
        }
        if given.per_layer.len() != 0 && given.per_layer.len() != self.layers.n_virtual_count() {
            return false;
        }
        let (up, inner) = match self.enter(&given, rows, false) {
            Some(entered) => entered,
            None => {
                return false;
            },
        };
        let mut above: Option<Padding> = None;
        if let Some(p) = padding {
            let dims = p.dims();
            if dims[0] == 0 || dims[1] != rows {
                return false;
            }
            let mut cursor = ClassCursor::at(given.network, given.full_len);
            proof {
                assert(call.call(0) == class::placement(
                    self.class_tokens@,
                    cursor,
                    rows as int,
                    false,
                ));
            }
            if !can_insert(&self.class_tokens, cursor, rows, false, true) {
                return false;
            }
            let level = place_level(&self.class_tokens, &mut cursor, rows, false, Some(p));
            above = level.padding;
        }
        self.layers.can_run(
            up,
            &Some(inner),
            false,
            match &above {
                Some(p) => Some(p),
                None => None,
            },
            on_autodiff,
        )
    }

    /// Whether a single-token call can run.
    pub fn can_step(&self, class: &Option<ClassCursors>, on_autodiff: bool) -> (ok: bool)
        requires
            self.layers.wf(),
        ensures
            ok == self.steps(class::cursors(*class), on_autodiff),
    {
        if class.is_some() {
            self.can_forward(1, class, None, on_autodiff)
        } else {
            full_len_known(self.class_tokens.as_slice(), None) && self.layers.can_run(
                1,
                &None,
                false,
                None,
                on_autodiff,
            )
        }
    }

    /// Whether a prime can run.
    pub fn can_prime(&self, class: &Option<ClassCursors>, on_autodiff: bool) -> (ok: bool)
        requires
            self.layers.wf(),
        ensures
            ok == self.primes(class::cursors(*class), on_autodiff),
    {
        let given = match class {
            Some(class) => class,
            None => {
                return full_len_known(self.class_tokens.as_slice(), None)
                    && self.layers.can_run_unplaced();
            },
        };
        let ghost call = self.call(given@, 0, true);
        if !self.layers.can_cut(on_autodiff) {
            return false;
        }
        if given.per_layer.len() != 0 && given.per_layer.len() != self.layers.n_virtual_count() {
            return false;
        }
        let (up, inner) = match self.enter(given, 0, true) {
            Some(entered) => entered,
            None => {
                return false;
            },
        };
        assert(self.layers.call(Some(inner@), up as int, false) == opening(call));
        let opened = Some(inner);
        if up > 0 && !self.layers.can_run(up, &opened, false, None, on_autodiff) {
            return false;
        }
        let inner = match opened {
            Some(inner) => inner,
            None => ClassCursors::stream(),
        };
        let (_, next) = self.run_steps(inner, up, on_autodiff);
        proof {
            stack::lemma_stepped_agrees(opening(call), stack::above(call), call.rows_at(1));
            assert(self.layers.call(Some(next@), 0, true) == primed(call));
        }
        self.layers.can_run(0, &Some(next), true, None, on_autodiff)
    }

    /// Whether `next` are the cursors past `call`, from `class`.
    pub open spec fn are_past(self, next: Cursors, class: Cursors, call: StackCall) -> bool {
        &&& next.full_len == class.full_len
        &&& next.per_layer.len() == self.layers.count()
        &&& self.call(next, 0, false).offsets == call.next_offsets()
    }

    proof fn lemma_past(self, next: Cursors, class: Cursors, call: StackCall)
        requires
            self.layers.wf(),
            call == self.call(class, call.rows, call.prime),
            next.full_len == class.full_len,
            next.per_layer.len() == self.layers.count(),
            next.network == call.call(0).next_offset(),
            layers::cursor_offsets(next, self.layers.count()) == stack::above(
                call,
            ).next_offsets(),
        ensures
            self.are_past(next, class, call),
    {
        let offsets = self.call(next, 0, false).offsets;
        assert forall|j: int| 0 <= j < offsets.len() implies offsets[j] == call.next_offsets()[j] by {
            if j > 0 {
                stack::lemma_above(call, Seq::<int>::empty(), |l: int| |m: int| m, j - 1);
                assert(stack::above(call).next_offsets()[j - 1] == stack::above(call).call(
                    j - 1,
                ).next_offset());
            }
        }
        assert(offsets =~= call.next_offsets());
    }
}

/// Plain factory for a [`LatentNetwork`].
#[derive(Debug, Clone)]
pub struct LatentNetworkBuilder<C> {
    /// Width of the input features fed to the input projection.
    pub input_size: usize,
    /// Builder for the layer stack.
    pub layers: LayersBuilder<C>,
    /// Width of the output features that the output projection produces.
    pub output_size: usize,
    /// Insert a final norm before the output projection.
    pub final_norm: bool,
    /// Network-level class tokens (spliced into the input before the input
    /// projection).
    pub class_tokens: Vec<ClassToken>,
}

/// The shape of the parameters of a new [`LatentNetwork`].
#[derive(Debug, Clone)]
pub struct LatentNetworkShape {
    /// The input projection.
    pub in_proj: LinearShape,
    /// The layer stack.
    pub layers: StackShape,
    /// The length of the gain of the final norm, when there is one.
    pub norm_f: Option<usize>,
    /// The output projection.
    pub out_proj: LinearShape,
    /// The dimensions of the class-token embeddings, when there are any.
    pub class_tokens_emb: Option<[usize; 2]>,
}

impl<C: BlockConfig> LatentNetworkBuilder<C> {
    /// The shape of the network: both boundary projections carry a bias, and
    /// the class tokens have the width of the input.
    pub fn init(&self) -> (shape: LatentNetworkShape)
        requires
            self.layers.builds(),
        ensures
            shape.in_proj == (LinearShape {
                d_input: self.input_size,
                d_output: self.layers.block.width(),
                has_bias: true,
            }),
            self.layers.is_shape(shape.layers),
            shape.norm_f == (if self.final_norm {
                Some(self.layers.block.width())
            } else {
                None
            }),
            shape.out_proj == (LinearShape {
                d_input: self.layers.block.width(),
                d_output: self.output_size,
                has_bias: true,
            }),
            shape.class_tokens_emb is Some == (self.class_tokens@.len() > 0),
            shape.class_tokens_emb matches Some(dims) ==> dims[0] == self.class_tokens@.len()
                && dims[1] == self.input_size,
    {
        let d_model: usize = self.layers.block.d_model();
        LatentNetworkShape {
            in_proj: LinearShape::new(self.input_size, d_model, true),
            layers: self.layers.init(),
            norm_f: if self.final_norm {
                Some(d_model)
            } else {
                None
            },
            out_proj: LinearShape::new(d_model, self.output_size, true),
            class_tokens_emb: init_class_emb(self.class_tokens.len(), self.input_size),
        }
    }
}

/// A complete autoregressive language model over a token vocabulary: an
/// embedding, a stack, a final norm and a head.
///
/// The network has no class tokens of its own. They would duplicate the class
/// latents of the layers.
#[derive(Debug, Clone)]
pub struct VocabNetwork {
    /// The dimensions of the token embedding table, `[padded_vocab, d_model]`.
    pub embedding: [usize; 2],
    /// The shared layer stack.
    pub layers: Layers,
    /// Optional dedicated head. `None`: tied, the transposed embedding is
    /// reused.
    pub lm_head: Option<LinearShape>,
}

/// The head that a [`VocabNetwork`] applies.
#[derive(Debug, Clone, Copy, PartialEq, Eq, Structural)]
pub enum LmHead {
    /// The dedicated head.
    Own(LinearShape),
    /// The transposed embedding table, as a projection without a bias.
    Tied(LinearShape),
}

impl VocabNetwork {
    /// Full-sequence pass: the class latents of the stack are placed by
    /// `class`, and `pad` marks a right-padded batch (see [`Layers::forward`]).
    pub fn forward(
        &self,
        rows: usize,
        class: Option<ClassCursors>,
        pad: Option<Vec<Vec<bool>>>,
        on_autodiff: bool,
    ) -> (pass: StackPass)
        requires
            pad matches Some(pad) ==> padding::is_right_padded(pad@),
            self.layers.runs(
                Some(class::cursors_or_whole(class, rows)),
                rows as int,
                false,
                layers::padding_of(pad),
                on_autodiff,
            ),
        ensures
            self.layers.is_forward(
                pass,
                class::cursors_or_whole(class, rows),
                rows,
                layers::padding_of(pad),
                on_autodiff,
            ),
    {
        self.layers.forward(rows, class, pad, on_autodiff)
    }

    /// [`Self::forward`] over packed rows, with every sequence of a slot
    /// restarted at its reset (see [`Layers::forward_packed`]).
    pub fn forward_packed(&self, packed: &Packed, on_autodiff: bool) -> (pass: PackedPass)
        requires
            self.layers.wf(),
            self.layers.cuts(on_autodiff),
            self.layers.packs(),
            packed.even(),
        ensures
            pass.places == (self.layers.class_latents@.len() > 0),
            self.layers.is_pass(
                pass.pass,
                self.layers.call(None, packed.rows() as int, false),
                on_autodiff,
            ),
            pass.pass.class is None,
            pass.pass.rows == packed.rows(),
            pass.pass.paddings@.len() == 0,
    {
        self.layers.forward_packed(packed, on_autodiff)
    }

    /// Single-token step (see [`Layers::step`]).
    pub fn step(&self, class: Option<ClassCursors>, on_autodiff: bool) -> (pass: StackPass)
        requires
            self.layers.runs(class::cursors(class), 1, false, None, on_autodiff),
        ensures
            self.layers.is_pass(
                pass,
                self.layers.call(class::cursors(class), 1, false),
                on_autodiff,
            ),
            pass.rows >= 1,
            pass.class is Some == class is Some,
            pass.class matches Some(next) ==> layers::are_past(
                next@,
                class->Some_0@,
                self.layers.call(class::cursors(class), 1, false),
                self.layers.count(),
            ),
            pass.paddings@.len() == 0,
    {
        self.layers.step(class, on_autodiff)
    }

    /// Step the class latents that wait for the next token, with no token of
    /// its own (see [`Layers::prime`]).
    pub fn prime(
        &self,
        class: Option<ClassCursors>,
        has_caches: bool,
        on_autodiff: bool,
    ) -> (prime: PrimePass)
        requires
            match class {
                Some(_) => self.layers.runs(class::cursors(class), 0, true, None, on_autodiff),
                None => self.layers.resolves_unplaced(),
            },
        ensures
            self.layers.is_prime(prime, class, has_caches, on_autodiff),
    {
        self.layers.prime(class, has_caches, on_autodiff)
    }

    /// The head that projects to the vocabulary: the dedicated one, or the tied
    /// (transposed embedding) weight.
    pub fn apply_lm_head(&self) -> (head: LmHead)
        ensures
            head == (match self.lm_head {
                Some(own) => LmHead::Own(own),
                None => LmHead::Tied(
                    LinearShape {
                        d_input: self.embedding[1],
                        d_output: self.embedding[0],
                        has_bias: false,
                    },
                ),
            }),
    {
        match self.lm_head {
            Some(own) => LmHead::Own(own),
            None => LmHead::Tied(LinearShape::new(self.embedding[1], self.embedding[0], false)),
        }
    }
}

/// Plain factory for a [`VocabNetwork`]. Mirrors [`LatentNetworkBuilder`] but
/// adds vocabulary padding and the choice of a tied head.
#[derive(Debug, Clone)]
pub struct VocabNetworkBuilder<C> {
    /// Unpadded vocabulary size (rounded up at init).
    pub vocab_size: usize,
    /// Round `vocab_size` up to a multiple of this (1 disables rounding).
    pub pad_vocab_size_multiple: usize,
    /// Builder for the layer stack.
    pub layers: LayersBuilder<C>,
    /// When `true`, tie the head to the (transposed) embedding weights.
    pub missing_lm_head: bool,
}

/// The shape of the parameters of a new [`VocabNetwork`].
#[derive(Debug, Clone)]
pub struct VocabNetworkShape {
    /// The dimensions of the token embedding table.
    pub embedding: [usize; 2],
    /// The layer stack.
    pub layers: StackShape,
    /// The length of the gain of the final norm.
    pub norm_f: usize,
    /// The dedicated head, unless the head is tied.
    pub lm_head: Option<LinearShape>,
}

impl<C: BlockConfig> VocabNetworkBuilder<C> {
    /// The padded vocabulary.
    pub open spec fn vocab(self) -> int {
        if self.vocab_size == 0 {
            0
        } else {
            mlp::rounded_up(self.vocab_size as int, self.pad_vocab_size_multiple as int)
        }
    }

    /// Whether the network can be built: the stack can, and the vocabulary
    /// rounds up to a machine integer.
    pub open spec fn builds(self) -> bool {
        &&& self.layers.builds()
        &&& self.vocab_size > 0 ==> self.pad_vocab_size_multiple > 0
        &&& self.vocab() <= usize::MAX
    }

    /// Whether the network can be built.
    pub fn can_build(&self) -> (ok: bool)
        ensures
            ok == self.builds(),
    {
        if !self.layers.can_build() {
            return false;
        }
        self.vocab_size == 0 || mlp::can_round_up(self.vocab_size, self.pad_vocab_size_multiple)
    }

    /// Round `vocab_size` up to the next multiple of `multiple`.
    pub fn padded_vocab(vocab_size: usize, multiple: usize) -> (padded: usize)
        requires
            vocab_size > 0 ==> multiple > 0 && mlp::rounded_up(vocab_size as int, multiple as int)
                <= usize::MAX,
        ensures
            padded == (if vocab_size == 0 {
                0
            } else {
                mlp::rounded_up(vocab_size as int, multiple as int)
            }),
    {
        if vocab_size == 0 {
            0
        } else {
            mlp::round_up(vocab_size, multiple)
        }
    }

    /// The shape of the network.
    pub fn init(&self) -> (shape: VocabNetworkShape)
        requires
            self.builds(),
        ensures
            shape.embedding[0] == self.vocab(),
            shape.embedding[1] == self.layers.block.width(),
            self.layers.is_shape(shape.layers),
            shape.norm_f == self.layers.block.width(),
            shape.lm_head == (if self.missing_lm_head {
                None
            } else {
                Some(
                    LinearShape {
                        d_input: self.layers.block.width(),
                        d_output: self.vocab() as usize,
                        has_bias: false,
                    },
                )
            }),
    {
        let d_model: usize = self.layers.block.d_model();
        let padded_vocab: usize = Self::padded_vocab(
            self.vocab_size,
            self.pad_vocab_size_multiple,
        );
        let lm_head = if self.missing_lm_head {
            None
        } else {
            Some(LinearShape::new(d_model, padded_vocab, false))
        };
        VocabNetworkShape {
            embedding: [padded_vocab, d_model],
            layers: self.layers.init(),
            norm_f: d_model,
            lm_head,
        }
    }
}

/// The rows that a call emits when each row of its first level steps through
/// the levels above by itself.
pub open spec fn step_rows<T>(
    call: StackCall,
    input: Seq<T>,
    row_of: spec_fn(int) -> spec_fn(int) -> T,
) -> Seq<T> {
    stack::step_outputs(
        stack::above(call),
        call.sequence(input, row_of, 1),
        stack::row_above(row_of),
        call.rows_at(1),
    )
}

/// The rows that a prime emits.
pub open spec fn prime_rows<T>(
    call: StackCall,
    row_of: spec_fn(int) -> spec_fn(int) -> T,
) -> Seq<T> {
    stack::step_outputs(
        opening(call),
        call.sequence(Seq::empty(), row_of, 1),
        stack::row_above(row_of),
        call.rows_at(1),
    ) + primed(call).output(Seq::empty(), stack::row_above(row_of))
}

/// The call of one row that follows a prime.
pub open spec fn after_prime(call: StackCall) -> StackCall {
    StackCall {
        offsets: seq![call.call(0).next_offset()] + primed(call).next_offsets(),
        rows: 1,
        prime: false,
        ..call
    }
}

/// To step every row that the first level hands up is to run the call over
/// them all: the same rows in the same order, and the same cursors.
pub proof fn step_emits_what_forward_emits<T>(
    call: StackCall,
    input: Seq<T>,
    row_of: spec_fn(int) -> spec_fn(int) -> T,
)
    requires
        call.stands(),
        call.levels.len() >= 1,
        !call.prime,
        call.rows >= 1,
        input.len() == call.rows,
    ensures
        step_rows(call, input, row_of) == call.output(input, row_of),
        seq![call.call(0).next_offset()] + stack::stepped(
            stack::above(call),
            call.rows_at(1),
        ).offsets == call.next_offsets(),
{
    let up = stack::above(call);
    let last = call.levels.len() - 1;
    stack::lemma_sequence_len(call, input, row_of, 1);
    stack::levels_hand_up_what_they_receive(call, 1);
    stack::lemma_above(call, input, row_of, last);
    stack::forward_is_step_unrolled(
        up,
        call.sequence(input, row_of, 1),
        stack::row_above(row_of),
    );
    assert forall|j: int| 0 <= j < up.levels.len() implies #[trigger] up.next_offsets()[j]
        == call.next_offsets()[j + 1] by {
        stack::lemma_above(call, input, row_of, j);
    }
    assert(seq![call.call(0).next_offset()] + up.next_offsets() =~= call.next_offsets());
}

/// Where the first level splits: what it hands up in a prime, and then in the
/// step, is what it hands up in the step alone.
proof fn lemma_primed_first_level<T>(
    prime: StackCall,
    token: T,
    row_of: spec_fn(int) -> spec_fn(int) -> T,
)
    requires
        prime.levels.len() >= 1,
        prime.rows == 0,
        prime.prime,
        prime.stands(),
    ensures
        ({
            let step = StackCall { rows: 1, prime: false, ..prime };
            let next = after_prime(prime);
            &&& step.sequence(seq![token], row_of, 1) == prime.sequence(Seq::empty(), row_of, 1)
                + next.sequence(seq![token], row_of, 1)
            &&& next.call(0).next_offset() == step.call(0).next_offset()
            &&& step.stands()
        }),
{
    let step = StackCall { rows: 1, prime: false, ..prime };
    let next = after_prime(prime);
    let none = Seq::<T>::empty();
    let one = seq![token];
    let call = prime.call(0);
    assert(next.call(0) == placement::after(call, 1, false));
    assert(step.call(0) == placement::joined(call, 1));
    placement::split_leaves_the_plan_unchanged(call, 1);
    placement::split_leaves_the_rows_unchanged(call, none, one, row_of(0));
    assert(none + one =~= one);
    reveal_with_fuel(StackCall::sequence, 2);
}

/// A prime followed by a step emits, at every level, what that step alone would
/// emit, in the same order, and leaves the same cursors.
#[verifier::rlimit(50)]
pub proof fn network_prime_then_step_is_the_step<T>(
    levels: Seq<Seq<Marker>>,
    full_len: Option<usize>,
    offsets: Seq<int>,
    token: T,
    row_of: spec_fn(int) -> spec_fn(int) -> T,
)
    requires
        levels.len() >= 1,
        (StackCall { levels, full_len, offsets, rows: 0, prime: true }).stands(),
    ensures
        ({
            let prime = StackCall { levels, full_len, offsets, rows: 0, prime: true };
            let step = StackCall { levels, full_len, offsets, rows: 1, prime: false };
            let next = after_prime(prime);
            &&& prime_rows(prime, row_of) + step_rows(next, seq![token], row_of) == step_rows(
                step,
                seq![token],
                row_of,
            )
            &&& next.next_offsets() == step.next_offsets()
        }),
{
    let prime = StackCall { levels, full_len, offsets, rows: 0, prime: true };
    let step = StackCall { levels, full_len, offsets, rows: 1, prime: false };
    let next = after_prime(prime);
    let none = Seq::<T>::empty();
    let one = seq![token];
    let up_row = stack::row_above(row_of);
    lemma_primed_first_level(prime, token, row_of);
    let first = prime.sequence(none, row_of, 1);
    let rest = next.sequence(one, row_of, 1);
    stack::lemma_sequence_len(prime, none, row_of, 1);
    stack::lemma_sequence_len(step, one, row_of, 1);
    // The levels above it.
    let a = opening(prime);
    let mid = primed(prime);
    let r = prime.rows_at(1);
    stack::lemma_stepped_agrees(a, stack::above(prime), r);
    assert(a.stands()) by {
        assert forall|j: int| 0 <= j < a.offsets.len() implies 0 <= #[trigger] a.offsets[j] by {
            assert(prime.offsets[j + 1] >= 0);
        }
    }
    if r > 0 {
        stack::forward_is_step_unrolled(a, first, up_row);
    }
    assert(mid.stands());
    assert(next.stands()) by {
        assert forall|j: int| 0 <= j < next.offsets.len() implies 0 <= #[trigger] next.offsets[j] by {
            if j > 0 {
                stack::lemma_sequence_len(mid, none, up_row, j - 1);
                assert(mid.offsets[j - 1] >= 0);
                assert(next.offsets[j] == mid.next_offsets()[j - 1]);
            }
        }
    }
    stack::lemma_sequence_len(next, one, row_of, 1);
    stack::levels_hand_up_what_they_receive(next, 1);
    stack::split_leaves_the_stack_unchanged(mid, none, rest, up_row);
    assert(none + rest =~= rest);
    assert(next.offsets.skip(1) =~= mid.next_offsets());
    assert(stack::above(next) == stack::after(mid, rest.len() as int, false));
    let whole = stack::joined(mid, rest.len() as int);
    if r > 0 {
        stack::split_leaves_the_stack_unchanged(a, first, rest, up_row);
        assert(stack::after(a, rest.len() as int, false) == whole);
        assert(stack::above(step) == stack::joined(a, rest.len() as int));
    } else {
        assert(first =~= none);
        assert(none + rest =~= rest);
        assert(stack::above(step) == whole);
    }
    step_emits_what_forward_emits(next, one, row_of);
    step_emits_what_forward_emits(step, one, row_of);
    stack::forward_is_step_unrolled(stack::above(next), rest, up_row);
    stack::forward_is_step_unrolled(stack::above(step), first + rest, up_row);
    let x = stack::step_outputs(a, first, up_row, r);
    let y = mid.output(none, up_row);
    let z = stack::above(next).output(rest, up_row);
    assert((x + y) + z =~= x + (y + z));
    if r <= 0 {
        assert(x =~= Seq::<T>::empty());
        assert(x + (y + z) =~= y + z);
    }
}

/// The levels above the first stream where all the levels do.
proof fn lemma_above_streams(call: StackCall)
    requires
        call.levels.len() >= 1,
        call.offsets.len() == call.levels.len(),
        call.streams(),
    ensures
        opening(call).streams(),
{
    let up = opening(call);
    let input = Seq::<int>::empty();
    let row_of = |l: int| |m: int| m;
    assert forall|j: int| 0 <= j < up.levels.len() implies #[trigger] up.in_step(j) by {
        stack::lemma_above(call, input, row_of, j);
        stack::lemma_full_at_agrees(up, stack::above(call), j);
        assert(call.in_step(j + 1));
        let mine = up.call(j);
        let its = call.call(j + 1);
        assert(mine.marks == its.marks && mine.offset == its.offset && mine.full_len
            == its.full_len);
        assert(mine.behind() == its.behind());
        if call.full_len is None {
            assert(up.full_len is None);
        }
    }
}

/// The steps of a prime keep the cursors of the stack those of one stream.
proof fn lemma_steps_stream(a: StackCall, n: int)
    requires
        a.levels.len() >= 1,
        a.streams(),
        !a.prime,
        0 <= n <= a.rows,
        n > 0 ==> a.fits(),
    ensures
        stack::stepped(a, n).streams(),
        stack::stepped(a, n).levels == a.levels,
        stack::stepped(a, n).full_len == a.full_len,
        stack::stepped(a, n).call(0).before() == a.call(0).before() + n,
    decreases n,
{
    let b = stack::stepped(a, n);
    if n == 0 {
        assert forall|j: int| 0 <= j < b.levels.len() implies #[trigger] b.in_step(j) by {
            assert(a.in_step(j));
            stack::lemma_full_at_agrees(a, b, j);
            assert(a.call(j).behind() == b.call(j).behind());
        }
        assert(a.call(0).behind() == b.call(0).behind());
    } else {
        let s = stack::stepped(a, n - 1);
        lemma_steps_stream(a, n - 1);
        stack::lemma_stepped_agrees(a, a, n - 1);
        stack::steps_fit_where_the_chunk_does(a, n - 1);
        stack::a_call_keeps_the_stream(s, 1, false);
    }
}

/// A prime of a network never emits an `End`, at any level: not among its class
/// tokens, not in a step of one of them, and not in the prime of the stack that
/// follows.
pub proof fn no_end_of_a_network_is_ever_primed(call: StackCall)
    requires
        call.levels.len() >= 2,
        call.offsets.len() == call.levels.len(),
        call.prime,
        call.rows == 0,
        call.level_fits(0),
        call.rows_at(1) > 0 ==> opening(call).fits(),
        primed(call).fits(),
        call.streams(),
    ensures
        forall|i: int|
            0 <= i < call.call(0).plan().len() ==> !(call.levels[0][(
            #[trigger] call.call(0).plan()[i]).1] is End),
        forall|r: int, j: int, i: int|
            #![trigger stack::stepped(opening(call), r).call(j).plan()[i]]
            0 <= r < call.rows_at(1) && 0 <= j < call.levels.len() - 1 && 0 <= i
                < stack::stepped(opening(call), r).call(j).plan().len() ==> !(call.levels[j
                + 1][stack::stepped(opening(call), r).call(j).plan()[i].1] is End),
        forall|j: int, i: int|
            #![trigger primed(call).call(j).plan()[i]]
            0 <= j < call.levels.len() - 1 && 0 <= i < primed(call).call(j).plan().len()
                ==> !(call.levels[j + 1][primed(call).call(j).plan()[i].1] is End),
{
    let up = opening(call);
    let mid = primed(call);
    let first = call.call(0);
    let rows = call.rows_at(1);
    placement::plan_names_places(first);
    placement::plan_names_markers(first);
    assert(call.in_step(0));
    assert(call.in_step(1));
    lemma_above_streams(call);
    assert forall|i: int| 0 <= i < first.plan().len() implies !(call.levels[0][(
    #[trigger] first.plan()[i]).1] is End) by {
        if call.full_len is Some {
            placement::lemma_primed_leaves_a_token(first);
            placement::end_is_never_primed(first, i);
        } else {
            assert(!call.levels[0][first.plan()[i].1].is_relative());
        }
    }
    assert(up.call(0).before() == call.offsets[0]) by {
        assert(up.call(0).behind() == call.call(1).behind());
    }
    if call.full_len is Some && rows > 0 {
        placement::lemma_primed_leaves_a_token(first);
        placement::lemma_stays_within(first);
    }
    lemma_steps_stream(up, rows);
    stack::lemma_stepped_agrees(up, stack::above(call), rows);
    let end = stack::stepped(up, rows);
    assert(mid.streams()) by {
        assert forall|j: int| 0 <= j < mid.levels.len() implies #[trigger] mid.in_step(j) by {
            assert(end.in_step(j));
            stack::lemma_full_at_agrees(end, mid, j);
            assert(end.call(j).behind() == mid.call(j).behind());
        }
    }
    assert(mid.call(0).before() == up.call(0).before() + rows) by {
        assert(end.call(0).behind() == mid.call(0).behind());
    }
    assert forall|r: int, j: int, i: int|
        #![trigger stack::stepped(opening(call), r).call(j).plan()[i]]
        0 <= r < rows && 0 <= j < call.levels.len() - 1 && 0 <= i < stack::stepped(
            opening(call),
            r,
        ).call(j).plan().len() implies !(call.levels[j + 1][stack::stepped(
        opening(call),
        r,
    ).call(j).plan()[i].1] is End) by {
        let s = stack::stepped(up, r);
        lemma_steps_stream(up, r);
        stack::lemma_stepped_agrees(up, up, r);
        stack::steps_fit_where_the_chunk_does(up, r);
        stack::no_end_before_the_last_row(s, j, i);
        assert(s.levels[j] == call.levels[j + 1]);
    }
    assert forall|j: int, i: int|
        #![trigger primed(call).call(j).plan()[i]]
        0 <= j < call.levels.len() - 1 && 0 <= i < primed(call).call(j).plan().len() implies !(
    call.levels[j + 1][primed(call).call(j).plan()[i].1] is End) by {
        stack::no_end_is_ever_primed(mid, j, i);
        assert(mid.levels[j] == call.levels[j + 1]);
    }
}

} // verus!
