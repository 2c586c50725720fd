//! What a stack computes, over any recurrent block: the outputs and the caches
//! of every way of running a sequence.
//!
//! A level receives rows, splices its markers into them, and runs a cell over
//! the result: a state and a row in, a state and a row out. The cell is all that
//! a layer does with one row, its norms and its residual included. A block whose
//! full-sequence pass is its step unrolled is such a cell.
use crate::modules::stack;
use crate::modules::stack::StackCall;
use crate::utils::class::laws as placement;
use crate::utils::class::splice;
use crate::utils::class::Marker;
use crate::utils::order;
use crate::utils::padding;
use crate::utils::padding::chunks;
use crate::utils::padding::laws as slots;
use crate::utils::padding::Padding;
use vstd::prelude::*;

verus! {

/// The state and the outputs of a cell, run over `rows` from `state`.
pub open spec fn run<S, T>(cell: spec_fn(S, T) -> (S, T), state: S, rows: Seq<T>) -> (S, Seq<T>)
    decreases rows.len(),
{
    if rows.len() == 0 {
        (state, Seq::empty())
    } else {
        let before = run(cell, state, rows.drop_last());
        let next = cell(before.0, rows.last());
        (next.0, before.1.push(next.1))
    }
}

/// A cell puts out a row for every row.
pub proof fn lemma_run_len<S, T>(cell: spec_fn(S, T) -> (S, T), state: S, rows: Seq<T>)
    ensures
        run(cell, state, rows).1.len() == rows.len(),
    decreases rows.len(),
{
    if rows.len() > 0 {
        lemma_run_len(cell, state, rows.drop_last());
    }
}

/// To run over two chunks is to run over the first, then over the second from
/// where it stopped.
pub proof fn lemma_run_concat<S, T>(
    cell: spec_fn(S, T) -> (S, T),
    state: S,
    rows: Seq<T>,
    more: Seq<T>,
)
    ensures
        run(cell, state, rows + more) == (
            run(cell, run(cell, state, rows).0, more).0,
            run(cell, state, rows).1 + run(cell, run(cell, state, rows).0, more).1,
        ),
    decreases more.len(),
{
    if more.len() == 0 {
        assert(rows + more =~= rows);
        assert(run(cell, state, rows).1 + Seq::<T>::empty() =~= run(cell, state, rows).1);
    } else {
        lemma_run_concat(cell, state, rows, more.drop_last());
        assert((rows + more).drop_last() =~= rows + more.drop_last());
        assert(run(cell, state, rows + more).1 =~= run(cell, state, rows).1 + run(
            cell,
            run(cell, state, rows).0,
            more,
        ).1);
    }
}

/// A stack of cells, with the rows of its markers.
#[verifier::reject_recursive_types(S)]
#[verifier::reject_recursive_types(T)]
pub struct Machine<S, T> {
    /// The cell of each level.
    pub cells: spec_fn(int) -> spec_fn(S, T) -> (S, T),
    /// The row of each marker of each level.
    pub row_of: spec_fn(int) -> spec_fn(int) -> T,
}

impl<S, T> Machine<S, T> {
    /// The rows that enter level `j` of `call`, when `input` enters the first
    /// one and the levels start from `states`.
    pub open spec fn entering(
        self,
        call: StackCall,
        input: Seq<T>,
        states: Seq<S>,
        j: int,
    ) -> Seq<T>
        decreases j,
    {
        if j <= 0 {
            input
        } else {
            run(
                (self.cells)(j - 1),
                states[j - 1],
                splice::spliced_plan(
                    self.entering(call, input, states, j - 1),
                    call.call(j - 1).plan(),
                    (self.row_of)(j - 1),
                ),
            ).1
        }
    }

    /// The rows that level `j` runs over: those that enter it, with its markers
    /// spliced in.
    pub open spec fn received(
        self,
        call: StackCall,
        input: Seq<T>,
        states: Seq<S>,
        j: int,
    ) -> Seq<T> {
        splice::spliced_plan(
            self.entering(call, input, states, j),
            call.call(j).plan(),
            (self.row_of)(j),
        )
    }

    /// The rows that leave the last level.
    pub open spec fn output(self, call: StackCall, input: Seq<T>, states: Seq<S>) -> Seq<T> {
        self.entering(call, input, states, call.levels.len() as int)
    }

    /// The state of every level after the call.
    pub open spec fn caches(self, call: StackCall, input: Seq<T>, states: Seq<S>) -> Seq<S> {
        Seq::new(
            call.levels.len(),
            |j: int|
                run((self.cells)(j), states[j], self.received(call, input, states, j)).0,
        )
    }

    /// As many rows enter each level as the call says.
    pub proof fn lemma_entering_len(
        self,
        call: StackCall,
        input: Seq<T>,
        states: Seq<S>,
        j: int,
    )
        requires
            call.stands(),
            input.len() == call.rows,
            0 <= j <= call.levels.len(),
        ensures
            self.entering(call, input, states, j).len() == call.rows_at(j),
            j < call.levels.len() ==> self.received(call, input, states, j).len() == call.rows_at(
                j + 1,
            ),
            0 <= call.rows_at(j),
        decreases j,
    {
        if j > 0 {
            self.lemma_entering_len(call, input, states, j - 1);
            lemma_run_len(
                (self.cells)(j - 1),
                states[j - 1],
                self.received(call, input, states, j - 1),
            );
        }
        if j < call.levels.len() {
            let p = call.call(j);
            stack::levels_hand_up_what_they_receive(call, j);
            placement::plan_names_places(p);
            splice::lemma_spliced_len(
                self.entering(call, input, states, j),
                splice::plan_ats(p.plan()),
                splice::plan_cols(p.plan(), (self.row_of)(j)),
            );
        }
    }

    proof fn lemma_split_at(
        self,
        a: StackCall,
        input: Seq<T>,
        more: Seq<T>,
        states: Seq<S>,
        j: int,
    )
        requires
            a.stands(),
            input.len() == a.rows,
            a.prime ==> more.len() >= 1,
            0 <= j <= a.levels.len(),
        ensures
            ({
                let b = stack::after(a, more.len() as int, false);
                let ab = stack::joined(a, more.len() as int);
                let next = self.caches(a, input, states);
                &&& self.entering(ab, input + more, states, j) == self.entering(
                    a,
                    input,
                    states,
                    j,
                ) + self.entering(b, more, next, j)
                &&& j < a.levels.len() ==> self.received(ab, input + more, states, j)
                    == self.received(a, input, states, j) + self.received(b, more, next, j)
            }),
        decreases j,
    {
        let b = stack::after(a, more.len() as int, false);
        let ab = stack::joined(a, more.len() as int);
        let next = self.caches(a, input, states);
        let none = |l: int| |m: int| 0int;
        let input_ids = Seq::new(input.len(), |i: int| 0int);
        let more_ids = Seq::new(more.len(), |i: int| 0int);
        stack::split_is_the_same_at(a, input_ids, more_ids, none, j);
        if j > 0 {
            let l = j - 1;
            self.lemma_split_at(a, input, more, states, l);
            lemma_run_concat(
                (self.cells)(l),
                states[l],
                self.received(a, input, states, l),
                self.received(b, more, next, l),
            );
        }
        if j < a.levels.len() {
            stack::lemma_full_at_agrees(a, b, j);
            stack::lemma_full_at_agrees(a, ab, j);
            self.lemma_entering_len(a, input, states, j);
            self.lemma_entering_len(b, more, next, j);
            stack::levels_hand_up_what_they_receive(b, j);
            let call = a.call(j);
            let rows = b.rows_at(j);
            assert(b.call(j) == placement::after(call, rows, false));
            assert(ab.call(j) == placement::joined(call, rows));
            placement::split_leaves_the_rows_unchanged(
                call,
                self.entering(a, input, states, j),
                self.entering(b, more, next, j),
                (self.row_of)(j),
            );
        }
    }
}

/// A split of a sequence into calls at any point changes neither an output nor a
/// cache: the two calls put out, one after the other, what one call over both
/// chunks puts out, and leave the caches that it leaves. The first call may be a
/// prime, as long as the second carries a row.
pub proof fn split_changes_no_output_and_no_cache<S, T>(
    machine: Machine<S, T>,
    a: StackCall,
    input: Seq<T>,
    more: Seq<T>,
    states: Seq<S>,
)
    requires
        a.stands(),
        input.len() == a.rows,
        a.prime ==> more.len() >= 1,
    ensures
        ({
            let b = stack::after(a, more.len() as int, false);
            let ab = stack::joined(a, more.len() as int);
            let next = machine.caches(a, input, states);
            &&& machine.output(ab, input + more, states) == machine.output(a, input, states)
                + machine.output(b, more, next)
            &&& machine.caches(ab, input + more, states) == machine.caches(b, more, next)
        }),
{
    let b = stack::after(a, more.len() as int, false);
    let ab = stack::joined(a, more.len() as int);
    let next = machine.caches(a, input, states);
    machine.lemma_split_at(a, input, more, states, a.levels.len() as int);
    assert forall|j: int| 0 <= j < a.levels.len() implies #[trigger] machine.caches(
        ab,
        input + more,
        states,
    )[j] == machine.caches(b, more, next)[j] by {
        machine.lemma_split_at(a, input, more, states, j);
        lemma_run_concat(
            (machine.cells)(j),
            states[j],
            machine.received(a, input, states, j),
            machine.received(b, more, next, j),
        );
    }
    assert(machine.caches(ab, input + more, states) =~= machine.caches(b, more, next));
}

/// The caches after `n` steps of one row each.
pub open spec fn step_caches<S, T>(
    machine: Machine<S, T>,
    a: StackCall,
    input: Seq<T>,
    states: Seq<S>,
    n: int,
) -> Seq<S>
    decreases n,
{
    if n <= 0 {
        states
    } else {
        machine.caches(
            stack::stepped(a, n - 1),
            seq![input[n - 1]],
            step_caches(machine, a, input, states, n - 1),
        )
    }
}

/// What `n` steps of one row each put out, one after another.
pub open spec fn step_outputs<S, T>(
    machine: Machine<S, T>,
    a: StackCall,
    input: Seq<T>,
    states: Seq<S>,
    n: int,
) -> Seq<T>
    decreases n,
{
    if n <= 0 {
        Seq::empty()
    } else {
        step_outputs(machine, a, input, states, n - 1) + machine.output(
            stack::stepped(a, n - 1),
            seq![input[n - 1]],
            step_caches(machine, a, input, states, n - 1),
        )
    }
}

/// The steps of a chunk do not depend on the rows after them.
proof fn lemma_steps_agree<S, T>(
    machine: Machine<S, T>,
    a: StackCall,
    b: StackCall,
    input: Seq<T>,
    more: Seq<T>,
    states: Seq<S>,
    n: int,
)
    requires
        a.levels == b.levels,
        a.full_len == b.full_len,
        a.offsets == b.offsets,
        forall|i: int| 0 <= i < n ==> #[trigger] input[i] == more[i],
    ensures
        step_outputs(machine, a, input, states, n) == step_outputs(machine, b, more, states, n),
        step_caches(machine, a, input, states, n) == step_caches(machine, b, more, states, n),
    decreases n,
{
    if n > 0 {
        lemma_steps_agree(machine, a, b, input, more, states, n - 1);
        stack::lemma_stepped_agrees(a, b, n - 1);
        assert(input[n - 1] == more[n - 1]);
    }
}

/// A full-sequence pass from any caches equals the steps over its rows from the
/// same caches: on the outputs, and on the final caches.
pub proof fn forward_equals_step_unrolled<S, T>(
    machine: Machine<S, T>,
    a: StackCall,
    input: Seq<T>,
    states: Seq<S>,
)
    requires
        a.stands(),
        !a.prime,
        a.rows == input.len(),
        a.rows >= 1,
    ensures
        machine.output(a, input, states) == step_outputs(machine, a, input, states, a.rows),
        machine.caches(a, input, states) == step_caches(machine, a, input, states, a.rows),
    decreases a.rows,
{
    let n = a.rows;
    if n == 1 {
        assert(seq![input[0]] =~= input);
        reveal_with_fuel(step_outputs, 2);
        reveal_with_fuel(step_caches, 2);
        assert(stack::stepped(a, 0) == a);
        assert(Seq::<T>::empty() + machine.output(a, input, states) =~= machine.output(
            a,
            input,
            states,
        ));
    } else {
        let front = StackCall { rows: n - 1, ..a };
        let first = input.drop_last();
        let last = seq![input[n - 1]];
        forward_equals_step_unrolled(machine, front, first, states);
        split_changes_no_output_and_no_cache(machine, front, first, last, states);
        assert(first + last =~= input);
        assert(stack::joined(front, 1) == a);
        lemma_steps_agree(machine, front, a, first, input, states, n - 1);
        stack::lemma_stepped_agrees(front, a, n - 1);
        let ids = Seq::new((n - 1) as nat, |i: int| 0int);
        stack::forward_is_step_unrolled(front, ids, |l: int| |m: int| 0int);
        assert(stack::after(front, 1, false) == stack::stepped(a, n - 1));
    }
}

/// A prime followed by a step puts out what that step alone would put out, in
/// the same order, and leaves the same caches.
pub proof fn prime_then_step_equals_the_step<S, T>(
    machine: Machine<S, T>,
    levels: Seq<Seq<Marker>>,
    full_len: Option<usize>,
    offsets: Seq<int>,
    token: T,
    states: Seq<S>,
)
    requires
        (StackCall { levels, full_len, offsets, rows: 0, prime: true }).stands(),
    ensures
        ({
            let prime = StackCall { levels, full_len, offsets, rows: 0, prime: true };
            let step = StackCall { levels, full_len, offsets, rows: 1, prime: false };
            let next = stack::after(prime, 1, false);
            let primed = machine.caches(prime, Seq::empty(), states);
            &&& machine.output(prime, Seq::empty(), states) + machine.output(
                next,
                seq![token],
                primed,
            ) == machine.output(step, seq![token], states)
            &&& machine.caches(next, seq![token], primed) == machine.caches(
                step,
                seq![token],
                states,
            )
        }),
{
    let prime = StackCall { levels, full_len, offsets, rows: 0, prime: true };
    let none = Seq::<T>::empty();
    split_changes_no_output_and_no_cache(machine, prime, none, seq![token], states);
    assert(none + seq![token] =~= seq![token]);
}

/// The levels above the first, as a stack of their own.
pub open spec fn machine_above<S, T>(machine: Machine<S, T>) -> Machine<S, T> {
    Machine {
        cells: |l: int| (machine.cells)(l + 1),
        row_of: |l: int| (machine.row_of)(l + 1),
    }
}

proof fn lemma_entering_above<S, T>(
    machine: Machine<S, T>,
    call: StackCall,
    input: Seq<T>,
    states: Seq<S>,
    j: int,
)
    requires
        call.levels.len() >= 1,
        call.offsets.len() == call.levels.len(),
        states.len() == call.levels.len(),
        0 <= j < call.levels.len(),
    ensures
        machine_above(machine).entering(
            stack::above(call),
            machine.entering(call, input, states, 1),
            states.skip(1),
            j,
        ) == machine.entering(call, input, states, j + 1),
        j + 1 < call.levels.len() ==> machine_above(machine).received(
            stack::above(call),
            machine.entering(call, input, states, 1),
            states.skip(1),
            j,
        ) == machine.received(call, input, states, j + 1),
    decreases j,
{
    let none = Seq::<int>::empty();
    stack::lemma_above(call, none, |l: int| |m: int| m, j);
    if j > 0 {
        lemma_entering_above(machine, call, input, states, j - 1);
        stack::lemma_above(call, none, |l: int| |m: int| m, j - 1);
        assert(states.skip(1)[j - 1] == states[j]);
    }
}

/// To step each row that the first level hands up through the levels above it is
/// to run the call over them all: the same outputs, and the same caches. A
/// network steps its class tokens and its user token so.
pub proof fn network_step_equals_forward<S, T>(
    machine: Machine<S, T>,
    call: StackCall,
    input: Seq<T>,
    states: Seq<S>,
)
    requires
        call.stands(),
        call.levels.len() >= 1,
        states.len() == call.levels.len(),
        !call.prime,
        call.rows >= 1,
        input.len() == call.rows,
    ensures
        ({
            let up = stack::above(call);
            let handed = machine.entering(call, input, states, 1);
            &&& step_outputs(
                machine_above(machine),
                up,
                handed,
                states.skip(1),
                call.rows_at(1),
            ) == machine.output(call, input, states)
            &&& step_caches(
                machine_above(machine),
                up,
                handed,
                states.skip(1),
                call.rows_at(1),
            ) == machine.caches(call, input, states).skip(1)
        }),
{
    let up = stack::above(call);
    let above = machine_above(machine);
    let handed = machine.entering(call, input, states, 1);
    stack::levels_hand_up_what_they_receive(call, 1);
    machine.lemma_entering_len(call, input, states, 1);
    assert(up.stands()) by {
        assert forall|j: int| 0 <= j < up.offsets.len() implies 0 <= #[trigger] up.offsets[j] by {
            assert(call.offsets[j + 1] >= 0);
        }
    }
    forward_equals_step_unrolled(above, up, handed, states.skip(1));
    lemma_entering_above(machine, call, input, states, call.levels.len() - 1);
    assert forall|j: int| 0 <= j < up.levels.len() implies #[trigger] above.caches(
        up,
        handed,
        states.skip(1),
    )[j] == machine.caches(call, input, states).skip(1)[j] by {
        lemma_entering_above(machine, call, input, states, j);
        assert(states.skip(1)[j] == states[j + 1]);
    }
    assert(above.caches(up, handed, states.skip(1)) =~= machine.caches(
        call,
        input,
        states,
    ).skip(1));
}

/// Whether `rows` are the rows of slot `b` that enter each level of a padded
/// call: the real rows of a slot run through the cell in the order of the slot,
/// and what a padded row holds is left open.
pub open spec fn runs_padded<S, T>(
    machine: Machine<S, T>,
    call: StackCall,
    paddings: Seq<Padding>,
    b: int,
    states: Seq<S>,
    rows: Seq<Seq<T>>,
) -> bool {
    &&& rows.len() == call.levels.len() + 1
    &&& forall|j: int| 0 <= j < rows.len() ==> (#[trigger] rows[j]).len() == call.rows_at(j)
    &&& forall|j: int|
        0 <= j < call.levels.len() ==> slots::slot_sequence(
            rows[j + 1],
            paddings[j + 1].pad(b),
            paddings[j + 1].local(b),
        ) == run(
            (machine.cells)(j),
            states[j],
            slots::slot_sequence(
                splice::spliced_plan(
                    #[trigger] rows[j],
                    call.call(j).plan(),
                    (machine.row_of)(j),
                ),
                paddings[j + 1].pad(b),
                paddings[j + 1].local(b),
            ),
        ).1
}

/// A padded batch of whole sequences is each slot alone, on the outputs of its
/// real rows and on its caches: what a slot puts out is what it puts out when it
/// runs by itself.
pub proof fn padded_run_is_each_slot_alone<S, T>(
    machine: Machine<S, T>,
    levels: Seq<Seq<Marker>>,
    rows: Seq<Seq<T>>,
    paddings: Seq<Padding>,
    b: int,
    states: Seq<S>,
    j: int,
)
    requires
        rows.len() == levels.len() + 1,
        rows[0].len() <= usize::MAX,
        ({
            let call = stack::whole(levels, rows[0].len() as usize);
            &&& call.fits()
            &&& stack::paddings_follow(call, paddings)
            &&& paddings[0].rows() == rows[0].len()
            &&& runs_padded(machine, call, paddings, b, states, rows)
        }),
        0 <= b < paddings[0].batch(),
        padding::n_real(paddings[0].pad(b)) <= usize::MAX,
        stack::settles(levels, padding::n_real(paddings[0].pad(b)) as int),
        stack::whole(levels, padding::n_real(paddings[0].pad(b)) as usize).fits(),
        0 <= j <= levels.len(),
    ensures
        ({
            let call = stack::whole(levels, rows[0].len() as usize);
            let solo = stack::whole(levels, padding::n_real(paddings[0].pad(b)) as usize);
            let alone = slots::slot_sequence(rows[0], paddings[0].pad(b), paddings[0].local(b));
            &&& slots::slot_sequence(rows[j], paddings[j].pad(b), paddings[j].local(b))
                == machine.entering(solo, alone, states, j)
            &&& j < levels.len() ==> run(
                (machine.cells)(j),
                states[j],
                slots::slot_sequence(
                    splice::spliced_plan(rows[j], call.call(j).plan(), (machine.row_of)(j)),
                    paddings[j + 1].pad(b),
                    paddings[j + 1].local(b),
                ),
            ).0 == machine.caches(solo, alone, states)[j]
        }),
    decreases j,
{
    let n = rows[0].len() as usize;
    let m = padding::n_real(paddings[0].pad(b)) as usize;
    let solo = stack::whole(levels, m);
    let alone = slots::slot_sequence(rows[0], paddings[0].pad(b), paddings[0].local(b));
    if j > 0 {
        let l = j - 1;
        padded_run_is_each_slot_alone(machine, levels, rows, paddings, b, states, l);
        lemma_padded_level(levels, n, paddings, b, rows[l], (machine.row_of)(l), l);
        assert(rows[l + 1].len() == stack::whole(levels, n).rows_at(l + 1));
        assert(machine.entering(solo, alone, states, l + 1) == run(
            (machine.cells)(l),
            states[l],
            machine.received(solo, alone, states, l),
        ).1);
    }
    if j < levels.len() {
        lemma_padded_level(levels, n, paddings, b, rows[j], (machine.row_of)(j), j);
        assert(machine.caches(solo, alone, states)[j] == run(
            (machine.cells)(j),
            states[j],
            machine.received(solo, alone, states, j),
        ).0);
    }
}

/// One level of a padded call over whole sequences splices into each slot what
/// the slot alone would splice.
proof fn lemma_padded_level<T>(
    levels: Seq<Seq<Marker>>,
    n: usize,
    paddings: Seq<Padding>,
    b: int,
    rows: Seq<T>,
    row_of: spec_fn(int) -> T,
    j: int,
)
    requires
        stack::whole(levels, n).fits(),
        stack::paddings_follow(stack::whole(levels, n), paddings),
        paddings[0].rows() == n,
        0 <= b < paddings[0].batch(),
        padding::n_real(paddings[0].pad(b)) <= usize::MAX,
        stack::settles(levels, padding::n_real(paddings[0].pad(b)) as int),
        stack::whole(levels, padding::n_real(paddings[0].pad(b)) as usize).fits(),
        0 <= j < levels.len(),
        rows.len() == stack::whole(levels, n).rows_at(j),
    ensures
        slots::slot_sequence(
            splice::spliced_plan(rows, stack::whole(levels, n).call(j).plan(), row_of),
            paddings[j + 1].pad(b),
            paddings[j + 1].local(b),
        ) == splice::spliced_plan(
            slots::slot_sequence(rows, paddings[j].pad(b), paddings[j].local(b)),
            stack::whole(levels, padding::n_real(paddings[0].pad(b)) as usize).call(j).plan(),
            row_of,
        ),
{
    let call = stack::whole(levels, n);
    let m = padding::n_real(paddings[0].pad(b)) as usize;
    let ids = Seq::new(n as nat, |i: int| 0int);
    let none = |l: int| |m: int| 0int;
    assert(paddings[0].wf());
    assert(paddings[0].pad_bs@[b]@.len() == paddings[0].rows());
    order::lemma_count_bound(
        paddings[0].pad(b).len(),
        padding::real_rows(paddings[0].pad(b)),
    );
    stack::padded_stack_is_each_slot_alone(levels, n, paddings, b, ids, none, j);
    stack::whole_call_is_whole_at_every_level(levels, n, j);
    stack::whole_call_is_whole_at_every_level(levels, m, j);
    assert(paddings[j].wf() && paddings[j + 1].wf());
    assert(call.level_fits(j));
    assert(paddings[j].splices_to(call.call(j).plan(), levels[j], paddings[j + 1]));
    slots::padded_splice_is_each_slot_alone(
        paddings[j],
        paddings[j + 1],
        levels[j],
        b,
        rows,
        row_of,
    );
}

/// The states of slot `b` after a padded call.
pub open spec fn padded_caches<S, T>(
    machine: Machine<S, T>,
    call: StackCall,
    paddings: Seq<Padding>,
    b: int,
    states: Seq<S>,
    rows: Seq<Seq<T>>,
) -> Seq<S> {
    Seq::new(
        call.levels.len(),
        |j: int|
            run(
                (machine.cells)(j),
                states[j],
                slots::slot_sequence(
                    splice::spliced_plan(rows[j], call.call(j).plan(), (machine.row_of)(j)),
                    paddings[j + 1].pad(b),
                    paddings[j + 1].local(b),
                ),
            ).0,
    )
}

/// A slot without real rows has none at any level, unless an `End` closes it.
proof fn lemma_all_padding(call: StackCall, paddings: Seq<Padding>, b: int, j: int)
    requires
        call.stands(),
        stack::paddings_follow(call, paddings),
        paddings[0].rows() == call.rows,
        0 <= b < paddings[0].batch(),
        padding::n_real(paddings[0].pad(b)) == 0,
        forall|l: int, i: int|
            #![trigger call.call(l).plan()[i]]
            0 <= l < call.levels.len() && 0 <= i < call.call(l).plan().len()
                ==> !(call.levels[l][call.call(l).plan()[i].1] is End),
        0 <= j <= call.levels.len(),
    ensures
        paddings[j].batch() == paddings[0].batch(),
        paddings[j].rows() == call.rows_at(j),
        padding::n_real(paddings[j].pad(b)) == 0,
    decreases j,
{
    if j > 0 {
        let l = j - 1;
        lemma_all_padding(call, paddings, b, l);
        let plan = call.call(l).plan();
        let before = paddings[l];
        assert(before.wf());
        assert(before.splices_to(plan, call.levels[l], paddings[l + 1]));
        assert(padding::orders_slot(before.pad(b), before.local(b)));
        assert(before.pad_bs@[b]@.len() == before.rows());
        stack::levels_hand_up_what_they_receive(call, l);
        placement::plan_names_places(call.call(l));
        let s = before.slot(plan, call.levels[l], b);
        assert forall|i: int| 0 <= i < s.plan.len() implies !((#[trigger] s.mark(i)) is End) by {
            assert(call.call(l).plan()[i] == s.plan[i]);
        }
        slots::lemma_empty_slot_stays_empty(s);
        assert(paddings[j].pad(b) == s.spliced_pad());
    }
}

/// A slot that is all padding is absent from a call that closes no sequence: it
/// puts out no row at any level, and its caches stay as they were.
pub proof fn an_all_padding_slot_keeps_its_caches<S, T>(
    machine: Machine<S, T>,
    call: StackCall,
    paddings: Seq<Padding>,
    b: int,
    states: Seq<S>,
    rows: Seq<Seq<T>>,
    j: int,
)
    requires
        call.stands(),
        stack::paddings_follow(call, paddings),
        paddings[0].rows() == call.rows,
        0 <= b < paddings[0].batch(),
        padding::n_real(paddings[0].pad(b)) == 0,
        forall|l: int, i: int|
            #![trigger call.call(l).plan()[i]]
            0 <= l < call.levels.len() && 0 <= i < call.call(l).plan().len()
                ==> !(call.levels[l][call.call(l).plan()[i].1] is End),
        0 <= j <= call.levels.len(),
    ensures
        slots::slot_sequence(rows[j], paddings[j].pad(b), paddings[j].local(b)).len() == 0,
        j < call.levels.len() ==> padded_caches(
            machine,
            call,
            paddings,
            b,
            states,
            rows,
        )[j] == states[j],
{
    lemma_all_padding(call, paddings, b, j);
    if j < call.levels.len() {
        lemma_all_padding(call, paddings, b, j + 1);
    }
}

/// The states of slot `b` after the first `k` padded calls.
pub open spec fn chunked_caches<S, T>(
    machine: Machine<S, T>,
    levels: Seq<Seq<Marker>>,
    sizes: Seq<int>,
    paddings: Seq<Seq<Padding>>,
    b: int,
    states: Seq<S>,
    rows: Seq<Seq<Seq<T>>>,
    k: int,
) -> Seq<S>
    decreases k,
{
    if k <= 0 {
        states
    } else {
        padded_caches(
            machine,
            stack::nth_call(levels, sizes, k - 1),
            paddings[k - 1],
            b,
            chunked_caches(machine, levels, sizes, paddings, b, states, rows, k - 1),
            rows[k - 1],
        )
    }
}

/// Whether `rows` are the rows of slot `b` that enter each level of each call,
/// which starts from the caches that the one before it leaves.
pub open spec fn runs_chunked<S, T>(
    machine: Machine<S, T>,
    levels: Seq<Seq<Marker>>,
    sizes: Seq<int>,
    paddings: Seq<Seq<Padding>>,
    b: int,
    states: Seq<S>,
    rows: Seq<Seq<Seq<T>>>,
) -> bool {
    &&& rows.len() == sizes.len()
    &&& forall|k: int|
        0 <= k < sizes.len() ==> runs_padded(
            machine,
            stack::nth_call(levels, sizes, k),
            paddings[k],
            b,
            chunked_caches(machine, levels, sizes, paddings, b, states, rows, k),
            #[trigger] rows[k],
        )
}

/// The rows of every call that enter level `j`.
pub open spec fn rows_at_level<T>(rows: Seq<Seq<Seq<T>>>, j: int) -> Seq<Seq<T>> {
    Seq::new(rows.len(), |k: int| rows[k][j])
}

/// Split into calls, a padded batch is still each slot alone, on the outputs of
/// its real rows and on its final caches. A slot that ended early carries its
/// caches through the calls after it, and its `End` lands in the last of them.
pub proof fn chunked_padded_run_is_each_slot_alone<S, T>(
    machine: Machine<S, T>,
    levels: Seq<Seq<Marker>>,
    sizes: Seq<int>,
    paddings: Seq<Seq<Padding>>,
    b: int,
    rows: Seq<Seq<Seq<T>>>,
    states: Seq<S>,
    j: int,
)
    requires
        stack::chunked(levels, sizes, paddings, b),
        runs_chunked(machine, levels, sizes, paddings, b, states, rows),
        0 <= j <= levels.len(),
    ensures
        stack::aligned(levels, sizes, paddings, b, j),
        ({
            let n = sizes.len() as int;
            let solo = stack::whole(levels, stack::chunked_len(paddings, b) as usize);
            let alone = chunks::joined_slot(
                rows_at_level(rows, 0),
                stack::at_level(paddings, 0),
                b,
                n,
            );
            &&& chunks::joined_slot(
                rows_at_level(rows, j),
                stack::at_level(paddings, j),
                b,
                n,
            ) == machine.entering(solo, alone, states, j)
            &&& j < levels.len() ==> chunked_caches(
                machine,
                levels,
                sizes,
                paddings,
                b,
                states,
                rows,
                n,
            )[j] == machine.caches(solo, alone, states)[j]
        }),
    decreases j,
{
    if j == 0 {
        stack::lemma_aligned_below(levels, sizes, paddings, b);
    } else {
        chunked_padded_run_is_each_slot_alone(
            machine,
            levels,
            sizes,
            paddings,
            b,
            rows,
            states,
            j - 1,
        );
        lemma_chunked_received(machine, levels, sizes, paddings, b, rows, states, j - 1);
    }
    if j < levels.len() {
        lemma_chunked_received(machine, levels, sizes, paddings, b, rows, states, j);
    }
}

/// Where the rows that enter level `l` in the calls are those that enter it when
/// the slot runs by itself, so is what the level does with them.
proof fn lemma_chunked_received<S, T>(
    machine: Machine<S, T>,
    levels: Seq<Seq<Marker>>,
    sizes: Seq<int>,
    paddings: Seq<Seq<Padding>>,
    b: int,
    rows: Seq<Seq<Seq<T>>>,
    states: Seq<S>,
    l: int,
)
    requires
        stack::chunked(levels, sizes, paddings, b),
        runs_chunked(machine, levels, sizes, paddings, b, states, rows),
        stack::aligned(levels, sizes, paddings, b, l),
        0 <= l < levels.len(),
        chunks::joined_slot(
            rows_at_level(rows, l),
            stack::at_level(paddings, l),
            b,
            sizes.len() as int,
        ) == machine.entering(
            stack::whole(levels, stack::chunked_len(paddings, b) as usize),
            chunks::joined_slot(
                rows_at_level(rows, 0),
                stack::at_level(paddings, 0),
                b,
                sizes.len() as int,
            ),
            states,
            l,
        ),
    ensures
        stack::aligned(levels, sizes, paddings, b, l + 1),
        ({
            let n = sizes.len() as int;
            let solo = stack::whole(levels, stack::chunked_len(paddings, b) as usize);
            let alone = chunks::joined_slot(
                rows_at_level(rows, 0),
                stack::at_level(paddings, 0),
                b,
                n,
            );
            &&& chunks::joined_slot(
                rows_at_level(rows, l + 1),
                stack::at_level(paddings, l + 1),
                b,
                n,
            ) == machine.entering(solo, alone, states, l + 1)
            &&& chunked_caches(
                machine,
                levels,
                sizes,
                paddings,
                b,
                states,
                rows,
                n,
            )[l] == machine.caches(solo, alone, states)[l]
        }),
{
    let n = sizes.len() as int;
    let row_of = (machine.row_of)(l);
    let solo = stack::whole(levels, stack::chunked_len(paddings, b) as usize);
    let alone = chunks::joined_slot(rows_at_level(rows, 0), stack::at_level(paddings, 0), b, n);
    let here = rows_at_level(rows, l);
    assert forall|k: int| 0 <= k < n implies (#[trigger] here[k]).len() == stack::nth_call(
        levels,
        sizes,
        k,
    ).rows_at(l) by {
        stack::lemma_nth_call(levels, sizes, k, l);
        assert(rows[k][l].len() == stack::nth_call(levels, sizes, k).rows_at(l));
    }
    stack::lemma_chunked_level(levels, sizes, paddings, b, here, row_of, l);
    lemma_chunked_cells(machine, levels, sizes, paddings, b, rows, states, l, n);
    assert(machine.entering(solo, alone, states, l + 1) == run(
        (machine.cells)(l),
        states[l],
        machine.received(solo, alone, states, l),
    ).1);
    assert(machine.caches(solo, alone, states)[l] == run(
        (machine.cells)(l),
        states[l],
        machine.received(solo, alone, states, l),
    ).0);
}

/// The cell of a level runs over the rows of the calls, one call after another,
/// as over all of them.
proof fn lemma_chunked_cells<S, T>(
    machine: Machine<S, T>,
    levels: Seq<Seq<Marker>>,
    sizes: Seq<int>,
    paddings: Seq<Seq<Padding>>,
    b: int,
    rows: Seq<Seq<Seq<T>>>,
    states: Seq<S>,
    l: int,
    k: int,
)
    requires
        stack::chunked(levels, sizes, paddings, b),
        runs_chunked(machine, levels, sizes, paddings, b, states, rows),
        0 <= l < levels.len(),
        0 <= k <= sizes.len(),
    ensures
        run(
            (machine.cells)(l),
            states[l],
            chunks::joined_slot(
                stack::spliced_calls(
                    levels,
                    sizes,
                    rows_at_level(rows, l),
                    (machine.row_of)(l),
                    l,
                ),
                stack::at_level(paddings, l + 1),
                b,
                k,
            ),
        ) == (
            chunked_caches(machine, levels, sizes, paddings, b, states, rows, k)[l],
            chunks::joined_slot(
                rows_at_level(rows, l + 1),
                stack::at_level(paddings, l + 1),
                b,
                k,
            ),
        ),
    decreases k,
{
    if k > 0 {
        let i = k - 1;
        let out = stack::spliced_calls(
            levels,
            sizes,
            rows_at_level(rows, l),
            (machine.row_of)(l),
            l,
        );
        let pads = stack::at_level(paddings, l + 1);
        lemma_chunked_cells(machine, levels, sizes, paddings, b, rows, states, l, i);
        stack::lemma_nth_call(levels, sizes, i, l);
        assert(runs_padded(
            machine,
            stack::nth_call(levels, sizes, i),
            paddings[i],
            b,
            chunked_caches(machine, levels, sizes, paddings, b, states, rows, i),
            rows[i],
        ));
        lemma_run_concat(
            (machine.cells)(l),
            states[l],
            chunks::joined_slot(out, pads, b, i),
            slots::slot_sequence(out[i], pads[i].pad(b), pads[i].local(b)),
        );
    }
}

} // verus!
