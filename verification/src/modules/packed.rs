//! What a stack computes over packed rows: every sequence of a slot puts out
//! what it puts out alone.
//!
//! A level runs its cell over all the rows of a slot, and restarts it at each
//! reset. The class latents of the stack are already in the opening slots of
//! each sequence, so no level splices anything.
use crate::modules::recurrence;
use crate::modules::recurrence::Machine;
use crate::modules::stack;
use crate::utils::class;
use crate::utils::class::laws as placement;
use crate::utils::class::splice;
use crate::utils::class::Marker;
use crate::utils::order;
use crate::utils::packing;
use vstd::prelude::*;

verus! {

/// The state and the outputs of a cell, run over the rows of a packed slot from
/// `state`: it restarts from `zero` at each reset.
pub open spec fn run_packed<S, T>(
    cell: spec_fn(S, T) -> (S, T),
    zero: S,
    state: S,
    reset: Seq<bool>,
    rows: Seq<T>,
) -> (S, Seq<T>)
    decreases rows.len(),
{
    if rows.len() == 0 {
        (state, Seq::empty())
    } else {
        let before = run_packed(cell, zero, state, reset, rows.drop_last());
        let from = if reset[rows.len() - 1] {
            zero
        } else {
            before.0
        };
        let next = cell(from, rows.last());
        (next.0, before.1.push(next.1))
    }
}

/// The rows that level `j` runs over, when the slot holds `rows` and the levels
/// start from `states`.
pub open spec fn received_packed<S, T>(
    machine: Machine<S, T>,
    zeros: Seq<S>,
    states: Seq<S>,
    reset: Seq<bool>,
    rows: Seq<T>,
    j: int,
) -> Seq<T>
    decreases j,
{
    if j <= 0 {
        rows
    } else {
        run_packed(
            (machine.cells)(j - 1),
            zeros[j - 1],
            states[j - 1],
            reset,
            received_packed(machine, zeros, states, reset, rows, j - 1),
        ).1
    }
}

/// The rows of a slot, with row `k` of a table in every opening slot `k`.
pub open spec fn placed<T>(
    rows: Seq<T>,
    latent: Seq<Option<usize>>,
    row_of: spec_fn(int) -> T,
) -> Seq<T> {
    Seq::new(
        rows.len(),
        |x: int|
            match latent[x] {
                Some(k) => row_of(k as int),
                None => rows[x],
            },
    )
}

/// Where sequence `i` of a slot ends: at the next one, or with the slot.
pub open spec fn sequence_end(starts: Seq<usize>, rows: int, i: int) -> int {
    if i + 1 < starts.len() {
        starts[i + 1] as int
    } else {
        rows
    }
}

proof fn lemma_run_packed_len<S, T>(
    cell: spec_fn(S, T) -> (S, T),
    zero: S,
    state: S,
    reset: Seq<bool>,
    rows: Seq<T>,
)
    ensures
        run_packed(cell, zero, state, reset, rows).1.len() == rows.len(),
    decreases rows.len(),
{
    if rows.len() > 0 {
        lemma_run_packed_len(cell, zero, state, reset, rows.drop_last());
    }
}

/// What a cell puts out over the first rows does not depend on the rest.
proof fn lemma_run_packed_prefix<S, T>(
    cell: spec_fn(S, T) -> (S, T),
    zero: S,
    state: S,
    reset: Seq<bool>,
    rows: Seq<T>,
    n: int,
)
    requires
        0 <= n <= rows.len(),
    ensures
        run_packed(cell, zero, state, reset, rows).1.take(n) == run_packed(
            cell,
            zero,
            state,
            reset,
            rows.take(n),
        ).1,
    decreases rows.len(),
{
    lemma_run_packed_len(cell, zero, state, reset, rows);
    if n == rows.len() {
        assert(rows.take(n) =~= rows);
        assert(run_packed(cell, zero, state, reset, rows).1.take(n) =~= run_packed(
            cell,
            zero,
            state,
            reset,
            rows,
        ).1);
    } else {
        let front = rows.drop_last();
        lemma_run_packed_prefix(cell, zero, state, reset, front, n);
        lemma_run_packed_len(cell, zero, state, reset, front);
        assert(front.take(n) =~= rows.take(n));
        assert(run_packed(cell, zero, state, reset, rows).1.take(n) =~= run_packed(
            cell,
            zero,
            state,
            reset,
            front,
        ).1.take(n));
    }
}

/// From a reset on, and up to the next one, a cell runs as it runs over those
/// rows alone.
proof fn lemma_run_from_reset<S, T>(
    cell: spec_fn(S, T) -> (S, T),
    zero: S,
    state: S,
    reset: Seq<bool>,
    rows: Seq<T>,
    start: int,
)
    requires
        0 <= start < rows.len(),
        reset[start],
        forall|x: int| start < x < rows.len() ==> !#[trigger] reset[x],
    ensures
        run_packed(cell, zero, state, reset, rows).1.subrange(start, rows.len() as int)
            == recurrence::run(cell, zero, rows.subrange(start, rows.len() as int)).1,
        run_packed(cell, zero, state, reset, rows).0 == recurrence::run(
            cell,
            zero,
            rows.subrange(start, rows.len() as int),
        ).0,
    decreases rows.len(),
{
    let n = rows.len() as int;
    let front = rows.drop_last();
    let tail = rows.subrange(start, n);
    let all = run_packed(cell, zero, state, reset, rows);
    let before = run_packed(cell, zero, state, reset, front);
    lemma_run_packed_len(cell, zero, state, reset, front);
    assert(tail.last() == rows.last());
    if start == n - 1 {
        reveal_with_fuel(recurrence::run, 2);
        assert(tail.drop_last() =~= Seq::<T>::empty());
        assert(all.1.subrange(start, n) =~= Seq::<T>::empty().push(all.1.last()));
    } else {
        lemma_run_from_reset(cell, zero, state, reset, front, start);
        assert(tail.drop_last() =~= front.subrange(start, n - 1));
        assert(!reset[n - 1]);
        assert(all.1.subrange(start, n) =~= before.1.subrange(start, n - 1).push(all.1.last()));
    }
}

/// A sequence that opens with its latents: they come first, in their own order.
proof fn lemma_starts_open<T>(
    marks: Seq<Marker>,
    rows: Seq<T>,
    len: usize,
    row_of: spec_fn(int) -> T,
)
    requires
        placement::all_start(marks),
        rows.len() == len,
        len >= 1,
    ensures
        splice::spliced_plan(rows, placement::whole(marks, len).plan(), row_of) == Seq::new(
            marks.len(),
            |k: int| row_of(k),
        ) + rows,
{
    let a = placement::whole(marks, len);
    let order = class::placement_order(marks, len as int);
    class::lemma_placement_order(marks, len as int);
    a.lemma_emitted();
    a.lemma_stop(a.emitted());
    assert forall|r: int| 0 <= r < marks.len() implies order[r] == r && #[trigger] a.at(r) == 0 by {
        lemma_starts_in_order(marks, len as int, r);
        assert(marks[order[r]] is Start);
    }
    assert(a.emitted() == 0) by {
        if a.emitted() > 0 {
            assert(class::tokens_before(marks, len as int, 0) + 0 < a.offset);
        }
    }
    if a.stop() < marks.len() {
        assert(a.at(a.stop()) == 0);
        assert(a.due(a.stop()));
    }
    let plan = a.plan();
    let ats = splice::plan_ats(plan);
    let cols = splice::plan_cols(plan, row_of);
    assert(plan.len() == marks.len());
    assert forall|j: int| 0 <= j < plan.len() implies #[trigger] plan[j] == (0int, j) by {
        assert(a.at(j) == 0);
    }
    assert(cols =~= Seq::new(marks.len(), |k: int| row_of(k)));
    lemma_spliced_at_front(rows, ats, cols);
}

/// The placement order of `Start` markers is their own.
proof fn lemma_starts_in_order(marks: Seq<Marker>, len: int, r: int)
    requires
        placement::all_start(marks),
        0 <= len,
        0 <= r < marks.len(),
    ensures
        class::placement_order(marks, len)[r] == r,
{
    lemma_starts_at_least(marks, len, r);
    lemma_starts_at_most(marks, len, r);
}

proof fn lemma_starts_ascend(marks: Seq<Marker>, len: int, r: int)
    requires
        placement::all_start(marks),
        0 <= len,
        0 <= r,
        r + 1 < marks.len(),
    ensures
        class::placement_order(marks, len)[r] < class::placement_order(marks, len)[r + 1],
{
    let order = class::placement_order(marks, len);
    class::lemma_placement_order(marks, len);
    assert(order::index_lt(
        class::placement_keys(marks, len),
        order[r],
        order[r + 1],
    ));
    assert(marks[order[r]] is Start && marks[order[r + 1]] is Start);
}

proof fn lemma_starts_at_least(marks: Seq<Marker>, len: int, r: int)
    requires
        placement::all_start(marks),
        0 <= len,
        0 <= r < marks.len(),
    ensures
        r <= class::placement_order(marks, len)[r],
    decreases r,
{
    class::lemma_placement_order(marks, len);
    if r > 0 {
        lemma_starts_at_least(marks, len, r - 1);
        lemma_starts_ascend(marks, len, r - 1);
    }
}

proof fn lemma_starts_at_most(marks: Seq<Marker>, len: int, r: int)
    requires
        placement::all_start(marks),
        0 <= len,
        0 <= r < marks.len(),
    ensures
        class::placement_order(marks, len)[r] <= r,
    decreases marks.len() - r,
{
    class::lemma_placement_order(marks, len);
    if r + 1 < marks.len() {
        lemma_starts_at_most(marks, len, r + 1);
        lemma_starts_ascend(marks, len, r);
    }
}

proof fn lemma_spliced_at_front<T>(rows: Seq<T>, ats: Seq<int>, cols: Seq<T>)
    requires
        cols.len() == ats.len(),
        forall|j: int| 0 <= j < ats.len() ==> #[trigger] ats[j] == 0,
    ensures
        splice::spliced(rows, ats, cols) == cols + rows,
    decreases ats.len(),
{
    if ats.len() == 0 {
        assert(cols + rows =~= rows);
    } else {
        assert(ats.last() == ats[ats.len() - 1]);
        assert forall|j: int| 0 <= j < ats.len() - 1 implies #[trigger] ats.drop_last()[j] == 0 by {
            assert(ats[j] == 0);
        }
        lemma_spliced_at_front(rows.take(0), ats.drop_last(), cols.drop_last());
        assert(splice::spliced(rows, ats, cols) =~= cols + rows);
    }
}

/// The rows of sequence `i` of a slot are its latents, then its own rows, and
/// only its first one is a reset.
proof fn lemma_sequence_rows<T>(
    rows: Seq<T>,
    reset: Seq<bool>,
    latent: Seq<Option<usize>>,
    starts: Seq<usize>,
    lead: int,
    row_of: spec_fn(int) -> T,
    i: int,
)
    requires
        rows.len() <= usize::MAX,
        0 <= lead,
        packing::starts_fit(starts, lead, rows.len() as int),
        packing::lays_out(reset, latent, starts, lead, rows.len() as int),
        0 <= i < starts.len(),
    ensures
        ({
            let start = starts[i] as int;
            let end = sequence_end(starts, rows.len() as int, i);
            &&& 0 <= start
            &&& start + packing::opening(lead) <= end <= rows.len()
            &&& reset[start]
            &&& forall|x: int| start < x < end ==> !#[trigger] reset[x]
            &&& placed(rows, latent, row_of).subrange(start, end) == Seq::new(
                lead as nat,
                |k: int| row_of(k),
            ) + rows.subrange(start + lead, end)
        }),
{
    let n = rows.len() as int;
    let start = starts[i] as int;
    let end = sequence_end(starts, n, i);
    let at = placed(rows, latent, row_of);
    assert(starts[i] + packing::opening(lead) <= n);
    if i + 1 < starts.len() {
        assert(starts[i] + packing::opening(lead) <= starts[i + 1]);
        assert(starts[i + 1] + packing::opening(lead) <= n);
    }
    assert forall|j: int, k: int|
        0 <= j < starts.len() && 0 <= k < packing::opening(lead) && start <= (
        #[trigger] starts[j]) + k < end && #[trigger] at_opening(k) implies j == i by {
        if j < i {
            assert(starts[j] + packing::opening(lead) <= starts[i]);
        } else if j > i {
            if j > i + 1 {
                assert(starts[i + 1] + packing::opening(lead) <= starts[j]);
            }
        }
    }
    assert(reset[start]) by {
        assert(starts[i] == start);
    }
    assert forall|x: int| start < x < end implies !#[trigger] reset[x] by {
        if reset[x] {
            let j = choose|j: int| 0 <= j < starts.len() && #[trigger] starts[j] == x;
            assert(at_opening(0));
            assert(starts[j] + 0 == x);
        }
    }
    assert forall|x: int| start <= x < end implies #[trigger] at[x] == (if x < start + lead {
        row_of(x - start)
    } else {
        rows[x]
    }) by {
        if x < start + lead {
            packing::sequences_open_with_their_slots(
                reset,
                latent,
                starts,
                lead,
                n,
                i,
                x - start,
            );
        } else if let Some(k) = latent[x] {
            let j = choose|j: int| 0 <= j < starts.len() && (#[trigger] starts[j]) + k == x;
            assert(at_opening(k as int));
            assert(starts[j] + k == x);
        }
    }
    assert(at.subrange(start, end) =~= Seq::new(lead as nat, |k: int| row_of(k))
        + rows.subrange(start + lead, end));
}

/// Names an offset from the start of a sequence.
spec fn at_opening(k: int) -> bool {
    true
}

/// Every sequence of a packed slot that has rows of its own puts out, at every
/// level, what it puts out alone: the latents of the stack open it, its rows follow, and every level
/// starts from its zero cache. Where the sequence is the last of its slot, the
/// caches are those that it leaves alone.
#[verifier::rlimit(50)]
pub proof fn packed_run_is_each_sequence_alone<S, T>(
    machine: Machine<S, T>,
    levels: Seq<Seq<Marker>>,
    zeros: Seq<S>,
    states: Seq<S>,
    rows: Seq<T>,
    reset: Seq<bool>,
    latent: Seq<Option<usize>>,
    starts: Seq<usize>,
    i: int,
    j: int,
)
    requires
        levels.len() >= 1,
        placement::all_start(levels[0]),
        forall|l: int| 1 <= l < levels.len() ==> (#[trigger] levels[l]).len() == 0,
        rows.len() <= usize::MAX,
        packing::starts_fit(starts, levels[0].len() as int, rows.len() as int),
        packing::lays_out(reset, latent, starts, levels[0].len() as int, rows.len() as int),
        0 <= i < starts.len(),
        starts[i] + levels[0].len() < sequence_end(starts, rows.len() as int, i),
        0 <= j < levels.len(),
    ensures
        ({
            let lead = levels[0].len();
            let start = starts[i] as int;
            let end = sequence_end(starts, rows.len() as int, i);
            let own = rows.subrange(start + lead, end);
            let solo = stack::whole(levels, own.len() as usize);
            let packed = placed(rows, latent, (machine.row_of)(0));
            let received = received_packed(machine, zeros, states, reset, packed, j);
            let ran = run_packed((machine.cells)(j), zeros[j], states[j], reset, received);
            &&& received.len() == rows.len()
            &&& received.subrange(start, end) == machine.received(solo, own, zeros, j)
            &&& ran.1.subrange(start, end) == machine.entering(solo, own, zeros, j + 1)
            &&& i + 1 == starts.len() ==> ran.0 == machine.caches(solo, own, zeros)[j]
        }),
    decreases j,
{
    let lead = levels[0].len() as int;
    let n = rows.len() as int;
    let start = starts[i] as int;
    let end = sequence_end(starts, n, i);
    let own = rows.subrange(start + lead, end);
    let solo = stack::whole(levels, own.len() as usize);
    let packed = placed(rows, latent, (machine.row_of)(0));
    let received = received_packed(machine, zeros, states, reset, packed, j);
    lemma_sequence_rows(rows, reset, latent, starts, lead, (machine.row_of)(0), i);
    if j == 0 {
        lemma_starts_open(levels[0], own, own.len() as usize, (machine.row_of)(0));
        assert(solo.call(0) == placement::whole(levels[0], own.len() as usize));
    } else {
        packed_run_is_each_sequence_alone(
            machine,
            levels,
            zeros,
            states,
            rows,
            reset,
            latent,
            starts,
            i,
            j - 1,
        );
        lemma_run_packed_len(
            (machine.cells)(j - 1),
            zeros[j - 1],
            states[j - 1],
            reset,
            received_packed(machine, zeros, states, reset, packed, j - 1),
        );
        assert(solo.call(j).marks.len() == 0);
        assert(solo.call(j).plan() =~= Seq::<(int, int)>::empty()) by {
            order::lemma_count_bound(0, solo.call(j).behind());
        }
        assert(machine.received(solo, own, zeros, j) =~= machine.entering(solo, own, zeros, j));
    }
    let cell = (machine.cells)(j);
    let before = received.take(end);
    lemma_run_packed_len(cell, zeros[j], states[j], reset, received);
    lemma_run_packed_prefix(cell, zeros[j], states[j], reset, received, end);
    lemma_run_from_reset(cell, zeros[j], states[j], reset, before, start);
    assert(before.subrange(start, end) =~= received.subrange(start, end));
    let ran = run_packed(cell, zeros[j], states[j], reset, received);
    assert(ran.1.take(end).subrange(start, end) =~= ran.1.subrange(start, end));
    if i + 1 == starts.len() {
        assert(before =~= received);
    }
}

} // verus!
