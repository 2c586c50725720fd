//! One call through the class-marker levels of a container: what each level
//! receives, what it emits, and what every way of splitting a sequence into
//! calls keeps.
//!
//! The levels nest. The markers that one level emits are part of the sequence
//! that the next level sees, and make the length it measures against longer.
use crate::utils::class;
use crate::utils::class::laws as placement;
use crate::utils::class::splice;
use crate::utils::class::{Marker, Placement};
use crate::utils::order;
use crate::utils::padding;
use crate::utils::padding::chunks;
use crate::utils::padding::laws as slots;
use crate::utils::padding::Padding;
use vstd::prelude::*;

verus! {

/// One call through the levels of a container.
pub struct StackCall {
    /// The markers of each level, from the input up.
    pub levels: Seq<Seq<Marker>>,
    /// The announced length of the whole sequence that enters the first level.
    pub full_len: Option<usize>,
    /// The output position that each level has reached.
    pub offsets: Seq<int>,
    /// The rows that enter the first level.
    pub rows: int,
    /// Whether the call carries no token of its own, and one more is to come.
    pub prime: bool,
}

impl StackCall {
    /// The announced length of the sequence that enters level `j`.
    pub open spec fn full_at(self, j: int) -> Option<usize>
        decreases j,
    {
        if j <= 0 {
            self.full_len
        } else {
            class::machine_len(class::grown(self.levels[j - 1], self.full_at(j - 1)))
        }
    }

    /// The rows that enter level `j`.
    pub open spec fn rows_at(self, j: int) -> int
        decreases j,
    {
        if j <= 0 {
            self.rows
        } else {
            self.rows_at(j - 1) + Placement {
                marks: self.levels[j - 1],
                full_len: self.full_at(j - 1),
                offset: self.offsets[j - 1],
                chunk: self.rows_at(j - 1),
                prime: self.prime,
            }.plan().len()
        }
    }

    /// The placement at level `j`.
    pub open spec fn call(self, j: int) -> Placement {
        Placement {
            marks: self.levels[j],
            full_len: self.full_at(j),
            offset: self.offsets[j],
            chunk: self.rows_at(j),
            prime: self.prime,
        }
    }

    /// Whether level `j` can be placed, and the length that it hands up fits
    /// the machine integers.
    pub open spec fn level_fits(self, j: int) -> bool {
        self.call(j).fits() && class::len_fits(class::grown(self.levels[j], self.full_at(j)))
    }

    /// Whether every level below `n` can be placed.
    pub open spec fn fits_below(self, n: int) -> bool {
        forall|j: int| 0 <= j < n ==> #[trigger] self.level_fits(j)
    }

    /// Whether the call can be placed at every level.
    pub open spec fn fits(self) -> bool {
        &&& self.offsets.len() == self.levels.len()
        &&& self.fits_below(self.levels.len() as int)
    }

    /// The output position that each level reaches.
    pub open spec fn next_offsets(self) -> Seq<int> {
        Seq::new(self.levels.len(), |j: int| self.call(j).next_offset())
    }

    /// The rows that leave the last level.
    pub open spec fn rows_out(self) -> int {
        self.rows_at(self.levels.len() as int)
    }

    /// The rows that enter level `j`, when `input` enters the first one and
    /// marker `m` of level `l` is the row `row_of(l)(m)`.
    pub open spec fn sequence<T>(
        self,
        input: Seq<T>,
        row_of: spec_fn(int) -> spec_fn(int) -> T,
        j: int,
    ) -> Seq<T>
        decreases j,
    {
        if j <= 0 {
            input
        } else {
            splice::spliced_plan(
                self.sequence(input, row_of, j - 1),
                self.call(j - 1).plan(),
                row_of(j - 1),
            )
        }
    }

    /// The rows that leave the last level.
    pub open spec fn output<T>(
        self,
        input: Seq<T>,
        row_of: spec_fn(int) -> spec_fn(int) -> T,
    ) -> Seq<T> {
        self.sequence(input, row_of, self.levels.len() as int)
    }

    /// Whether a padded batch can follow the splices: a `Middle` is placed only
    /// where a level receives its whole sequence in this call.
    pub open spec fn pads(self) -> bool {
        forall|j: int| 0 <= j < self.levels.len() ==> middles_fit(#[trigger] self.call(j))
    }

    /// Whether the cursors stand somewhere in a sequence.
    pub open spec fn stands(self) -> bool {
        &&& 0 <= self.rows
        &&& self.offsets.len() == self.levels.len()
        &&& forall|j: int| 0 <= j < self.offsets.len() ==> 0 <= #[trigger] self.offsets[j]
    }
}

/// Whether a call covers the whole sequence of its level.
pub open spec fn covers_whole(call: Placement) -> bool {
    call.offset == 0 && (call.full_len matches Some(len) && len == call.chunk)
}

/// Whether a padded batch can follow a splice: a `Middle` needs the whole
/// sequence in one call.
pub open spec fn middles_fit(call: Placement) -> bool {
    covers_whole(call) || forall|i: int|
        0 <= i < call.plan().len() ==> !(call.marks[(#[trigger] call.plan()[i]).1] is Middle)
}

/// The call that follows `a`, with `rows` more rows.
pub open spec fn after(a: StackCall, rows: int, prime: bool) -> StackCall {
    StackCall { offsets: a.next_offsets(), rows, prime, ..a }
}

/// The call that makes `a` and the `rows` rows after it in one.
pub open spec fn joined(a: StackCall, rows: int) -> StackCall {
    StackCall { rows: a.rows + rows, prime: false, ..a }
}

/// The announced lengths depend on the levels alone.
pub proof fn lemma_full_at_agrees(a: StackCall, b: StackCall, j: int)
    requires
        a.levels == b.levels,
        a.full_len == b.full_len,
    ensures
        a.full_at(j) == b.full_at(j),
    decreases j,
{
    if j > 0 {
        lemma_full_at_agrees(a, b, j - 1);
    }
}

/// A level hands up at least what it received.
pub proof fn levels_hand_up_what_they_receive(a: StackCall, j: int)
    requires
        a.stands(),
        0 <= j <= a.levels.len(),
    ensures
        a.rows_at(j) >= a.rows,
    decreases j,
{
    if j > 0 {
        levels_hand_up_what_they_receive(a, j - 1);
    }
}

/// As many rows enter each level as its sequence has.
pub proof fn lemma_sequence_len<T>(
    a: StackCall,
    input: Seq<T>,
    row_of: spec_fn(int) -> spec_fn(int) -> T,
    j: int,
)
    requires
        a.stands(),
        input.len() == a.rows,
        0 <= j <= a.levels.len(),
    ensures
        a.sequence(input, row_of, j).len() == a.rows_at(j),
        0 <= a.rows_at(j),
    decreases j,
{
    if j > 0 {
        lemma_sequence_len(a, input, row_of, j - 1);
        let call = a.call(j - 1);
        placement::plan_names_places(call);
        splice::lemma_spliced_len(
            a.sequence(input, row_of, j - 1),
            splice::plan_ats(call.plan()),
            splice::plan_cols(call.plan(), row_of(j - 1)),
        );
    }
}

/// A split leaves every level up to `j` unchanged.
pub proof fn split_is_the_same_at<T>(
    a: StackCall,
    input: Seq<T>,
    more: Seq<T>,
    row_of: spec_fn(int) -> spec_fn(int) -> T,
    j: int,
)
    requires
        a.stands(),
        input.len() == a.rows,
        a.prime ==> more.len() >= 1,
        0 <= j <= a.levels.len(),
    ensures
        ({
            let b = after(a, more.len() as int, false);
            let ab = joined(a, more.len() as int);
            &&& b.stands()
            &&& ab.rows_at(j) == a.rows_at(j) + b.rows_at(j)
            &&& ab.sequence(input + more, row_of, j) == a.sequence(input, row_of, j) + b.sequence(
                more,
                row_of,
                j,
            )
            &&& forall|l: int|
                0 <= l < j ==> #[trigger] ab.next_offsets()[l] == b.next_offsets()[l]
        }),
    decreases j,
{
    let b = after(a, more.len() as int, false);
    let ab = joined(a, more.len() as int);
    assert(b.stands()) by {
        assert forall|l: int| 0 <= l < b.offsets.len() implies 0 <= #[trigger] b.offsets[l] by {
            lemma_sequence_len(a, input, row_of, l);
        }
    }
    if j > 0 {
        let l = j - 1;
        split_is_the_same_at(a, input, more, row_of, l);
        lemma_full_at_agrees(a, b, l);
        lemma_full_at_agrees(a, ab, l);
        lemma_sequence_len(a, input, row_of, l);
        lemma_sequence_len(b, more, row_of, l);
        levels_hand_up_what_they_receive(b, l);
        let call = a.call(l);
        let rows = b.rows_at(l);
        assert(b.call(l) == placement::after(call, rows, false));
        assert(ab.call(l) == placement::joined(call, rows));
        placement::split_leaves_the_plan_unchanged(call, rows);
        placement::split_leaves_the_rows_unchanged(
            call,
            a.sequence(input, row_of, l),
            b.sequence(more, row_of, l),
            row_of(l),
        );
    }
}

/// A split of a sequence into calls at any point leaves every level unchanged:
/// the two calls emit, one after the other, what one call over both chunks
/// emits, and leave every cursor where it does. The first call may be a prime,
/// as long as the second carries a row.
pub proof fn split_leaves_the_stack_unchanged<T>(
    a: StackCall,
    input: Seq<T>,
    more: Seq<T>,
    row_of: spec_fn(int) -> spec_fn(int) -> T,
)
    requires
        a.stands(),
        input.len() == a.rows,
        a.prime ==> more.len() >= 1,
    ensures
        joined(a, more.len() as int).output(input + more, row_of) == a.output(input, row_of)
            + after(a, more.len() as int, false).output(more, row_of),
        joined(a, more.len() as int).next_offsets() == after(
            a,
            more.len() as int,
            false,
        ).next_offsets(),
{
    split_is_the_same_at(a, input, more, row_of, a.levels.len() as int);
    assert(joined(a, more.len() as int).next_offsets() =~= after(
        a,
        more.len() as int,
        false,
    ).next_offsets());
}

/// A prime followed by a step emits what that step alone would emit, in the
/// same order, and leaves the same cursors.
pub proof fn prime_then_step_is_the_step<T>(
    levels: Seq<Seq<Marker>>,
    full_len: Option<usize>,
    offsets: Seq<int>,
    token: T,
    row_of: spec_fn(int) -> spec_fn(int) -> T,
)
    requires
        (StackCall { levels, full_len, offsets, rows: 0, prime: true }).stands(),
    ensures
        ({
            let prime = StackCall { levels, full_len, offsets, rows: 0, prime: true };
            let step = StackCall { levels, full_len, offsets, rows: 1, prime: false };
            let next = after(prime, 1, false);
            &&& prime.output(Seq::empty(), row_of) + next.output(seq![token], row_of)
                == step.output(seq![token], row_of)
            &&& next.next_offsets() == step.next_offsets()
        }),
{
    let prime = StackCall { levels, full_len, offsets, rows: 0, prime: true };
    let none = Seq::<T>::empty();
    split_leaves_the_stack_unchanged(prime, none, seq![token], row_of);
    assert(none + seq![token] =~= seq![token]);
}

impl StackCall {
    /// Whether level `j` has consumed what the level below it has put out, and
    /// everything that it has emitted lands in the announced sequence, as long as
    /// the level is not past the end of that.
    pub open spec fn in_step(self, j: int) -> bool {
        &&& j > 0 ==> self.call(j).before() == self.offsets[j - 1]
        &&& (self.full_at(j) matches Some(len) && self.call(j).before() <= len)
            ==> placement::emitted_lands(self.call(j))
    }

    /// Whether the cursors are those of one stream: every level is in step with
    /// the one below it.
    pub open spec fn streams(self) -> bool {
        forall|j: int| 0 <= j < self.levels.len() ==> #[trigger] self.in_step(j)
    }
}

/// The cursors of a new sequence are those of one stream.
pub proof fn a_new_sequence_streams(a: StackCall)
    requires
        a.offsets.len() == a.levels.len(),
        forall|j: int| 0 <= j < a.offsets.len() ==> #[trigger] a.offsets[j] == 0,
    ensures
        a.streams(),
{
    assert forall|j: int| 0 <= j < a.levels.len() implies #[trigger] a.in_step(j) by {
        assert(a.offsets[j] == 0);
        a.call(j).lemma_emitted();
        if j > 0 {
            assert(a.offsets[j - 1] == 0);
        }
    }
}

/// A level consumes what the level below it puts out, and no more than that
/// level announces. While a row is to come at the first level, one is to come at
/// every level.
proof fn lemma_levels_stay_within(a: StackCall, j: int)
    requires
        a.fits_below(j),
        a.offsets.len() == a.levels.len(),
        a.streams(),
        0 <= a.rows,
        0 <= j < a.levels.len(),
        a.full_len matches Some(len) && a.call(0).consumed() <= len,
    ensures
        a.full_at(j) matches Some(len) && a.call(j).consumed() <= len,
        0 <= a.rows_at(j),
        j > 0 ==> a.call(j).consumed() == a.call(j - 1).next_offset(),
        a.call(0).consumed() < a.full_len->Some_0 ==> a.call(j).consumed() < a.full_at(j)->Some_0,
    decreases j,
{
    if j > 0 {
        lemma_levels_stay_within(a, j - 1);
        assert(a.level_fits(j - 1));
        assert(a.in_step(j));
        assert(a.in_step(j - 1));
        placement::lemma_stays_within(a.call(j - 1));
        placement::plan_names_places(a.call(j - 1));
    }
}

/// In a prime, a level that receives a row from the levels below has a row of its
/// own sequence to come, also where the stream is past its announced end.
proof fn lemma_primed_levels(a: StackCall, j: int)
    requires
        a.prime,
        a.rows == 0,
        a.fits_below(j),
        a.offsets.len() == a.levels.len(),
        a.streams(),
        a.full_len is Some,
        0 <= j < a.levels.len(),
    ensures
        a.full_at(j) is Some,
        0 <= a.rows_at(j),
        a.rows_at(j) == 0 || a.call(j).consumed() < a.full_at(j)->Some_0,
    decreases j,
{
    if j > 0 {
        let below = a.call(j - 1);
        lemma_primed_levels(a, j - 1);
        assert(a.level_fits(j - 1));
        assert(a.in_step(j));
        assert(a.in_step(j - 1));
        placement::plan_names_places(below);
        if below.chunk == 0 && below.plan().len() > 0 {
            placement::lemma_primed_leaves_a_token(below);
        }
        if a.rows_at(j) > 0 {
            placement::lemma_stays_within(below);
        }
    }
}

/// A call keeps its cursors those of one stream, also past the announced end.
pub proof fn a_call_keeps_the_stream(a: StackCall, rows: int, prime: bool)
    requires
        a.fits(),
        a.streams(),
        0 <= a.rows,
    ensures
        after(a, rows, prime).streams(),
        a.levels.len() > 0 ==> after(a, rows, prime).call(0).before() == a.call(0).consumed(),
{
    let b = after(a, rows, prime);
    assert(a.stands()) by {
        assert forall|j: int| 0 <= j < a.offsets.len() implies 0 <= #[trigger] a.offsets[j] by {
            assert(a.level_fits(j));
        }
    }
    assert forall|j: int| 0 <= j < a.levels.len() implies #[trigger] b.in_step(j)
        && b.call(j).before() == a.call(j).consumed() by {
        assert(a.level_fits(j));
        assert(a.in_step(j));
        lemma_full_at_agrees(a, b, j);
        placement::lemma_resumes(a.call(j), b.call(j));
        if a.full_at(j) is Some && a.call(j).consumed() <= a.full_at(j)->Some_0 {
            placement::lemma_stays_within(a.call(j));
        }
    }
    if a.levels.len() > 0 {
        assert(b.in_step(0));
    }
}

/// An `End` goes with the last row of the sequence: as long as one is to come, a
/// call emits none, at any level.
pub proof fn no_end_before_the_last_row(a: StackCall, j: int, i: int)
    requires
        a.fits(),
        a.streams(),
        0 <= a.rows,
        a.full_len matches Some(len) ==> a.call(0).consumed() < len,
        0 <= j < a.levels.len(),
        0 <= i < a.call(j).plan().len(),
    ensures
        !(a.levels[j][a.call(j).plan()[i].1] is End),
{
    assert(a.level_fits(j));
    match a.full_len {
        Some(_) => {
            lemma_levels_stay_within(a, j);
            placement::end_waits_for_the_last_token(a.call(j), i);
        },
        None => {
            lemma_open_ended(a, j);
            placement::plan_names_markers(a.call(j));
            assert(!a.levels[j][a.call(j).plan()[i].1].is_relative());
        },
    }
}

/// A prime never emits an `End`, at any level of the stack: the `End` belongs to
/// the call that carries the last row.
pub proof fn no_end_is_ever_primed(a: StackCall, j: int, i: int)
    requires
        a.prime,
        a.rows == 0,
        a.fits(),
        a.streams(),
        0 <= j < a.levels.len(),
        0 <= i < a.call(j).plan().len(),
    ensures
        !(a.levels[j][a.call(j).plan()[i].1] is End),
{
    assert(a.level_fits(j));
    match a.full_len {
        Some(_) => {
            lemma_primed_levels(a, j);
            if a.rows_at(j) == 0 {
                placement::lemma_primed_leaves_a_token(a.call(j));
            }
            placement::end_is_never_primed(a.call(j), i);
        },
        None => {
            no_end_before_the_last_row(a, j, i);
        },
    }
}

/// A stream without an announced length has none at any level.
proof fn lemma_open_ended(a: StackCall, j: int)
    requires
        a.full_len is None,
    ensures
        a.full_at(j) is None,
    decreases j,
{
    if j > 0 {
        lemma_open_ended(a, j - 1);
    }
}

/// The cursors after `n` steps of one row each.
pub open spec fn stepped(a: StackCall, n: int) -> StackCall
    decreases n,
{
    if n <= 0 {
        StackCall { rows: 1, prime: false, ..a }
    } else {
        after(stepped(a, n - 1), 1, false)
    }
}

/// What `n` steps of one row each emit, one after another.
pub open spec fn step_outputs<T>(
    a: StackCall,
    input: Seq<T>,
    row_of: spec_fn(int) -> spec_fn(int) -> T,
    n: int,
) -> Seq<T>
    decreases n,
{
    if n <= 0 {
        Seq::empty()
    } else {
        step_outputs(a, input, row_of, n - 1) + stepped(a, n - 1).output(
            seq![input[n - 1]],
            row_of,
        )
    }
}

/// A call over a chunk emits what the steps over its rows emit, one after
/// another, and leaves the same cursors: `forward` is `step` unrolled.
pub proof fn forward_is_step_unrolled<T>(
    a: StackCall,
    input: Seq<T>,
    row_of: spec_fn(int) -> spec_fn(int) -> T,
)
    requires
        a.stands(),
        !a.prime,
        a.rows == input.len(),
        a.rows >= 1,
    ensures
        a.output(input, row_of) == step_outputs(a, input, row_of, a.rows),
        a.next_offsets() == stepped(a, a.rows).offsets,
        stepped(a, a.rows).stands(),
    decreases a.rows,
{
    let n = a.rows;
    if n == 1 {
        assert(seq![input[0]] =~= input);
        reveal_with_fuel(step_outputs, 2);
        reveal_with_fuel(stepped, 2);
        assert(stepped(a, 0) == a);
        assert(Seq::<T>::empty() + a.output(input, row_of) =~= a.output(input, row_of));
        assert(stepped(a, 1).stands()) by {
            assert forall|l: int| 0 <= l < a.levels.len() implies 0 <= #[trigger] stepped(
                a,
                1,
            ).offsets[l] by {
                lemma_sequence_len(a, input, row_of, l);
            }
        }
    } else {
        let front = StackCall { rows: n - 1, ..a };
        let first = input.drop_last();
        let last = seq![input[n - 1]];
        forward_is_step_unrolled(front, first, row_of);
        split_leaves_the_stack_unchanged(front, first, last, row_of);
        assert(first + last =~= input);
        assert(joined(front, 1) == a);
        lemma_stepped_agrees(front, a, n - 1);
        lemma_step_outputs_agree(front, a, first, input, row_of, n - 1);
        assert(after(front, 1, false) == stepped(a, n - 1));
        assert(stepped(a, n).stands()) by {
            let s = stepped(a, n - 1);
            assert forall|l: int| 0 <= l < a.levels.len() implies 0 <= #[trigger] stepped(
                a,
                n,
            ).offsets[l] by {
                lemma_sequence_len(s, last, row_of, l);
            }
        }
    }
}

/// The steps of a chunk follow its cursors alone.
pub proof fn lemma_stepped_agrees(a: StackCall, b: StackCall, n: int)
    requires
        a.levels == b.levels,
        a.full_len == b.full_len,
        a.offsets == b.offsets,
    ensures
        stepped(a, n) == stepped(b, n),
        stepped(a, n).levels == a.levels,
        stepped(a, n).full_len == a.full_len,
        stepped(a, n).rows == 1,
        !stepped(a, n).prime,
    decreases n,
{
    if n > 0 {
        lemma_stepped_agrees(a, b, n - 1);
    }
}

proof fn lemma_step_outputs_agree<T>(
    a: StackCall,
    b: StackCall,
    input: Seq<T>,
    more: Seq<T>,
    row_of: spec_fn(int) -> spec_fn(int) -> T,
    n: int,
)
    requires
        a.levels == b.levels,
        a.full_len == b.full_len,
        a.offsets == b.offsets,
        forall|i: int| 0 <= i < n ==> #[trigger] input[i] == more[i],
    ensures
        step_outputs(a, input, row_of, n) == step_outputs(b, more, row_of, n),
    decreases n,
{
    if n > 0 {
        lemma_step_outputs_agree(a, b, input, more, row_of, n - 1);
        lemma_stepped_agrees(a, b, n - 1);
        assert(input[n - 1] == more[n - 1]);
    }
}

/// No step of a chunk moves a cursor back, and none passes what the chunk
/// reaches.
proof fn lemma_steps_ascend(a: StackCall, r: int, n: int, j: int)
    requires
        stepped(a, 0).stands(),
        0 <= r <= n,
        0 <= j < a.levels.len(),
    ensures
        stepped(a, n).stands(),
        0 <= stepped(a, r).offsets[j] <= stepped(a, n).offsets[j],
        stepped(a, n).levels == a.levels,
        stepped(a, n).full_len == a.full_len,
    decreases n,
{
    lemma_stepped_agrees(a, a, n);
    if n > 0 {
        let s = stepped(a, n - 1);
        if r < n {
            lemma_steps_ascend(a, r, n - 1, j);
        } else {
            lemma_steps_ascend(a, r - 1, n - 1, j);
        }
        lemma_stepped_agrees(a, a, n - 1);
        assert forall|l: int| 0 <= l < a.levels.len() implies s.offsets[l] <= #[trigger] stepped(
            a,
            n,
        ).offsets[l] by {
            levels_hand_up_what_they_receive(s, l);
            placement::plan_names_places(s.call(l));
            assert(0 <= s.offsets[l]);
        }
        assert(stepped(a, n).stands()) by {
            assert forall|l: int| 0 <= l < a.levels.len() implies 0 <= #[trigger] stepped(
                a,
                n,
            ).offsets[l] by {
                assert(0 <= s.offsets[l]);
                assert(s.offsets[l] <= stepped(a, n).offsets[l]);
            }
        }
        assert(s.offsets[j] <= stepped(a, n).offsets[j]);
    }
}

/// Where a chunk can be placed, so can every step over its rows.
pub proof fn steps_fit_where_the_chunk_does(a: StackCall, r: int)
    requires
        a.fits(),
        !a.prime,
        0 <= r < a.rows,
    ensures
        stepped(a, r).fits(),
        stepped(a, r).levels == a.levels,
        stepped(a, r).full_len == a.full_len,
        a.stands(),
{
    let n = a.rows;
    assert(a.stands()) by {
        assert forall|j: int| 0 <= j < a.offsets.len() implies 0 <= #[trigger] a.offsets[j] by {
            assert(a.level_fits(j));
        }
    }
    let input = Seq::new(n as nat, |i: int| i);
    let row_of = |l: int| |m: int| m;
    forward_is_step_unrolled(a, input, row_of);
    lemma_stepped_agrees(a, a, r);
    let s = stepped(a, r);
    assert forall|j: int| 0 <= j < s.levels.len() implies #[trigger] s.level_fits(j) by {
        assert(a.level_fits(j));
        lemma_steps_ascend(a, r, r, j);
        lemma_steps_ascend(a, r + 1, n, j);
        lemma_full_at_agrees(a, s, j);
        levels_hand_up_what_they_receive(s, j);
        assert(a.next_offsets()[j] == stepped(a, n).offsets[j]);
        assert(s.call(j).next_offset() == stepped(a, r + 1).offsets[j]);
        assert(0 <= s.offsets[j]);
    }
    assert(s.offsets.len() == s.levels.len()) by {
        if a.levels.len() > 0 {
            lemma_steps_ascend(a, r, r, 0);
        } else if r > 0 {
            assert(s.offsets == stepped(a, r - 1).next_offsets());
            lemma_stepped_agrees(a, a, r - 1);
        }
    }
}

/// The levels above the first, as a call of their own: what the first level
/// hands up enters them.
pub open spec fn above(c: StackCall) -> StackCall {
    StackCall {
        levels: c.levels.skip(1),
        full_len: c.full_at(1),
        offsets: c.offsets.skip(1),
        rows: c.rows_at(1),
        prime: c.prime,
    }
}

/// The row of a marker, counted from the level above the first.
pub open spec fn row_above<T>(row_of: spec_fn(int) -> spec_fn(int) -> T) -> spec_fn(
    int,
) -> spec_fn(int) -> T {
    |l: int| row_of(l + 1)
}

/// A call through all the levels is the first level, then the call through the
/// levels above it.
pub proof fn lemma_above<T>(
    c: StackCall,
    input: Seq<T>,
    row_of: spec_fn(int) -> spec_fn(int) -> T,
    j: int,
)
    requires
        c.levels.len() >= 1,
        c.offsets.len() == c.levels.len(),
        0 <= j < c.levels.len(),
    ensures
        above(c).full_at(j) == c.full_at(j + 1),
        above(c).rows_at(j) == c.rows_at(j + 1),
        j + 1 < c.levels.len() ==> above(c).call(j) == c.call(j + 1),
        above(c).sequence(c.sequence(input, row_of, 1), row_above(row_of), j) == c.sequence(
            input,
            row_of,
            j + 1,
        ),
    decreases j,
{
    if j > 0 {
        lemma_above(c, input, row_of, j - 1);
        assert(above(c).levels[j - 1] == c.levels[j]);
        assert(above(c).offsets[j - 1] == c.offsets[j]);
        assert(above(c).call(j - 1) == c.call(j));
        assert(row_above(row_of)(j - 1) == row_of(j));
    }
    if j + 1 < c.levels.len() {
        assert(above(c).levels[j] == c.levels[j + 1]);
        assert(above(c).offsets[j] == c.offsets[j + 1]);
    }
}

/// A call can be placed, and its padding can follow, where the first level can
/// and the levels above it can.
pub proof fn lemma_above_fits(c: StackCall)
    requires
        c.levels.len() >= 1,
        c.offsets.len() == c.levels.len(),
    ensures
        c.fits() == (c.level_fits(0) && above(c).fits()),
        c.pads() == (middles_fit(c.call(0)) && above(c).pads()),
{
    let input = Seq::<int>::empty();
    let row_of = |l: int| |m: int| m;
    assert forall|j: int| 0 <= j < above(c).levels.len() implies #[trigger] above(c).level_fits(j)
        == c.level_fits(j + 1) && above(c).call(j) == c.call(j + 1) by {
        lemma_above(c, input, row_of, j);
        assert(above(c).levels[j] == c.levels[j + 1]);
    }
    if c.fits() {
        assert(c.level_fits(0));
        assert forall|j: int| 0 <= j < above(c).levels.len() implies #[trigger] above(
            c,
        ).level_fits(j) by {
            assert(c.level_fits(j + 1));
        }
    }
    if c.level_fits(0) && above(c).fits() {
        assert forall|j: int| 0 <= j < c.levels.len() implies #[trigger] c.level_fits(j) by {
            if j > 0 {
                assert(above(c).level_fits(j - 1));
            }
        }
    }
    if c.pads() {
        assert(middles_fit(c.call(0)));
        assert forall|j: int| 0 <= j < above(c).levels.len() implies middles_fit(
            #[trigger] above(c).call(j),
        ) by {
            assert(above(c).level_fits(j) == c.level_fits(j + 1));
            assert(middles_fit(c.call(j + 1)));
        }
    }
    if middles_fit(c.call(0)) && above(c).pads() {
        assert forall|j: int| 0 <= j < c.levels.len() implies middles_fit(#[trigger] c.call(j)) by {
            if j > 0 {
                assert(above(c).level_fits(j - 1) == c.level_fits(j));
                assert(middles_fit(above(c).call(j - 1)));
            }
        }
    }
}

/// A call over a whole sequence, from the start.
pub open spec fn whole(levels: Seq<Seq<Marker>>, rows: usize) -> StackCall {
    StackCall {
        levels,
        full_len: Some(rows),
        offsets: Seq::new(levels.len(), |j: int| 0int),
        rows: rows as int,
        prime: false,
    }
}

/// Whether no level of a whole call leaves a marker that lands waiting. Every
/// sequence with rows settles.
pub open spec fn settles(levels: Seq<Seq<Marker>>, rows: int) -> bool {
    rows > 0 || forall|l: int|
        0 <= l < levels.len() ==> placement::settles(
            #[trigger] levels[l],
            whole(levels, rows as usize).rows_at(l),
        )
}

/// A call over a whole sequence is a whole call at every level: the rows that
/// enter a level are the length it measures against, and every marker that
/// lands is emitted.
pub proof fn whole_call_is_whole_at_every_level(levels: Seq<Seq<Marker>>, rows: usize, j: int)
    requires
        settles(levels, rows as int),
        0 <= j <= levels.len(),
        whole(levels, rows).fits_below(j),
    ensures
        whole(levels, rows).full_at(j) matches Some(len) && len == whole(levels, rows).rows_at(j),
        whole(levels, rows).rows_at(j) >= rows,
        j < levels.len() ==> whole(levels, rows).call(j) == placement::whole(
            levels[j],
            whole(levels, rows).rows_at(j) as usize,
        ),
    decreases j,
{
    let a = whole(levels, rows);
    if j > 0 {
        whole_call_is_whole_at_every_level(levels, rows, j - 1);
        let len = a.rows_at(j - 1) as usize;
        assert(placement::settles(levels[j - 1], a.rows_at(j - 1)));
        placement::whole_call_emits_what_lands(levels[j - 1], len);
        assert(a.level_fits(j - 1));
        assert(a.call(j - 1) == placement::whole(levels[j - 1], len));
    }
}

/// Whether the paddings follow the splices of `call`, level by level.
pub open spec fn paddings_follow(call: StackCall, paddings: Seq<Padding>) -> bool {
    &&& paddings.len() == call.levels.len() + 1
    &&& forall|j: int| 0 <= j < paddings.len() ==> (#[trigger] paddings[j]).wf()
    &&& forall|j: int|
        0 <= j < call.levels.len() ==> (#[trigger] paddings[j]).splices_to(
            call.call(j).plan(),
            call.levels[j],
            paddings[j + 1],
        )
}

/// A padded batch of whole sequences is each slot alone, at every level: the
/// sequence of a slot that enters level `j` is the one that enters it when the
/// slot runs by itself.
pub proof fn padded_stack_is_each_slot_alone<T>(
    levels: Seq<Seq<Marker>>,
    rows: usize,
    paddings: Seq<Padding>,
    b: int,
    input: Seq<T>,
    row_of: spec_fn(int) -> spec_fn(int) -> T,
    j: int,
)
    requires
        whole(levels, rows).fits(),
        paddings_follow(whole(levels, rows), paddings),
        paddings[0].rows() == rows,
        input.len() == rows,
        0 <= b < paddings[0].batch(),
        padding::n_real(paddings[0].pad(b)) <= usize::MAX,
        settles(levels, padding::n_real(paddings[0].pad(b)) as int),
        whole(levels, padding::n_real(paddings[0].pad(b)) as usize).fits(),
        0 <= j <= levels.len(),
    ensures
        ({
            let batch = whole(levels, rows);
            let solo = whole(levels, padding::n_real(paddings[0].pad(b)) as usize);
            let alone = slots::slot_sequence(input, paddings[0].pad(b), paddings[0].local(b));
            &&& paddings[j].batch() == paddings[0].batch()
            &&& paddings[j].rows() == batch.rows_at(j)
            &&& padding::n_real(paddings[j].pad(b)) == solo.rows_at(j)
            &&& slots::slot_sequence(
                batch.sequence(input, row_of, j),
                paddings[j].pad(b),
                paddings[j].local(b),
            ) == solo.sequence(alone, row_of, j)
        }),
    decreases j,
{
    let batch = whole(levels, rows);
    let m = padding::n_real(paddings[0].pad(b)) as usize;
    let solo = whole(levels, m);
    let alone = slots::slot_sequence(input, paddings[0].pad(b), paddings[0].local(b));
    assert(paddings[0].wf());
    assert(padding::orders_slot(paddings[0].pad(b), paddings[0].local(b)));
    order::lemma_count_bound(
        paddings[0].pad(b).len(),
        padding::real_rows(paddings[0].pad(b)),
    );
    assert(paddings[0].pad_bs@[b]@.len() == paddings[0].rows());
    if j > 0 {
        let l = j - 1;
        padded_stack_is_each_slot_alone(levels, rows, paddings, b, input, row_of, l);
        whole_call_is_whole_at_every_level(levels, rows, l);
        whole_call_is_whole_at_every_level(levels, m, l);
        lemma_sequence_len(batch, input, row_of, l);
        lemma_sequence_len(solo, alone, row_of, l);
        assert(batch.level_fits(l));
        assert(solo.level_fits(l));
        let before = paddings[l];
        let next = paddings[l + 1];
        assert(before.wf() && next.wf());
        assert(before.splices_to(batch.call(l).plan(), levels[l], next));
        slots::padded_splice_is_each_slot_alone(
            before,
            next,
            levels[l],
            b,
            batch.sequence(input, row_of, l),
            row_of(l),
        );
        assert(next.wf());
        assert(padding::orders_slot(next.pad(b), next.local(b)));
        lemma_sequence_len(solo, alone, row_of, j);
        assert(slots::slot_sequence(
            batch.sequence(input, row_of, j),
            next.pad(b),
            next.local(b),
        ).len() == padding::n_real(next.pad(b)));
    }
}

/// The rows of the first `k` calls.
pub open spec fn rows_before(sizes: Seq<int>, k: int) -> int
    decreases k,
{
    if k <= 0 {
        0
    } else {
        rows_before(sizes, k - 1) + sizes[k - 1]
    }
}

/// The whole sequence that the calls make up.
pub open spec fn whole_of(levels: Seq<Seq<Marker>>, sizes: Seq<int>) -> StackCall {
    whole(levels, rows_before(sizes, sizes.len() as int) as usize)
}

/// Call `k` of those that make up a whole sequence, one after another from the
/// start. Each has its size in rows.
pub open spec fn nth_call(levels: Seq<Seq<Marker>>, sizes: Seq<int>, k: int) -> StackCall
    decreases k,
{
    if k <= 0 {
        StackCall { rows: sizes[0], ..whole_of(levels, sizes) }
    } else {
        after(nth_call(levels, sizes, k - 1), sizes[k], false)
    }
}

/// The first `k` calls, in one.
pub open spec fn calls_before(levels: Seq<Seq<Marker>>, sizes: Seq<int>, k: int) -> StackCall {
    StackCall { rows: rows_before(sizes, k), ..whole_of(levels, sizes) }
}

/// Whether the calls make up a sequence that fits.
pub open spec fn calls_fit(levels: Seq<Seq<Marker>>, sizes: Seq<int>) -> bool {
    &&& sizes.len() >= 2
    &&& forall|k: int| 0 <= k < sizes.len() ==> #[trigger] sizes[k] > 0
    &&& rows_before(sizes, sizes.len() as int) <= usize::MAX
    &&& whole_of(levels, sizes).fits()
}

proof fn lemma_rows_before(sizes: Seq<int>, k: int, n: int)
    requires
        0 <= k <= n <= sizes.len(),
        forall|k: int| 0 <= k < sizes.len() ==> #[trigger] sizes[k] > 0,
    ensures
        0 <= rows_before(sizes, k) <= rows_before(sizes, n),
        k < n ==> rows_before(sizes, k) < rows_before(sizes, n),
    decreases n,
{
    if k < n {
        lemma_rows_before(sizes, k, n - 1);
    } else if n > 0 {
        lemma_rows_before(sizes, k - 1, n - 1);
    }
}

/// Before the first call, nothing is emitted at any level.
proof fn lemma_no_calls(levels: Seq<Seq<Marker>>, sizes: Seq<int>, l: int)
    requires
        calls_fit(levels, sizes),
        0 <= l <= levels.len(),
    ensures
        calls_before(levels, sizes, 0).rows_at(l) == 0,
        l < levels.len() ==> calls_before(levels, sizes, 0).next_offsets()[l] == 0,
    decreases l,
{
    let none = calls_before(levels, sizes, 0);
    let all = whole_of(levels, sizes);
    let n = rows_before(sizes, sizes.len() as int) as usize;
    lemma_rows_before(sizes, 0, sizes.len() as int);
    if l > 0 {
        lemma_no_calls(levels, sizes, l - 1);
    }
    if l < levels.len() {
        lemma_full_at_agrees(none, all, l);
        whole_call_is_whole_at_every_level(levels, n, l);
        assert(all.level_fits(l));
        chunks::lemma_nothing_yet(levels[l], all.rows_at(l));
        assert(none.call(l) == chunks::so_far(levels[l], all.rows_at(l), 0));
    }
    if l > 0 {
        let j = l - 1;
        lemma_full_at_agrees(none, all, j);
        whole_call_is_whole_at_every_level(levels, n, j);
        assert(all.level_fits(j));
        chunks::lemma_nothing_yet(levels[j], all.rows_at(j));
        assert(none.call(j) == chunks::so_far(levels[j], all.rows_at(j), 0));
    }
}

/// A call resumes where one call over the rows before it would stop.
pub proof fn lemma_nth_call(levels: Seq<Seq<Marker>>, sizes: Seq<int>, k: int, l: int)
    requires
        calls_fit(levels, sizes),
        0 <= k < sizes.len(),
        0 <= l <= levels.len(),
    ensures
        ({
            let before = calls_before(levels, sizes, k);
            let call = nth_call(levels, sizes, k);
            let all = whole_of(levels, sizes);
            &&& call == after(before, sizes[k], false)
            &&& call.stands()
            &&& calls_before(levels, sizes, k + 1).rows_at(l) == before.rows_at(l) + call.rows_at(
                l,
            )
            &&& 0 <= before.rows_at(l)
            &&& call.rows_at(l) >= sizes[k]
            &&& before.rows_at(l) + call.rows_at(l) <= all.rows_at(l)
            &&& k + 1 < sizes.len() ==> before.rows_at(l) + call.rows_at(l) < all.rows_at(l)
            &&& k + 1 == sizes.len() ==> before.rows_at(l) + call.rows_at(l) == all.rows_at(l)
            &&& 0 < all.rows_at(l)
            &&& l < levels.len() ==> all.rows_at(l) <= usize::MAX
            &&& l < levels.len() ==> call.call(l) == placement::after(
                chunks::so_far(levels[l], all.rows_at(l), before.rows_at(l)),
                call.rows_at(l),
                false,
            )
        }),
    decreases k,
{
    let before = calls_before(levels, sizes, k);
    let call = nth_call(levels, sizes, k);
    let all = whole_of(levels, sizes);
    let n = rows_before(sizes, sizes.len() as int) as usize;
    let ids = Seq::new(before.rows as nat, |i: int| 0int);
    let more = Seq::new(sizes[k] as nat, |i: int| 0int);
    let row_of = |l: int| |m: int| 0int;
    lemma_rows_before(sizes, k, sizes.len() as int);
    lemma_rows_before(sizes, k + 1, sizes.len() as int);
    assert(sizes[k] > 0);
    if k == 0 {
        assert forall|j: int| 0 <= j < levels.len() implies #[trigger] before.next_offsets()[j]
            == all.offsets[j] by {
            lemma_no_calls(levels, sizes, j);
        }
        assert(before.next_offsets() =~= all.offsets);
    } else {
        let last = calls_before(levels, sizes, k - 1);
        let ids = Seq::new(last.rows as nat, |i: int| 0int);
        let more = Seq::new(sizes[k - 1] as nat, |i: int| 0int);
        lemma_nth_call(levels, sizes, k - 1, l);
        lemma_rows_before(sizes, k - 1, k);
        assert(sizes[k - 1] > 0);
        split_leaves_the_stack_unchanged(last, ids, more, row_of);
        assert(joined(last, sizes[k - 1]) == before);
    }
    assert(call == after(before, sizes[k], false));
    split_is_the_same_at(before, ids, more, row_of, l);
    assert(joined(before, sizes[k]) == calls_before(levels, sizes, k + 1));
    lemma_sequence_len(before, ids, row_of, l);
    levels_hand_up_what_they_receive(call, l);
    let upto = calls_before(levels, sizes, k + 1);
    let rest = Seq::new((n - upto.rows) as nat, |i: int| 0int);
    let first = Seq::new(upto.rows as nat, |i: int| 0int);
    split_is_the_same_at(upto, first, rest, row_of, l);
    assert(joined(upto, n - upto.rows) == all);
    levels_hand_up_what_they_receive(after(upto, n - upto.rows, false), l);
    levels_hand_up_what_they_receive(all, l);
    if k + 1 == sizes.len() {
        assert(upto == all);
    }
    if l < levels.len() {
        assert(all.level_fits(l));
        whole_call_is_whole_at_every_level(levels, n, l);
        lemma_full_at_agrees(before, all, l);
        lemma_full_at_agrees(call, all, l);
        placement::plan_names_places(all.call(l));
        assert(before.call(l) == chunks::so_far(levels[l], all.rows_at(l), before.rows_at(l)));
        assert(call.offsets[l] == before.call(l).next_offset());
    }
}

/// The paddings of all the calls at one level.
pub open spec fn at_level(paddings: Seq<Seq<Padding>>, l: int) -> Seq<Padding> {
    Seq::new(paddings.len(), |k: int| paddings[k][l])
}

/// The length of the sequence of slot `b`, over all the calls.
pub open spec fn chunked_len(paddings: Seq<Seq<Padding>>, b: int) -> int {
    chunks::slot_rows(at_level(paddings, 0), b, paddings.len() as int)
}

/// Whether the padding of a call is that of a batch, and follows its splices.
pub open spec fn pads_call(
    levels: Seq<Seq<Marker>>,
    sizes: Seq<int>,
    paddings: Seq<Seq<Padding>>,
    k: int,
) -> bool {
    &&& paddings_follow(nth_call(levels, sizes, k), paddings[k])
    &&& paddings[k][0].rows() == sizes[k]
    &&& paddings[k][0].batch() == paddings[0][0].batch()
}

/// Whether padded calls make up a whole sequence of slot `b`, right-padded over
/// all of them, and every marker sits where the slot alone would put it
/// ([`chunks::stays`]). A `Middle` never does. The others do, but for a slot that
/// ended before the last call, and that gets the `End` of a level below in it: a
/// `Custom` that would precede that `End`, and a `Start` of a slot without rows
/// of its own.
pub open spec fn chunked(
    levels: Seq<Seq<Marker>>,
    sizes: Seq<int>,
    paddings: Seq<Seq<Padding>>,
    b: int,
) -> bool {
    let last = sizes.len() - 1;
    &&& calls_fit(levels, sizes)
    &&& paddings.len() == sizes.len()
    &&& forall|k: int| 0 <= k < sizes.len() ==> #[trigger] pads_call(levels, sizes, paddings, k)
    &&& 0 <= b < paddings[0][0].batch()
    &&& chunks::fills(at_level(paddings, 0), b, sizes.len() as int)
    &&& settles(levels, chunked_len(paddings, b))
    &&& whole(levels, chunked_len(paddings, b) as usize).fits()
    &&& forall|l: int|
        0 <= l < levels.len() ==> chunks::stays(
            #[trigger] levels[l],
            calls_before(levels, sizes, last).rows_at(l),
            chunks::slot_rows(at_level(paddings, l), b, last),
            padding::n_real(paddings[last][l].pad(b)) as int,
        )
}

/// Whether the paddings at level `l` have the rows of the calls there, and slot
/// `b` has the rows that it has alone.
pub open spec fn aligned(
    levels: Seq<Seq<Marker>>,
    sizes: Seq<int>,
    paddings: Seq<Seq<Padding>>,
    b: int,
    l: int,
) -> bool {
    &&& forall|k: int|
        0 <= k < sizes.len() ==> (#[trigger] paddings[k])[l].rows() == nth_call(
            levels,
            sizes,
            k,
        ).rows_at(l) && paddings[k][l].batch() == paddings[0][0].batch()
    &&& chunks::fills(at_level(paddings, l), b, sizes.len() - 1)
    &&& chunks::slot_rows(at_level(paddings, l), b, sizes.len() as int) == whole(
        levels,
        chunked_len(paddings, b) as usize,
    ).rows_at(l)
}

/// The rows of every call, with the markers of level `l` spliced in.
pub open spec fn spliced_calls<T>(
    levels: Seq<Seq<Marker>>,
    sizes: Seq<int>,
    rows: Seq<Seq<T>>,
    row_of: spec_fn(int) -> T,
    l: int,
) -> Seq<Seq<T>> {
    Seq::new(
        sizes.len(),
        |k: int|
            splice::spliced_plan(rows[k], nth_call(levels, sizes, k).call(l).plan(), row_of),
    )
}

/// The rows of the batch before call `k`, counted in the paddings.
proof fn lemma_batch_rows(
    levels: Seq<Seq<Marker>>,
    sizes: Seq<int>,
    paddings: Seq<Seq<Padding>>,
    b: int,
    l: int,
    k: int,
)
    requires
        calls_fit(levels, sizes),
        paddings.len() == sizes.len(),
        aligned(levels, sizes, paddings, b, l),
        0 <= l <= levels.len(),
        0 <= k <= sizes.len(),
    ensures
        chunks::batch_rows(at_level(paddings, l), k) == calls_before(levels, sizes, k).rows_at(l),
    decreases k,
{
    if k == 0 {
        lemma_no_calls(levels, sizes, l);
    } else {
        lemma_batch_rows(levels, sizes, paddings, b, l, k - 1);
        lemma_nth_call(levels, sizes, k - 1, l);
        assert(paddings[k - 1][l].rows() == nth_call(levels, sizes, k - 1).rows_at(l));
    }
}

/// The slot has no more rows than the batch.
proof fn lemma_chunked_len(
    levels: Seq<Seq<Marker>>,
    sizes: Seq<int>,
    paddings: Seq<Seq<Padding>>,
    b: int,
    k: int,
)
    requires
        chunked(levels, sizes, paddings, b),
        0 <= k <= sizes.len(),
    ensures
        0 <= chunks::slot_rows(at_level(paddings, 0), b, k) <= rows_before(sizes, k),
    decreases k,
{
    if k > 0 {
        lemma_chunked_len(levels, sizes, paddings, b, k - 1);
        assert(pads_call(levels, sizes, paddings, k - 1));
        let p = paddings[k - 1][0];
        assert(p.wf());
        assert(p.pad_bs@[b]@.len() == p.rows());
        order::lemma_count_bound(p.pad(b).len(), padding::real_rows(p.pad(b)));
    }
}

/// The paddings that the calls are given have their rows.
pub proof fn lemma_aligned_below(
    levels: Seq<Seq<Marker>>,
    sizes: Seq<int>,
    paddings: Seq<Seq<Padding>>,
    b: int,
)
    requires
        chunked(levels, sizes, paddings, b),
    ensures
        aligned(levels, sizes, paddings, b, 0),
        0 <= chunked_len(paddings, b) <= usize::MAX,
{
    let n = sizes.len() as int;
    lemma_chunked_len(levels, sizes, paddings, b, n);
    assert forall|k: int| 0 <= k < n implies (#[trigger] paddings[k])[0].rows() == nth_call(
        levels,
        sizes,
        k,
    ).rows_at(0) && paddings[k][0].batch() == paddings[0][0].batch() by {
        assert(pads_call(levels, sizes, paddings, k));
        lemma_nth_call(levels, sizes, k, 0);
    }
    assert(chunks::fills(at_level(paddings, 0), b, n - 1));
}

/// One level of padded calls splices into each slot what the slot alone would
/// splice.
pub proof fn lemma_chunked_level<T>(
    levels: Seq<Seq<Marker>>,
    sizes: Seq<int>,
    paddings: Seq<Seq<Padding>>,
    b: int,
    rows: Seq<Seq<T>>,
    row_of: spec_fn(int) -> T,
    l: int,
)
    requires
        chunked(levels, sizes, paddings, b),
        aligned(levels, sizes, paddings, b, l),
        0 <= l < levels.len(),
        rows.len() == sizes.len(),
        forall|k: int|
            0 <= k < sizes.len() ==> (#[trigger] rows[k]).len() == nth_call(
                levels,
                sizes,
                k,
            ).rows_at(l),
    ensures
        chunks::joined_slot(
            spliced_calls(levels, sizes, rows, row_of, l),
            at_level(paddings, l + 1),
            b,
            sizes.len() as int,
        ) == splice::spliced_plan(
            chunks::joined_slot(rows, at_level(paddings, l), b, sizes.len() as int),
            whole(levels, chunked_len(paddings, b) as usize).call(l).plan(),
            row_of,
        ),
        aligned(levels, sizes, paddings, b, l + 1),
{
    let n = sizes.len() as int;
    let m = chunked_len(paddings, b) as usize;
    let solo = whole(levels, m);
    let all = whole_of(levels, sizes);
    let befores = at_level(paddings, l);
    let afters = at_level(paddings, l + 1);
    let out = spliced_calls(levels, sizes, rows, row_of, l);
    lemma_aligned_below(levels, sizes, paddings, b);
    whole_call_is_whole_at_every_level(levels, m, l);
    assert(solo.level_fits(l));
    lemma_batch_rows(levels, sizes, paddings, b, l, n);
    lemma_rows_before(sizes, 0, n);
    assert(calls_before(levels, sizes, n) == all);
    assert forall|k: int| 0 <= k < n implies #[trigger] chunks::chunk_splices(
        levels[l],
        all.rows_at(l),
        befores,
        afters,
        b,
        k,
    ) by {
        lemma_chunk_splices(levels, sizes, paddings, b, l, k);
    }
    lemma_nth_call(levels, sizes, n - 1, l);
    lemma_batch_rows(levels, sizes, paddings, b, l, n - 1);
    assert forall|k: int| 0 <= k < n implies (#[trigger] rows[k]).len() == befores[k].rows() by {
        assert(paddings[k][l].rows() == nth_call(levels, sizes, k).rows_at(l));
    }
    assert(placement::settles(levels[l], solo.rows_at(l)));
    chunks::chunked_padding_is_each_slot_alone(levels[l], befores, afters, b, rows, row_of);
    assert(chunks::chunk_out(levels[l], all.rows_at(l), befores, rows, row_of) =~= out) by {
        assert forall|k: int| 0 <= k < n implies chunks::chunk_out(
            levels[l],
            all.rows_at(l),
            befores,
            rows,
            row_of,
        )[k] == #[trigger] out[k] by {
            lemma_chunk_splices(levels, sizes, paddings, b, l, k);
        }
    }
    assert forall|k: int| 0 <= k < n implies (#[trigger] paddings[k])[l + 1].rows() == nth_call(
        levels,
        sizes,
        k,
    ).rows_at(l + 1) && paddings[k][l + 1].batch() == paddings[0][0].batch() by {
        lemma_chunk_splices(levels, sizes, paddings, b, l, k);
    }
}

/// Each padded call splices its own chunk of the sequence.
proof fn lemma_chunk_splices(
    levels: Seq<Seq<Marker>>,
    sizes: Seq<int>,
    paddings: Seq<Seq<Padding>>,
    b: int,
    l: int,
    k: int,
)
    requires
        chunked(levels, sizes, paddings, b),
        aligned(levels, sizes, paddings, b, l),
        0 <= l < levels.len(),
        0 <= k < sizes.len(),
    ensures
        chunks::chunk_splices(
            levels[l],
            whole_of(levels, sizes).rows_at(l),
            at_level(paddings, l),
            at_level(paddings, l + 1),
            b,
            k,
        ),
        chunks::chunk_call(
            levels[l],
            whole_of(levels, sizes).rows_at(l),
            at_level(paddings, l),
            k,
        ) == nth_call(levels, sizes, k).call(l),
        paddings[k][l + 1].rows() == nth_call(levels, sizes, k).rows_at(l + 1),
        paddings[k][l + 1].batch() == paddings[0][0].batch(),
{
    lemma_nth_call(levels, sizes, k, l);
    lemma_batch_rows(levels, sizes, paddings, b, l, k);
    assert(pads_call(levels, sizes, paddings, k));
    assert(sizes[k] > 0);
    assert(paddings[k][l].rows() == nth_call(levels, sizes, k).rows_at(l));
    assert(paddings[k][l].wf() && paddings[k][l + 1].wf());
    assert(paddings[k][l].splices_to(
        nth_call(levels, sizes, k).call(l).plan(),
        levels[l],
        paddings[k][l + 1],
    ));
}

/// Split into calls, a padded batch is still each slot alone, at every level: the
/// sequences of a slot that enter level `j` in the calls, one after another, are
/// the one that enters it when the slot runs by itself. A slot that ends early
/// gets its `End` in the last call, which closes the batch.
pub proof fn chunked_padded_stack_is_each_slot_alone<T>(
    levels: Seq<Seq<Marker>>,
    sizes: Seq<int>,
    paddings: Seq<Seq<Padding>>,
    b: int,
    inputs: Seq<Seq<T>>,
    row_of: spec_fn(int) -> spec_fn(int) -> T,
    j: int,
)
    requires
        chunked(levels, sizes, paddings, b),
        inputs.len() == sizes.len(),
        forall|k: int| 0 <= k < sizes.len() ==> (#[trigger] inputs[k]).len() == sizes[k],
        0 <= j <= levels.len(),
    ensures
        aligned(levels, sizes, paddings, b, j),
        chunks::joined_slot(
            call_sequences(levels, sizes, inputs, row_of, j),
            at_level(paddings, j),
            b,
            sizes.len() as int,
        ) == whole(levels, chunked_len(paddings, b) as usize).sequence(
            chunks::joined_slot(inputs, at_level(paddings, 0), b, sizes.len() as int),
            row_of,
            j,
        ),
    decreases j,
{
    let rows = call_sequences(levels, sizes, inputs, row_of, j);
    if j == 0 {
        lemma_aligned_below(levels, sizes, paddings, b);
        assert(rows =~= inputs);
    } else {
        let l = j - 1;
        let below = call_sequences(levels, sizes, inputs, row_of, l);
        chunked_padded_stack_is_each_slot_alone(levels, sizes, paddings, b, inputs, row_of, l);
        assert forall|k: int| 0 <= k < sizes.len() implies (#[trigger] below[k]).len()
            == nth_call(levels, sizes, k).rows_at(l) by {
            lemma_nth_call(levels, sizes, k, l);
            assert(inputs[k].len() == sizes[k]);
            lemma_sequence_len(nth_call(levels, sizes, k), inputs[k], row_of, l);
        }
        lemma_chunked_level(levels, sizes, paddings, b, below, row_of(l), l);
        assert(rows =~= spliced_calls(levels, sizes, below, row_of(l), l));
    }
}

/// The rows of every call that enter level `j`.
pub open spec fn call_sequences<T>(
    levels: Seq<Seq<Marker>>,
    sizes: Seq<int>,
    inputs: Seq<Seq<T>>,
    row_of: spec_fn(int) -> spec_fn(int) -> T,
    j: int,
) -> Seq<Seq<T>> {
    Seq::new(sizes.len(), |k: int| nth_call(levels, sizes, k).sequence(inputs[k], row_of, j))
}

} // verus!
