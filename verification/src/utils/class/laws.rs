//! What class-marker placement keeps, however a sequence is split into calls.
use crate::utils::class;
use crate::utils::class::splice;
use crate::utils::class::{
    ClassCursors, ClassLatent, ClassMarker, ClassToken, Marker, Placement,
};
use crate::utils::order;
use vstd::prelude::*;

verus! {

/// The call that follows `a`: from where it stopped.
pub open spec fn after(a: Placement, chunk: int, prime: bool) -> Placement {
    Placement { offset: a.next_offset(), chunk, prime, ..a }
}

/// The call that makes `a` and the `chunk` tokens after it in one.
pub open spec fn joined(a: Placement, chunk: int) -> Placement {
    Placement { chunk: a.chunk + chunk, prime: false, ..a }
}

/// The plan of a call names places in its chunk, in order.
pub proof fn plan_names_places(a: Placement)
    requires
        0 <= a.offset,
        0 <= a.chunk,
    ensures
        splice::places(splice::plan_ats(a.plan()), a.chunk),
        a.plan().len() == a.stop() - a.emitted(),
        0 <= a.emitted() <= a.stop() <= a.marks.len(),
{
    a.lemma_emitted();
    a.lemma_stop(a.emitted());
    class::lemma_placement_order(a.marks, a.len());
    let e = a.emitted();
    let ats = splice::plan_ats(a.plan());
    assert forall|j: int| 0 <= j < ats.len() implies 0 <= #[trigger] ats[j] <= a.chunk by {
        assert(a.due(e + j));
        assert(class::tokens_before(a.marks, a.len(), e + j) >= a.before());
    }
    assert forall|x: int, y: int| 0 <= x <= y < ats.len() implies #[trigger] ats[x]
        <= #[trigger] ats[y] by {
        assert(class::tokens_before(a.marks, a.len(), e + x) <= class::tokens_before(
            a.marks,
            a.len(),
            e + y,
        ));
    }
}

/// The plan of a call names markers of its level.
pub proof fn plan_names_markers(a: Placement)
    requires
        0 <= a.offset,
    ensures
        forall|j: int|
            0 <= j < a.plan().len() ==> 0 <= (#[trigger] a.plan()[j]).1 < a.marks.len(),
{
    a.lemma_emitted();
    a.lemma_stop(a.emitted());
    class::lemma_placement_order(a.marks, a.len());
}

/// A call emits each marker at most once.
pub proof fn plan_emits_each_marker_once(a: Placement, x: int, y: int)
    requires
        0 <= a.offset,
        0 <= x < y < a.plan().len(),
    ensures
        a.plan()[x].1 != a.plan()[y].1,
        0 <= a.plan()[x].1 < a.marks.len(),
{
    a.lemma_emitted();
    a.lemma_stop(a.emitted());
    class::lemma_placement_order(a.marks, a.len());
}

/// The next call resumes where this one stopped: the markers emitted so far
/// are behind its cursor, and the tokens consumed so far are before it.
pub proof fn lemma_resumes(a: Placement, b: Placement)
    requires
        0 <= a.offset,
        0 <= a.chunk,
        b.offset == a.next_offset(),
        b.marks == a.marks,
        b.full_len == a.full_len,
    ensures
        b.emitted() == a.stop(),
        b.before() == a.consumed(),
{
    let k = a.marks.len();
    let e = a.emitted();
    let f = a.stop();
    plan_names_places(a);
    a.lemma_emitted();
    a.lemma_stop(e);
    b.lemma_emitted();
    class::lemma_placement_order(a.marks, a.len());
    if b.emitted() < f {
        let r = b.emitted();
        assert(class::tokens_before(a.marks, a.len(), r) + r >= b.offset);
        if r >= e {
            assert(a.due(r));
        }
        assert(false);
    }
    if b.emitted() > f {
        assert(class::tokens_before(a.marks, a.len(), f) + f < b.offset);
        assert(class::tokens_before(a.marks, a.len(), f) >= a.before());
        assert(!a.due(f));
        assert(false);
    }
}

/// Markers due one after another are skipped at once.
proof fn lemma_stop_skips(a: Placement, from: int, to: int)
    requires
        from <= to <= a.marks.len(),
        forall|r: int| from <= r < to ==> #[trigger] a.due(r),
    ensures
        a.stop_from(from) == a.stop_from(to),
    decreases to - from,
{
    if from < to {
        assert(a.due(from));
        lemma_stop_skips(a, from + 1, to);
    }
}

/// Two calls that agree on what is due from `from` on stop alike.
proof fn lemma_stop_agrees(a: Placement, b: Placement, from: int)
    requires
        a.marks == b.marks,
        0 <= from,
        forall|r: int| from <= r < a.marks.len() ==> #[trigger] a.due(r) == b.due(r),
    ensures
        a.stop_from(from) == b.stop_from(from),
    decreases a.marks.len() - from,
{
    if from < a.marks.len() && a.due(from) {
        lemma_stop_agrees(a, b, from + 1);
    }
}

/// A split of a sequence at any point leaves the placement unchanged: the two
/// calls emit what one call over both chunks emits, in the same places, and
/// leave the cursor where it does. The first call may be a prime, as long as
/// the second carries a token.
pub proof fn split_leaves_the_plan_unchanged(a: Placement, chunk: int)
    requires
        0 <= a.offset,
        0 <= a.chunk,
        0 <= chunk,
        a.prime ==> chunk >= 1,
    ensures
        joined(a, chunk).plan() == a.plan() + splice::shifted_plan(
            after(a, chunk, false).plan(),
            a.chunk,
        ),
        joined(a, chunk).next_offset() == after(a, chunk, false).next_offset(),
{
    let b = after(a, chunk, false);
    let ab = joined(a, chunk);
    let k = a.marks.len();
    plan_names_places(a);
    lemma_resumes(a, b);
    a.lemma_emitted();
    ab.lemma_emitted();
    b.lemma_emitted();
    assert(ab.emitted() == a.emitted()) by {
        assert(ab.behind() =~= a.behind());
    }
    a.lemma_stop(a.emitted());
    b.lemma_stop(b.emitted());
    ab.lemma_stop(ab.emitted());
    assert forall|r: int| a.emitted() <= r < a.stop() implies #[trigger] ab.due(r) by {
        assert(a.due(r));
    }
    lemma_stop_skips(ab, a.emitted(), a.stop());
    assert forall|r: int| a.stop() <= r < k implies #[trigger] ab.due(r) == b.due(r) by {
        assert(class::tokens_before(a.marks, a.len(), r) >= b.before());
    }
    lemma_stop_agrees(ab, b, a.stop());
    assert(ab.plan() =~= a.plan() + splice::shifted_plan(b.plan(), a.chunk));
}

/// The rows two calls emit, one after another, are the rows that one call over
/// both chunks emits.
pub proof fn split_leaves_the_rows_unchanged<T>(
    a: Placement,
    rows: Seq<T>,
    more: Seq<T>,
    row_of: spec_fn(int) -> T,
)
    requires
        0 <= a.offset,
        a.chunk == rows.len(),
        a.prime ==> more.len() >= 1,
    ensures
        splice::spliced_plan(rows + more, joined(a, more.len() as int).plan(), row_of)
            == splice::spliced_plan(rows, a.plan(), row_of) + splice::spliced_plan(
            more,
            after(a, more.len() as int, false).plan(),
            row_of,
        ),
{
    let b = after(a, more.len() as int, false);
    split_leaves_the_plan_unchanged(a, more.len() as int);
    plan_names_places(a);
    plan_names_places(b);
    splice::lemma_spliced_plan_concat(rows, more, a.plan(), b.plan(), row_of);
}

/// Whether every marker opens the sequence.
pub open spec fn all_start(marks: Seq<Marker>) -> bool {
    forall|i: int| 0 <= i < marks.len() ==> (#[trigger] marks[i]) is Start
}

/// A call that carries a token emits every `Start` that was not emitted before,
/// so no later call emits one.
pub proof fn starts_are_emitted_once(a: Placement, b: Placement)
    requires
        all_start(a.marks),
        0 <= a.offset,
        1 <= a.chunk,
        b.offset == a.next_offset(),
        b.marks == a.marks,
        b.full_len == a.full_len,
    ensures
        b.plan().len() == 0,
{
    let k = a.marks.len() as int;
    plan_names_places(a);
    a.lemma_emitted();
    a.lemma_stop(a.emitted());
    class::lemma_placement_order(a.marks, a.len());
    if a.stop() < k {
        let r = a.stop();
        let i = class::placement_order(a.marks, a.len())[r];
        assert(a.marks[i] is Start);
        assert(class::tokens_before(a.marks, a.len(), r) == 0);
        assert(a.due(r));
    }
    lemma_resumes(a, b);
    b.lemma_stop(b.emitted());
}

/// A prime never emits an `End`: it belongs to the call that carries the last
/// user token.
pub proof fn end_is_never_primed(a: Placement, j: int)
    requires
        a.prime,
        0 <= a.offset,
        0 <= a.chunk,
        a.full_len matches Some(len) && a.consumed() <= len,
        0 <= j < a.plan().len(),
    ensures
        !(a.marks[a.plan()[j].1] is End),
{
    a.lemma_emitted();
    a.lemma_stop(a.emitted());
    assert(a.due(a.emitted() + j));
}

/// Whether every marker behind the cursor lands in the announced sequence.
pub open spec fn emitted_lands(a: Placement) -> bool {
    forall|r: int|
        0 <= r < a.emitted() ==> a.marks[#[trigger] class::placement_order(
            a.marks,
            a.len(),
        )[r]].lands(a.len())
}

/// While the tokens stay within the announced length, only markers that land
/// are emitted, and the output stays within what the level hands up. As long as
/// a token is to come, so is a part of that output.
pub proof fn lemma_stays_within(a: Placement)
    requires
        0 <= a.offset,
        0 <= a.chunk,
        a.full_len matches Some(len) && a.consumed() <= len,
        emitted_lands(a),
    ensures
        forall|r: int|
            0 <= r < a.stop() ==> a.marks[#[trigger] class::placement_order(
                a.marks,
                a.len(),
            )[r]].lands(a.len()),
        a.next_offset() == a.consumed() + a.stop(),
        a.stop() <= class::landed(a.marks, a.len()),
{
    let k = a.marks.len();
    let order = class::placement_order(a.marks, a.len());
    a.lemma_emitted();
    a.lemma_stop(a.emitted());
    class::lemma_placement_order(a.marks, a.len());
    assert forall|r: int| 0 <= r < a.stop() implies a.marks[#[trigger] order[r]].lands(a.len()) by {
        if r >= a.emitted() {
            assert(a.due(r));
            assert(a.at(r) == a.marks[order[r]].depth(a.len()) - a.before());
        }
    }
    let first = order.take(a.stop());
    let taken = |i: int| first.contains(i);
    assert forall|j: int| 0 <= j < first.len() implies 0 <= #[trigger] first[j] < k && taken(
        first[j],
    ) by {
        assert(first[j] == order[j]);
    }
    order::lemma_count_is_len(k, taken, first);
    assert forall|i: int| 0 <= i < k && #[trigger] taken(i) implies class::landing(
        a.marks,
        a.len(),
    )(i) by {
        let j = first.index_of(i);
        assert(first[j] == order[j]);
    }
    order::lemma_count_le(k, taken, class::landing(a.marks, a.len()));
}

/// A call that leaves a token to come emits no `End`.
pub proof fn end_waits_for_the_last_token(a: Placement, j: int)
    requires
        0 <= a.offset,
        0 <= a.chunk,
        a.full_len matches Some(len) && a.consumed() < len,
        0 <= j < a.plan().len(),
    ensures
        !(a.marks[a.plan()[j].1] is End),
{
    a.lemma_emitted();
    a.lemma_stop(a.emitted());
    assert(a.due(a.emitted() + j));
}

/// A cursor at the announced end has no next token, so a prime there emits
/// nothing.
pub proof fn prime_at_the_end_is_empty(a: Placement)
    requires
        a.prime,
        0 <= a.offset,
        a.chunk == 0,
        a.full_len matches Some(len) && a.before() >= len,
    ensures
        a.plan().len() == 0,
{
    a.lemma_emitted();
    a.lemma_stop(a.emitted());
    class::lemma_placement_order(a.marks, a.len());
    if a.stop() > a.emitted() {
        assert(a.due(a.emitted()));
        assert(class::tokens_before(a.marks, a.len(), a.emitted()) >= a.before());
    }
}

/// A prime that emits a marker leaves a token to come.
pub proof fn lemma_primed_leaves_a_token(a: Placement)
    requires
        a.prime,
        a.chunk == 0,
        0 <= a.offset,
        a.full_len is Some,
        a.plan().len() > 0,
    ensures
        a.consumed() < a.full_len->Some_0,
{
    if a.before() >= a.full_len->Some_0 {
        prime_at_the_end_is_empty(a);
    }
}

/// A call that covers a whole sequence of `len` tokens.
pub open spec fn whole(marks: Seq<Marker>, len: usize) -> Placement {
    Placement { marks, full_len: Some(len), offset: 0, chunk: len as int, prime: false }
}

/// Whether nothing waits in front of an empty sequence: a `Start` or a
/// `Middle` of a sequence without tokens waits for its first one, and keeps
/// the `End` behind it waiting too.
pub open spec fn opens_freely(marks: Seq<Marker>, len: int) -> bool {
    len > 0 || forall|i: int|
        0 <= i < marks.len() ==> !((#[trigger] marks[i]) is Start || marks[i] is Middle)
}

/// Whether a call over a whole sequence of `len` tokens leaves no marker that
/// lands waiting. In a sequence without tokens only an `End` lands, and only a
/// `Start` or a `Middle` can keep it waiting.
pub open spec fn settles(marks: Seq<Marker>, len: int) -> bool {
    opens_freely(marks, len) || ends_nothing(marks)
}

/// Whether no marker closes the sequence.
pub open spec fn ends_nothing(marks: Seq<Marker>) -> bool {
    forall|i: int| 0 <= i < marks.len() ==> !((#[trigger] marks[i]) is End)
}

/// Nothing lands in a sequence without tokens that no marker closes, and a call
/// over it emits nothing.
pub proof fn nothing_lands_in_an_empty_sequence(marks: Seq<Marker>)
    requires
        ends_nothing(marks),
    ensures
        whole(marks, 0).plan().len() == 0,
        class::landed(marks, 0) == 0,
{
    let a = whole(marks, 0);
    a.lemma_emitted();
    a.lemma_stop(0);
    class::lemma_placement_order(marks, 0);
    if a.stop() > 0 {
        assert(a.due(0));
        assert(a.at(0) == marks[class::placement_order(marks, 0)[0]].depth(0));
    }
    order::lemma_count_none(marks.len(), class::landing(marks, 0));
}

/// A call over the whole sequence emits the markers that land, and no others:
/// its output is longer than its input by their count.
pub proof fn whole_call_emits_what_lands(marks: Seq<Marker>, len: usize)
    requires
        settles(marks, len as int),
    ensures
        whole(marks, len).plan().len() == class::landed(marks, len as int),
        whole(marks, len).next_offset() == len + class::landed(marks, len as int),
        whole(marks, len).emitted() == 0,
{
    let a = whole(marks, len);
    a.lemma_emitted();
    a.lemma_stop(0);
    if opens_freely(marks, len as int) {
        lemma_whole_call_emits(marks, len);
    } else {
        nothing_lands_in_an_empty_sequence(marks);
    }
}

proof fn lemma_whole_call_emits(marks: Seq<Marker>, len: usize)
    requires
        opens_freely(marks, len as int),
    ensures
        whole(marks, len).plan().len() == class::landed(marks, len as int),
        whole(marks, len).emitted() == 0,
{
    let a = whole(marks, len);
    let o = class::placement_order(marks, len as int);
    let keys = class::placement_keys(marks, len as int);
    let k = marks.len();
    a.lemma_emitted();
    a.lemma_stop(0);
    class::lemma_placement_order(marks, len as int);
    let f = a.stop();
    let first = o.subrange(0, f);
    assert forall|r: int| 0 <= r < k implies #[trigger] a.due(r) == marks[o[r]].lands(
        len as int,
    ) by {
        let m = marks[o[r]];
        assert(a.at(r) == m.depth(len as int));
    }
    assert forall|i: int| 0 <= i < k && #[trigger] class::landing(marks, len as int)(i) implies first.contains(i) by {
        assert(o.contains(i));
        let r = o.index_of(i);
        assert(a.due(r));
        if r >= f {
            assert(!a.due(f));
            if r > f {
                assert(order::index_lt(keys, o[f], o[r]));
                assert(keys[o[f]] == (marks[o[f]].index(len as int), marks[o[f]].rank()));
                assert(keys[o[r]] == (marks[o[r]].index(len as int), marks[o[r]].rank()));
            }
            assert(false);
        }
        assert(first[r] == i);
    }
    assert forall|j: int| 0 <= j < first.len() implies 0 <= #[trigger] first[j] < k
        && class::landing(marks, len as int)(first[j]) by {
        assert(a.due(j));
    }
    order::lemma_count_is_len(k, class::landing(marks, len as int), first);
}

/// A call over the whole sequence puts every marker that lands at the output
/// position that [`class::class_marker_output_indices`] reports.
pub proof fn whole_call_puts_markers_where_reported<T>(
    marks: Seq<Marker>,
    rows: Seq<T>,
    row_of: spec_fn(int) -> T,
    i: int,
)
    requires
        rows.len() <= usize::MAX,
        opens_freely(marks, rows.len() as int),
        0 <= i < marks.len(),
        marks[i].lands(rows.len() as int),
    ensures
        splice::spliced_plan(
            rows,
            whole(marks, rows.len() as usize).plan(),
            row_of,
        )[class::output_position(marks, rows.len() as int, i)] == row_of(i),
        0 <= class::output_position(marks, rows.len() as int, i) < rows.len() + class::landed(
            marks,
            rows.len() as int,
        ),
{
    let len = rows.len() as usize;
    let a = whole(marks, len);
    let o = class::placement_order(marks, len as int);
    whole_call_emits_what_lands(marks, len);
    plan_names_places(a);
    a.lemma_stop(0);
    class::lemma_placement_order(marks, len as int);
    assert(o.contains(i));
    let r = o.index_of(i);
    lemma_landing_comes_first(marks, len as int, r);
    let ats = splice::plan_ats(a.plan());
    let cols = splice::plan_cols(a.plan(), row_of);
    splice::lemma_spliced_col(rows, ats, cols, r);
}

/// The markers that land are the first ones in placement order.
pub proof fn lemma_landing_comes_first(marks: Seq<Marker>, len: int, r: int)
    requires
        0 <= len <= usize::MAX,
        opens_freely(marks, len),
        0 <= r < marks.len(),
    ensures
        marks[class::placement_order(marks, len)[r]].lands(len) == (r < class::landed(marks, len)),
{
    let a = whole(marks, len as usize);
    let o = class::placement_order(marks, len);
    let keys = class::placement_keys(marks, len);
    whole_call_emits_what_lands(marks, len as usize);
    a.lemma_emitted();
    a.lemma_stop(0);
    class::lemma_placement_order(marks, len);
    let f = a.stop();
    assert(a.at(r) == marks[o[r]].depth(len));
    assert(a.due(r) == marks[o[r]].lands(len));
    if r > f {
        assert(!a.due(f));
        assert(a.at(f) == marks[o[f]].depth(len));
        assert(order::index_lt(keys, o[f], o[r]));
        assert(keys[o[f]] == (marks[o[f]].index(len), marks[o[f]].rank()));
        assert(keys[o[r]] == (marks[o[r]].index(len), marks[o[r]].rank()));
    }
}

/// A marker that never lands reports a position past the emitted sequence.
pub proof fn absent_marker_reports_past_the_end(marks: Seq<Marker>, len: int, i: int)
    requires
        0 <= len <= usize::MAX,
        opens_freely(marks, len),
        0 <= i < marks.len(),
        !marks[i].lands(len),
    ensures
        class::output_position(marks, len, i) >= len + class::landed(marks, len),
{
    let o = class::placement_order(marks, len);
    class::lemma_placement_order(marks, len);
    assert(o.contains(i));
    lemma_landing_comes_first(marks, len, o.index_of(i));
}

/// A `Middle` halves the sequence: the tokens before it and the tokens from it on
/// differ by at most one, and the smaller part comes first.
pub proof fn a_middle_halves_the_sequence(len: int)
    requires
        0 <= len,
    ensures
        ({
            let before = Marker::Middle.index(len);
            let rest = len - before;
            0 <= before <= rest <= before + 1
        }),
{
}

/// Where a class token enters a sequence of `len` tokens: a `Start` before all of
/// them, an `End` after all of them, a `Custom` before the token it names, a
/// `Middle` in the middle.
pub proof fn a_token_enters_where_it_says(token: ClassToken, len: int)
    requires
        0 <= len,
    ensures
        ({
            let p = token.marker().index(len);
            match token {
                ClassToken::Start => p == 0,
                ClassToken::Middle => 2 * p <= len < 2 * p + 2,
                ClassToken::End => p == len,
                ClassToken::Custom(k) => p == k,
            }
        }),
        match token {
            ClassToken::Start => token.marker() is Start,
            ClassToken::Middle => token.marker() is Middle,
            ClassToken::End => token.marker() is End,
            ClassToken::Custom(_) => token.marker() is Custom,
        },
{
}

/// A class latent enters a sequence where the class token of its kind does.
pub proof fn a_latent_enters_where_it_says(latent: ClassLatent, len: int)
    requires
        0 <= len,
    ensures
        ({
            let p = latent.marker().index(len);
            match latent {
                ClassLatent::Start => p == 0,
                ClassLatent::Middle => 2 * p <= len < 2 * p + 2,
                ClassLatent::End => p == len,
                ClassLatent::Custom(k) => p == k,
            }
        }),
        match latent {
            ClassLatent::Start => latent.marker() is Start,
            ClassLatent::Middle => latent.marker() is Middle,
            ClassLatent::End => latent.marker() is End,
            ClassLatent::Custom(_) => latent.marker() is Custom,
        },
{
}

/// Among markers at one index the kind decides: a `Start` comes before a
/// `Middle`, that before an `End`, and that before a `Custom`.
pub proof fn kinds_break_ties(a: usize, b: usize)
    ensures
        Marker::Start.rank() < Marker::Middle.rank() < Marker::End.rank() < Marker::Custom(
            a,
        ).rank(),
        Marker::Custom(a).rank() == Marker::Custom(b).rank(),
{
}

/// A call over a whole sequence of `len` tokens puts every marker where it says:
/// entry `j` is that of marker `i`. Only a `Custom` at or past the end has no
/// entry, because it has no token to precede.
pub proof fn a_whole_call_places_each_marker(marks: Seq<Marker>, len: usize, i: int) -> (j: int)
    requires
        len > 0 || forall|x: int|
            0 <= x < marks.len() ==> !((#[trigger] marks[x]) is Start || marks[x] is Middle),
        0 <= i < marks.len(),
    ensures
        ({
            let plan = whole(marks, len).plan();
            let here = 0 <= j < plan.len() && plan[j].1 == i;
            match marks[i] {
                Marker::Start => here && plan[j].0 == 0,
                Marker::Middle => here && 2 * plan[j].0 <= len < 2 * plan[j].0 + 2,
                Marker::End => here && plan[j].0 == len,
                Marker::Custom(k) => if k < len {
                    here && plan[j].0 == k
                } else {
                    forall|x: int| 0 <= x < plan.len() ==> (#[trigger] plan[x]).1 != i
                },
            }
        }),
{
    let a = whole(marks, len);
    let o = class::placement_order(marks, len as int);
    whole_call_emits_what_lands(marks, len);
    a.lemma_stop(0);
    class::lemma_placement_order(marks, len as int);
    assert(o.contains(i));
    let r = o.index_of(i);
    lemma_landing_comes_first(marks, len as int, r);
    assert forall|x: int| 0 <= x < a.plan().len() implies marks[(#[trigger] a.plan()[x]).1].lands(
        len as int,
    ) by {
        lemma_landing_comes_first(marks, len as int, x);
    }
    r
}

/// A call emits its markers in the order of their places. At one place the kind
/// breaks the tie, then the order of declaration.
pub proof fn a_call_orders_its_markers(a: Placement, x: int, y: int)
    requires
        0 <= a.offset,
        0 <= a.chunk,
        a.consumed() <= a.len(),
        0 <= x < y < a.plan().len(),
    ensures
        a.plan()[x].0 <= a.plan()[y].0,
        a.plan()[x].0 == a.plan()[y].0 ==> ({
            let m = a.marks[a.plan()[x].1];
            let n = a.marks[a.plan()[y].1];
            match (m, n) {
                (Marker::Start, Marker::Start) => a.plan()[x].1 < a.plan()[y].1,
                (Marker::Middle, Marker::Middle) => a.plan()[x].1 < a.plan()[y].1,
                (Marker::End, Marker::End) => a.plan()[x].1 < a.plan()[y].1,
                (Marker::Custom(_), Marker::Custom(_)) => a.plan()[x].1 < a.plan()[y].1,
                (Marker::Start, _) => true,
                (_, Marker::Custom(_)) => true,
                (Marker::Middle, Marker::End) => true,
                _ => false,
            }
        }),
{
    plan_names_places(a);
    a.lemma_emitted();
    a.lemma_stop(a.emitted());
    class::lemma_placement_order(a.marks, a.len());
    let o = class::placement_order(a.marks, a.len());
    let keys = class::placement_keys(a.marks, a.len());
    let r = a.emitted() + x;
    let s = a.emitted() + y;
    assert(a.due(r) && a.due(s));
    assert(order::index_lt(keys, o[r], o[s]));
    assert(class::tokens_before(a.marks, a.len(), r) <= class::tokens_before(a.marks, a.len(), s));
    assert(keys[o[r]] == (a.marks[o[r]].index(a.len()), a.marks[o[r]].rank()));
    assert(keys[o[s]] == (a.marks[o[s]].index(a.len()), a.marks[o[s]].rank()));
}

/// A chunk emits a marker before one of its own tokens. What waits behind its last
/// token is left to the next chunk, but for an `End`, which comes behind the last
/// token of the sequence.
pub proof fn a_chunk_emits_before_its_own_tokens(a: Placement, x: int)
    requires
        !a.prime,
        0 <= a.offset,
        0 <= a.chunk,
        a.consumed() <= a.len(),
        0 <= x < a.plan().len(),
    ensures
        ({
            let at = a.before() + a.plan()[x].0;
            match a.marks[a.plan()[x].1] {
                Marker::Start => at == 0 && a.plan()[x].0 < a.chunk,
                Marker::Middle => 2 * at <= a.len() < 2 * at + 2 && a.plan()[x].0 < a.chunk,
                Marker::Custom(k) => at == k && a.plan()[x].0 < a.chunk,
                Marker::End => at == a.len() && a.plan()[x].0 == a.chunk && a.full_len is Some,
            }
        }),
{
    a.lemma_emitted();
    a.lemma_stop(a.emitted());
    assert(a.due(a.emitted() + x));
}

/// A prime emits a marker only before a token that is still to come, the next one.
pub proof fn a_prime_emits_before_the_next_token(a: Placement, x: int)
    requires
        a.prime,
        a.chunk == 0,
        0 <= a.offset,
        a.before() <= a.len(),
        0 <= x < a.plan().len(),
    ensures
        a.plan()[x].0 == 0,
        a.full_len matches Some(len) ==> a.before() < len,
        match a.marks[a.plan()[x].1] {
            Marker::Start => a.before() == 0,
            Marker::Middle => 2 * a.before() <= a.len() < 2 * a.before() + 2,
            Marker::Custom(k) => a.before() == k,
            Marker::End => false,
        },
{
    plan_names_places(a);
    a.lemma_emitted();
    a.lemma_stop(a.emitted());
    assert(a.due(a.emitted() + x));
    let ats = splice::plan_ats(a.plan());
    assert(0 <= ats[x] <= a.chunk);
}

/// A prime leaves nothing waiting: no marker precedes the first token of the
/// call after it, up to the end of the sequence.
pub proof fn a_prime_leaves_nothing_waiting(a: Placement, chunk: int, x: int)
    requires
        a.prime,
        a.chunk == 0,
        0 <= a.offset,
        a.before() < a.len(),
        1 <= chunk,
        0 <= x < after(a, chunk, false).plan().len(),
    ensures
        after(a, chunk, false).plan()[x].0 > 0,
{
    let b = after(a, chunk, false);
    plan_names_places(a);
    lemma_resumes(a, b);
    a.lemma_emitted();
    a.lemma_stop(a.emitted());
    b.lemma_stop(b.emitted());
    class::lemma_placement_order(a.marks, a.len());
    let f = a.stop();
    assert(class::tokens_before(a.marks, a.len(), f) <= class::tokens_before(
        a.marks,
        a.len(),
        f + x,
    ));
    assert(!a.due(f));
    assert(class::tokens_before(a.marks, a.len(), f) >= a.before());
}

/// An open-ended stream emits what a stream of any announced length emits, as
/// long as it stays short of that length and no marker needs the length.
pub proof fn a_stream_places_like_an_announced_one(a: Placement, len: usize)
    requires
        a.full_len is None,
        0 <= a.offset,
        0 <= a.chunk,
        a.consumed() < len,
        forall|i: int|
            0 <= i < a.marks.len() ==> (#[trigger] a.marks[i]) is Start || a.marks[i] is Custom,
    ensures
        (Placement { full_len: Some(len), ..a }).plan() == a.plan(),
        (Placement { full_len: Some(len), ..a }).next_offset() == a.next_offset(),
{
    let b = Placement { full_len: Some(len), ..a };
    let k = a.marks.len();
    assert(class::placement_keys(a.marks, a.len()) =~= class::placement_keys(b.marks, b.len()));
    let o = class::placement_order(a.marks, a.len());
    assert(o == class::placement_order(b.marks, b.len()));
    class::lemma_placement_order(a.marks, a.len());
    a.lemma_emitted();
    assert forall|r: int| 0 <= r < k implies #[trigger] b.behind()(r) == a.behind()(r) by {
        assert(0 <= o[r] < k);
        assert(a.marks[o[r]] is Start || a.marks[o[r]] is Custom);
        assert((class::tokens_before(a.marks, a.len(), r) + r < a.offset) == (r < a.emitted()));
        if r < a.emitted() {
            assert(class::tokens_before(a.marks, a.len(), r) <= a.before());
        }
    }
    order::lemma_count_ext(k, b.behind(), a.behind());
    assert forall|r: int| a.emitted() <= r < k implies #[trigger] a.due(r) == b.due(r) by {
        assert(0 <= o[r] < k);
        assert(a.marks[o[r]] is Start || a.marks[o[r]] is Custom);
    }
    lemma_stop_agrees(a, b, a.emitted());
    a.lemma_stop(a.emitted());
    assert(a.plan() =~= b.plan()) by {
        assert forall|j: int| 0 <= j < a.plan().len() implies a.plan()[j] == b.plan()[j] by {
            assert(a.due(a.emitted() + j));
            assert(0 <= o[a.emitted() + j] < k);
        }
    }
}

/// A `Custom` at or past the announced end lands when the caller feeds tokens past
/// it: before the next one.
pub proof fn a_late_custom_lands_past_the_end(marks: Seq<Marker>, len: usize, chunk: int)
    requires
        len > 0,
        1 <= chunk,
    ensures
        ({
            let next = after(whole(marks, len), chunk, false);
            &&& next.plan().len() + whole(marks, len).plan().len() == marks.len()
            &&& forall|x: int|
                0 <= x < next.plan().len() ==> (#[trigger] next.plan()[x]).0 == 0
                    && 0 <= next.plan()[x].1 < marks.len() && (marks[next.plan()[x].1] matches Marker::Custom(
                    k,
                ) && k >= len)
        }),
{
    let a = whole(marks, len);
    let b = after(a, chunk, false);
    let k = marks.len();
    let o = class::placement_order(marks, len as int);
    whole_call_emits_what_lands(marks, len);
    plan_names_places(a);
    lemma_resumes(a, b);
    a.lemma_stop(0);
    b.lemma_emitted();
    b.lemma_stop(b.emitted());
    class::lemma_placement_order(marks, len as int);
    assert forall|r: int| b.emitted() <= r < k implies #[trigger] b.due(r) && b.at(r) == 0
        && !marks[o[r]].lands(len as int) by {
        lemma_landing_comes_first(marks, len as int, r);
        assert(0 <= o[r] < k);
    }
    assert(b.stop() == k) by {
        if b.stop() < k {
            assert(b.due(b.stop()));
        }
    }
}

/// The positions that are reported for the markers of a sequence of `len` tokens
/// are places in it, one for each marker, in the order of their indices, and of their
/// declaration where they are alike.
pub proof fn reported_positions_are_apart(marks: Seq<Marker>, len: int, i: int, j: int)
    requires
        0 <= len,
        0 <= i < marks.len(),
        0 <= j < marks.len(),
        i != j,
    ensures
        0 <= class::output_position(marks, len, i) < len + marks.len(),
        class::output_position(marks, len, i) != class::output_position(marks, len, j),
        marks[i].index(len) < marks[j].index(len) ==> class::output_position(marks, len, i)
            < class::output_position(marks, len, j),
        marks[i] == marks[j] && i < j ==> class::output_position(marks, len, i)
            < class::output_position(marks, len, j),
{
    let o = class::placement_order(marks, len);
    let keys = class::placement_keys(marks, len);
    class::lemma_placement_order(marks, len);
    assert(o.contains(i) && o.contains(j));
    let r = o.index_of(i);
    let s = o.index_of(j);
    assert(keys[i] == (marks[i].index(len), marks[i].rank()));
    assert(keys[j] == (marks[j].index(len), marks[j].rank()));
    assert(class::tokens_before(marks, len, r) == marks[i].depth(len));
    assert(class::tokens_before(marks, len, s) == marks[j].depth(len));
    if r < s {
        assert(order::index_lt(keys, o[r], o[s]));
        assert(class::tokens_before(marks, len, r) <= class::tokens_before(marks, len, s));
    } else {
        assert(order::index_lt(keys, o[s], o[r]));
        assert(class::tokens_before(marks, len, s) <= class::tokens_before(marks, len, r));
    }
}

/// A level hands up the length that a whole call of it puts out.
pub proof fn a_level_hands_up_what_it_puts_out(marks: Seq<Marker>, len: usize)
    requires
        len > 0,
    ensures
        class::grown(marks, Some(len)) == Some(len + whole(marks, len).plan().len()),
        class::grown(marks, None) is None,
{
    whole_call_emits_what_lands(marks, len);
}

/// New cursors stand at the start of every level, and hold what they were given.
pub proof fn cursors_hold_what_they_say(cursors: ClassCursors, full_len: Option<usize>)
    ensures
        cursors@.full_len == cursors.full_len,
        cursors@.network == cursors.network,
        cursors@.stack == cursors.stack,
        cursors@.per_layer == cursors.per_layer@,
        class::cursors(Some(cursors)) == Some(cursors@),
        class::cursors(None) is None,
        class::start_cursors(full_len).full_len == full_len,
        class::start_cursors(full_len).network == 0,
        class::start_cursors(full_len).stack == 0,
        class::start_cursors(full_len).per_layer.len() == 0,
{
}

/// A `Start` or a `Middle` of a sequence without tokens waits for the first one, and the
/// `End` behind it waits too: a call over the empty sequence emits nothing.
pub proof fn an_opening_marker_keeps_an_empty_sequence_waiting(marks: Seq<Marker>, i: int)
    requires
        0 <= i < marks.len(),
        marks[i] is Start || marks[i] is Middle,
    ensures
        whole(marks, 0).plan().len() == 0,
{
    let a = whole(marks, 0);
    let o = class::placement_order(marks, 0);
    let keys = class::placement_keys(marks, 0);
    a.lemma_emitted();
    a.lemma_stop(0);
    class::lemma_placement_order(marks, 0);
    assert(o.contains(i));
    let r = o.index_of(i);
    if a.stop() > 0 {
        assert(a.due(0));
        assert(a.at(0) == marks[o[0]].depth(0));
        if r > 0 {
            assert(order::index_lt(keys, o[0], o[r]));
            assert(keys[o[0]] == (marks[o[0]].index(0), marks[o[0]].rank()));
            assert(keys[o[r]] == (marks[o[r]].index(0), marks[o[r]].rank()));
        }
    }
}

/// A call that goes past the announced end emits all that is left: an `End` and a `Custom`
/// at or past the end come before the first token past it.
pub proof fn a_call_past_the_end_emits_all_that_is_left(a: Placement, len: usize, x: int)
    requires
        a.full_len == Some(len),
        0 <= a.offset,
        0 <= a.chunk,
        len < a.consumed(),
        0 <= x < a.plan().len(),
    ensures
        a.plan().len() == a.marks.len() - a.emitted(),
        a.plan()[x].0 < a.chunk,
        ({
            let at = a.before() + a.plan()[x].0;
            match a.marks[a.plan()[x].1] {
                Marker::Start => at == 0,
                Marker::Middle => 2 * at <= len < 2 * at + 2,
                Marker::End => at == len,
                Marker::Custom(k) => if k < len {
                    at == k
                } else {
                    at == len
                },
            }
        }),
{
    a.lemma_emitted();
    a.lemma_stop(a.emitted());
    class::lemma_placement_order(a.marks, a.len());
    let f = a.stop();
    if f < a.marks.len() {
        assert(class::tokens_before(a.marks, a.len(), f) <= len);
        assert(a.due(f));
    }
    let r = a.emitted() + x;
    assert(class::tokens_before(a.marks, a.len(), r) <= len);
}

} // verus!
