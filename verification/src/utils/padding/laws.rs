//! What a padded batch keeps: the sequence of each slot alone.
use crate::utils::class;
use crate::utils::class::laws as placement;
use crate::utils::class::splice;
use crate::utils::class::Marker;
use crate::utils::order;
use crate::utils::padding;
use crate::utils::padding::{Padding, SlotSplice};
use vstd::prelude::*;

verus! {

/// The sequence of a slot: its real rows, in the order of the slot.
pub open spec fn slot_sequence<T>(rows: Seq<T>, pad: Seq<bool>, local: Seq<int>) -> Seq<T> {
    Seq::new(padding::n_real(pad), |q: int| rows[local.index_of(q)])
}

/// Every real row of a slot is at its place in the sequence of the slot.
pub proof fn slot_sequence_holds_real_rows<T>(
    rows: Seq<T>,
    pad: Seq<bool>,
    local: Seq<int>,
    i: int,
)
    requires
        padding::orders_slot(pad, local),
        rows.len() == pad.len(),
        0 <= i < pad.len(),
        !pad[i],
    ensures
        0 <= local[i] < padding::n_real(pad),
        slot_sequence(rows, pad, local)[local[i]] == rows[i],
{
    assert(local.contains(local[i]));
    let j = local.index_of(local[i]);
    assert(local[j] == local[i]);
    assert(j == i);
}

/// A sequence that holds every real row at its place is the sequence of the
/// slot.
pub proof fn lemma_slot_sequence_is<T>(
    rows: Seq<T>,
    pad: Seq<bool>,
    local: Seq<int>,
    sequence: Seq<T>,
)
    requires
        padding::orders_slot(pad, local),
        rows.len() == pad.len(),
        sequence.len() == padding::n_real(pad),
        forall|i: int| 0 <= i < pad.len() && !pad[i] ==> sequence[#[trigger] local[i]] == rows[i],
    ensures
        slot_sequence(rows, pad, local) == sequence,
{
    order::lemma_count_bound(pad.len(), padding::real_rows(pad));
    order::lemma_all_values(local, pad.len());
    assert forall|q: int| 0 <= q < sequence.len() implies #[trigger] slot_sequence(
        rows,
        pad,
        local,
    )[q] == sequence[q] by {
        assert(local.contains(q));
        let i = local.index_of(q);
        assert(local[i] == q);
        assert(!pad[i]);
    }
    assert(slot_sequence(rows, pad, local) =~= sequence);
}

/// Reading the rows of a slot in its order and the output back gives every row
/// its own output again.
pub proof fn slot_order_reads_back<T>(rows: Seq<T>, src: Seq<int>, local: Seq<int>, i: int)
    requires
        padding::gathers(src, local),
        rows.len() == local.len(),
        0 <= i < local.len(),
        0 <= local[i] < local.len(),
    ensures
        Seq::new(src.len(), |q: int| rows[src[q]])[local[i]] == rows[i],
{
}

/// The rows a block reads in the order of a slot are the sequence of the slot,
/// followed by its padding.
pub proof fn slot_order_gathers_the_sequence<T>(
    rows: Seq<T>,
    pad: Seq<bool>,
    local: Seq<int>,
    src: Seq<int>,
)
    requires
        padding::orders_slot(pad, local),
        padding::gathers(src, local),
        rows.len() == pad.len(),
    ensures
        Seq::new(src.len(), |q: int| rows[src[q]]).take(padding::n_real(pad) as int)
            == slot_sequence(rows, pad, local),
        forall|q: int|
            0 <= q < pad.len() ==> #[trigger] padding::right_mask(pad)[q] == pad[src[q]],
{
    let gathered = Seq::new(src.len(), |q: int| rows[src[q]]);
    order::lemma_count_bound(pad.len(), padding::real_rows(pad));
    order::lemma_all_values(local, pad.len());
    assert forall|q: int| 0 <= q < pad.len() implies src[q] == local.index_of(q) && 0 <= src[q]
        < pad.len() && local[src[q]] == q by {
        assert(local.contains(q));
        let i = local.index_of(q);
        assert(local[i] == q);
        assert(src[local[i]] == i);
    }
    assert(gathered.take(padding::n_real(pad) as int) =~= slot_sequence(rows, pad, local));
}

/// Read right to left, the sequence of a slot is reversed.
pub proof fn reversed_reverses_the_sequence<T>(rows: Seq<T>, pad: Seq<bool>, local: Seq<int>)
    requires
        padding::orders_slot(pad, local),
        padding::orders_slot(pad, padding::mirrored(pad, local)),
        rows.len() == pad.len(),
    ensures
        slot_sequence(rows, pad, padding::mirrored(pad, local)) == slot_sequence(
            rows,
            pad,
            local,
        ).reverse(),
{
    let sequence = slot_sequence(rows, pad, local);
    let m = padding::mirrored(pad, local);
    assert forall|i: int| 0 <= i < pad.len() && !pad[i] implies sequence.reverse()[#[trigger] m[i]]
        == rows[i] by {
        slot_sequence_holds_real_rows(rows, pad, local, i);
    }
    lemma_slot_sequence_is(rows, pad, m, sequence.reverse());
}

/// The markers that land in a sequence of `len` tokens and that `p` holds at.
pub open spec fn landing_where(
    marks: Seq<Marker>,
    len: int,
    p: spec_fn(int) -> bool,
) -> spec_fn(int) -> bool {
    |i: int| marks[i].lands(len) && p(i)
}

/// The markers of the plan of a whole call, in plan order.
pub open spec fn whole_ids(marks: Seq<Marker>, len: int) -> Seq<int> {
    class::placement_order(marks, len).take(class::landed(marks, len) as int)
}

pub proof fn lemma_whole_ids(marks: Seq<Marker>, len: int)
    requires
        0 <= len <= usize::MAX,
        placement::opens_freely(marks, len),
    ensures
        ({
            let plan = placement::whole(marks, len as usize).plan();
            let ids = whole_ids(marks, len);
            &&& ids.len() == plan.len()
            &&& ids.len() == class::landed(marks, len)
            &&& ids.len() <= marks.len()
            &&& ids.no_duplicates()
            &&& forall|j: int|
                0 <= j < plan.len() ==> (#[trigger] plan[j]) == (
                    marks[ids[j]].depth(len),
                    ids[j],
                )
            &&& forall|j: int|
                0 <= j < ids.len() ==> 0 <= #[trigger] ids[j] < marks.len() && marks[ids[j]].lands(
                    len,
                )
            &&& forall|i: int|
                0 <= i < marks.len() && marks[i].lands(len) ==> #[trigger] ids.contains(i)
        }),
{
    let a = placement::whole(marks, len as usize);
    let o = class::placement_order(marks, len);
    let ids = whole_ids(marks, len);
    order::lemma_count_bound(marks.len(), class::landing(marks, len));
    placement::whole_call_emits_what_lands(marks, len as usize);
    placement::plan_names_places(a);
    class::lemma_placement_order(marks, len);
    assert forall|j: int| 0 <= j < ids.len() implies 0 <= #[trigger] ids[j] < marks.len()
        && marks[ids[j]].lands(len) by {
        placement::lemma_landing_comes_first(marks, len, j);
        assert(ids[j] == o[j]);
    }
    assert forall|i: int| 0 <= i < marks.len() && marks[i].lands(len) implies #[trigger] ids.contains(
        i,
    ) by {
        assert(o.contains(i));
        let r = o.index_of(i);
        placement::lemma_landing_comes_first(marks, len, r);
        assert(ids[r] == i);
    }
}

/// Counting the entries of a whole call over a longer sequence that also land
/// in a shorter one.
proof fn lemma_count_landing(
    marks: Seq<Marker>,
    n: int,
    m: int,
    p: spec_fn(int) -> bool,
)
    requires
        0 <= m <= n <= usize::MAX,
        placement::opens_freely(marks, m),
    ensures
        order::count(
            whole_ids(marks, n).len(),
            order::holds_at(whole_ids(marks, n), landing_where(marks, m, p)),
        ) == order::count(marks.len(), landing_where(marks, m, p)),
{
    let ids = whole_ids(marks, n);
    lemma_whole_ids(marks, n);
    order::lemma_count_values(ids, marks.len(), landing_where(marks, m, p));
    assert forall|i: int| 0 <= i < marks.len() implies #[trigger] order::holds_in(
        ids,
        landing_where(marks, m, p),
    )(i) == landing_where(marks, m, p)(i) by {
        if marks[i].lands(m) {
            assert(marks[i].lands(n));
            assert(ids.contains(i));
        }
    }
    order::lemma_count_ext(
        marks.len(),
        order::holds_in(ids, landing_where(marks, m, p)),
        landing_where(marks, m, p),
    );
}

/// The markers at most `q` tokens deep in a sequence of `len`.
spec fn within(marks: Seq<Marker>, len: int, q: int) -> spec_fn(int) -> bool {
    |i: int| marks[i].depth(len) <= q
}

/// The markers placed before marker `at` in a sequence of `len`.
pub open spec fn placed_before(marks: Seq<Marker>, len: int, at: int) -> spec_fn(int) -> bool {
    |i: int| order::index_lt(class::placement_keys(marks, len), i, at)
}

/// The splice of a whole call into one slot of a batch of `pad.len()` rows.
pub open spec fn whole_splice(
    marks: Seq<Marker>,
    pad: Seq<bool>,
    local: Seq<int>,
) -> SlotSplice {
    SlotSplice {
        pad,
        local,
        plan: placement::whole(marks, pad.len() as usize).plan(),
        marks,
    }
}

/// In a whole call, a batch-wide marker enters its slot where the slot alone
/// would put it.
proof fn lemma_whole_entry(marks: Seq<Marker>, pad: Seq<bool>, local: Seq<int>, j: int)
    requires
        padding::orders_slot(pad, local),
        placement::opens_freely(marks, padding::n_real(pad) as int),
        pad.len() <= usize::MAX,
        0 <= j < whole_splice(marks, pad, local).plan.len(),
    ensures
        ({
            let s = whole_splice(marks, pad, local);
            let id = whole_ids(marks, pad.len() as int)[j];
            let m = padding::n_real(pad) as int;
            &&& s.plan[j].1 == id
            &&& s.present(j) == marks[id].lands(m)
            &&& s.present(j) ==> s.entry(j) == marks[id].depth(m) && s.entry(j) == marks[id].index(
                m,
            )
        }),
{
    let n = pad.len() as int;
    order::lemma_count_bound(pad.len(), padding::real_rows(pad));
    lemma_whole_ids(marks, n);
    let s = whole_splice(marks, pad, local);
    let id = whole_ids(marks, n)[j];
    assert(s.plan[j] == (marks[id].depth(n), id));
}

/// In a whole call, a real row moves to where the slot alone would put it.
proof fn lemma_whole_row(marks: Seq<Marker>, pad: Seq<bool>, local: Seq<int>, q: int)
    requires
        padding::orders_slot(pad, local),
        placement::opens_freely(marks, padding::n_real(pad) as int),
        pad.len() <= usize::MAX,
        0 <= q < padding::n_real(pad),
    ensures
        ({
            let s = whole_splice(marks, pad, local);
            let m = padding::n_real(pad) as int;
            let solo = placement::whole(marks, m as usize).plan();
            q + order::count(s.plan.len(), s.landing_up_to(q)) == splice::row_place(
                splice::plan_ats(solo),
                q,
            )
        }),
{
    let n = pad.len() as int;
    let m = padding::n_real(pad) as int;
    let s = whole_splice(marks, pad, local);
    let solo = placement::whole(marks, m as usize).plan();
    let ats = splice::plan_ats(solo);
    let p = within(marks, m, q);
    let ids_n = whole_ids(marks, n);
    let ids_m = whole_ids(marks, m);
    order::lemma_count_bound(pad.len(), padding::real_rows(pad));
    lemma_whole_ids(marks, n);
    lemma_whole_ids(marks, m);
    lemma_count_landing(marks, n, m, p);
    lemma_count_landing(marks, m, m, p);
    assert forall|j: int| 0 <= j < s.plan.len() implies #[trigger] s.landing_up_to(q)(j)
        == order::holds_at(ids_n, landing_where(marks, m, p))(j) by {
        lemma_whole_entry(marks, pad, local, j);
    }
    order::lemma_count_ext(
        s.plan.len(),
        s.landing_up_to(q),
        order::holds_at(ids_n, landing_where(marks, m, p)),
    );
    assert forall|r: int| 0 <= r < ats.len() implies #[trigger] splice::up_to(ats, q)(r)
        == order::holds_at(ids_m, landing_where(marks, m, p))(r) by {
        assert(solo[r] == (marks[ids_m[r]].depth(m), ids_m[r]));
        assert(0 <= ids_m[r] < marks.len());
    }
    order::lemma_count_ext(
        ats.len(),
        splice::up_to(ats, q),
        order::holds_at(ids_m, landing_where(marks, m, p)),
    );
}

/// In a whole call, a marker that lands moves to where the slot alone would
/// put it.
proof fn lemma_whole_marker(marks: Seq<Marker>, pad: Seq<bool>, local: Seq<int>, j: int) -> (r: int)
    requires
        padding::orders_slot(pad, local),
        placement::opens_freely(marks, padding::n_real(pad) as int),
        pad.len() <= usize::MAX,
        0 <= j < whole_splice(marks, pad, local).plan.len(),
        whole_splice(marks, pad, local).present(j),
    ensures
        ({
            let s = whole_splice(marks, pad, local);
            let m = padding::n_real(pad) as int;
            let solo = placement::whole(marks, m as usize).plan();
            &&& 0 <= r < solo.len()
            &&& solo[r].1 == s.plan[j].1
            &&& s.marker_local(j) == splice::col_place(splice::plan_ats(solo), r)
        }),
{
    let n = pad.len() as int;
    let m = padding::n_real(pad) as int;
    let s = whole_splice(marks, pad, local);
    let solo = placement::whole(marks, m as usize).plan();
    let ids_n = whole_ids(marks, n);
    let ids_m = whole_ids(marks, m);
    let o = class::placement_order(marks, m);
    let keys = class::placement_keys(marks, m);
    let id = ids_n[j];
    let p = placed_before(marks, m, id);
    order::lemma_count_bound(pad.len(), padding::real_rows(pad));
    lemma_whole_ids(marks, n);
    lemma_whole_ids(marks, m);
    class::lemma_placement_order(marks, m);
    lemma_whole_entry(marks, pad, local, j);
    assert(ids_m.contains(id));
    let r = ids_m.index_of(id);
    assert(solo[r] == (marks[id].depth(m), id));
    assert forall|i: int| 0 <= i < s.plan.len() implies #[trigger] s.landing_before(j)(i)
        == order::holds_at(ids_n, landing_where(marks, m, p))(i) by {
        lemma_whole_entry(marks, pad, local, i);
        let other = ids_n[i];
        assert(s.kinds()[i] == (marks[other].rank(), other));
        assert(s.kinds()[j] == (marks[id].rank(), id));
        assert(keys[other] == (marks[other].index(m), marks[other].rank()));
        assert(keys[id] == (marks[id].index(m), marks[id].rank()));
        if other == id {
            assert(i == j);
        }
    }
    order::lemma_count_ext(
        s.plan.len(),
        s.landing_before(j),
        order::holds_at(ids_n, landing_where(marks, m, p)),
    );
    lemma_count_landing(marks, n, m, p);
    let first = o.take(r);
    assert forall|i: int| 0 <= i < marks.len() && #[trigger] landing_where(marks, m, p)(
        i,
    ) implies first.contains(i) by {
        assert(o.contains(i));
        let x = o.index_of(i);
        if x >= r {
            assert(o[r] == id);
            if x > r {
                assert(order::index_lt(keys, o[r], o[x]));
            }
            assert(false);
        }
        assert(first[x] == i);
    }
    assert forall|x: int| 0 <= x < first.len() implies 0 <= #[trigger] first[x] < marks.len()
        && landing_where(marks, m, p)(first[x]) by {
        assert(ids_m[x] == first[x]);
        assert(o[r] == id);
        assert(order::index_lt(keys, o[x], o[r]));
    }
    order::lemma_count_is_len(marks.len(), landing_where(marks, m, p), first);
    r
}

/// A padded call over whole sequences is each slot alone: after the splice of
/// one batch-wide plan, the sequence of every slot is what the slot's own
/// sequence becomes when its own plan is spliced into it. It holds for any
/// order the slots are in, so it holds level after level.
pub proof fn whole_splice_is_each_slot_alone<T>(
    marks: Seq<Marker>,
    pad: Seq<bool>,
    local: Seq<int>,
    rows: Seq<T>,
    row_of: spec_fn(int) -> T,
)
    requires
        padding::orders_slot(pad, local),
        rows.len() == pad.len(),
        placement::opens_freely(marks, padding::n_real(pad) as int),
        pad.len() <= usize::MAX,
    ensures
        ({
            let s = whole_splice(marks, pad, local);
            slot_sequence(
                splice::spliced_plan(rows, s.plan, row_of),
                s.spliced_pad(),
                s.spliced_local(),
            ) == splice::spliced_plan(
                slot_sequence(rows, pad, local),
                placement::whole(marks, padding::n_real(pad) as usize).plan(),
                row_of,
            )
        }),
{
    let n = pad.len() as int;
    let m = padding::n_real(pad) as int;
    let s = whole_splice(marks, pad, local);
    let solo = placement::whole(marks, m as usize).plan();
    let solo_ats = splice::plan_ats(solo);
    let solo_cols = splice::plan_cols(solo, row_of);
    let ats = splice::plan_ats(s.plan);
    let cols = splice::plan_cols(s.plan, row_of);
    let absent = Seq::new(s.plan.len(), |j: int| !s.present(j));
    let row_locals = Seq::new(pad.len(), |i: int| s.row_local(i));
    let marker_locals = Seq::new(s.plan.len(), |j: int| s.marker_local(j));
    let sequence = slot_sequence(rows, pad, local);
    let out_rows = splice::spliced_plan(rows, s.plan, row_of);
    let out = splice::spliced_plan(sequence, solo, row_of);
    order::lemma_count_bound(pad.len(), padding::real_rows(pad));
    placement::plan_names_places(placement::whole(marks, n as usize));
    placement::plan_names_places(placement::whole(marks, m as usize));
    s.lemma_keeps_order();
    splice::lemma_spliced_len(rows, ats, cols);
    splice::lemma_spliced_len(sequence, solo_ats, solo_cols);
    lemma_landed_is_solo(marks, pad, local);
    assert forall|x: int| 0 <= x < s.spliced_pad().len() && !s.spliced_pad()[x] implies out[
        #[trigger] s.spliced_local()[x]] == out_rows[x] by {
        match splice::lemma_spliced_cover(ats, n, x) {
            Ok(i) => {
                splice::lemma_spliced_row(pad, ats, absent, i);
                splice::lemma_spliced_row(row_locals, ats, marker_locals, i);
                splice::lemma_spliced_row(rows, ats, cols, i);
                slot_sequence_holds_real_rows(rows, pad, local, i);
                lemma_whole_row(marks, pad, local, local[i]);
                splice::lemma_spliced_row(sequence, solo_ats, solo_cols, local[i]);
            },
            Err(j) => {
                splice::lemma_spliced_col(pad, ats, absent, j);
                splice::lemma_spliced_col(row_locals, ats, marker_locals, j);
                splice::lemma_spliced_col(rows, ats, cols, j);
                let r = lemma_whole_marker(marks, pad, local, j);
                splice::lemma_spliced_col(sequence, solo_ats, solo_cols, r);
            },
        }
    }
    lemma_slot_sequence_is(out_rows, s.spliced_pad(), s.spliced_local(), out);
}

/// A slot without real rows takes no row from a splice that puts no `End` into
/// it.
pub proof fn lemma_empty_slot_stays_empty(s: SlotSplice)
    requires
        s.wf(),
        s.len() == 0,
        forall|j: int| 0 <= j < s.plan.len() ==> !((#[trigger] s.mark(j)) is End),
    ensures
        padding::n_real(s.spliced_pad()) == 0,
{
    s.lemma_keeps_order();
    assert forall|j: int| 0 <= j < s.plan.len() implies !#[trigger] s.landing()(j) by {
        s.lemma_entry(j);
        assert(!(s.mark(j) is End));
        assert(splice::plan_ats(s.plan)[j] == s.plan[j].0);
    }
    order::lemma_count_none(s.plan.len(), s.landing());
}

/// As many markers land in a slot of the batch as in the slot alone.
proof fn lemma_landed_is_solo(marks: Seq<Marker>, pad: Seq<bool>, local: Seq<int>)
    requires
        padding::orders_slot(pad, local),
        placement::opens_freely(marks, padding::n_real(pad) as int),
        pad.len() <= usize::MAX,
    ensures
        whole_splice(marks, pad, local).landed() == placement::whole(
            marks,
            padding::n_real(pad) as usize,
        ).plan().len(),
{
    let n = pad.len() as int;
    let m = padding::n_real(pad) as int;
    let s = whole_splice(marks, pad, local);
    let every = |i: int| true;
    let ids_n = whole_ids(marks, n);
    order::lemma_count_bound(pad.len(), padding::real_rows(pad));
    lemma_whole_ids(marks, n);
    lemma_whole_ids(marks, m);
    lemma_count_landing(marks, n, m, every);
    assert forall|j: int| 0 <= j < s.plan.len() implies #[trigger] s.landing()(j)
        == order::holds_at(ids_n, landing_where(marks, m, every))(j) by {
        lemma_whole_entry(marks, pad, local, j);
    }
    order::lemma_count_ext(
        s.plan.len(),
        s.landing(),
        order::holds_at(ids_n, landing_where(marks, m, every)),
    );
    order::lemma_count_ext(
        marks.len(),
        landing_where(marks, m, every),
        class::landing(marks, m),
    );
}

/// A row that no marker moves is where the batch-wide order puts it.
proof fn lemma_unmoved(marks: Seq<Marker>, pad: Seq<bool>, x: int)
    requires
        padding::orders_slot(pad, order::indices(pad.len())),
        placement::opens_freely(marks, padding::n_real(pad) as int),
        pad.len() <= usize::MAX,
        !padding::moves(placement::whole(marks, pad.len() as usize).plan(), marks),
        0 <= x < whole_splice(marks, pad, order::indices(pad.len())).spliced_pad().len(),
        !whole_splice(marks, pad, order::indices(pad.len())).spliced_pad()[x],
    ensures
        whole_splice(marks, pad, order::indices(pad.len())).spliced_local()[x] == x,
{
    let n = pad.len() as int;
    let local = order::indices(pad.len());
    let s = whole_splice(marks, pad, local);
    let k = s.plan.len();
    let ats = splice::plan_ats(s.plan);
    let absent = Seq::new(k, |j: int| !s.present(j));
    let row_locals = Seq::new(pad.len(), |i: int| s.row_local(i));
    let marker_locals = Seq::new(k, |j: int| s.marker_local(j));
    let ids = whole_ids(marks, n);
    let o = class::placement_order(marks, n);
    let keys = class::placement_keys(marks, n);
    order::lemma_count_bound(pad.len(), padding::real_rows(pad));
    placement::plan_names_places(placement::whole(marks, n as usize));
    class::lemma_placement_order(marks, n);
    lemma_whole_ids(marks, n);
    s.lemma_keeps_order();
    assert forall|j: int| 0 <= j < k implies !(#[trigger] s.mark(j)).is_relative() by {
        assert(!marks[s.plan[j].1].is_relative());
    }
    match splice::lemma_spliced_cover(ats, n, x) {
        Ok(i) => {
            splice::lemma_spliced_row(pad, ats, absent, i);
            splice::lemma_spliced_row(row_locals, ats, marker_locals, i);
            assert(local[i] == i);
            assert forall|j: int| 0 <= j < k implies #[trigger] splice::up_to(ats, i)(j)
                == s.landing_up_to(i)(j) by {
                assert(!s.mark(j).is_relative());
            }
            order::lemma_count_ext(k, splice::up_to(ats, i), s.landing_up_to(i));
        },
        Err(j) => {
            splice::lemma_spliced_col(pad, ats, absent, j);
            splice::lemma_spliced_col(row_locals, ats, marker_locals, j);
            assert(!s.mark(j).is_relative());
            assert(s.plan[j] == (marks[ids[j]].depth(n), ids[j]));
            assert forall|i: int| 0 <= i < k implies #[trigger] s.landing_before(j)(i)
                == order::below(j)(i) by {
                assert(!s.mark(i).is_relative());
                assert(s.plan[i] == (marks[ids[i]].depth(n), ids[i]));
                assert(s.kinds()[i] == (marks[ids[i]].rank(), ids[i]));
                assert(s.kinds()[j] == (marks[ids[j]].rank(), ids[j]));
                assert(keys[ids[i]] == (marks[ids[i]].index(n), marks[ids[i]].rank()));
                assert(keys[ids[j]] == (marks[ids[j]].index(n), marks[ids[j]].rank()));
                if i < j {
                    assert(order::index_lt(keys, o[i], o[j]));
                    assert(ats[i] <= ats[j]);
                } else if j < i {
                    assert(order::index_lt(keys, o[j], o[i]));
                    assert(ats[j] <= ats[i]);
                }
            }
            order::lemma_count_ext(k, s.landing_before(j), order::below(j));
            order::lemma_count_below(k, j);
        },
    }
}

/// [`whole_splice_is_each_slot_alone`] for the padding that a splice returns.
pub proof fn padded_splice_is_each_slot_alone<T>(
    before: Padding,
    after: Padding,
    marks: Seq<Marker>,
    b: int,
    rows: Seq<T>,
    row_of: spec_fn(int) -> T,
)
    requires
        before.wf(),
        after.wf(),
        before.rows() <= usize::MAX,
        before.splices_to(
            placement::whole(marks, before.rows() as usize).plan(),
            marks,
            after,
        ),
        0 <= b < before.batch(),
        rows.len() == before.rows(),
        placement::settles(marks, padding::n_real(before.pad(b)) as int),
    ensures
        slot_sequence(
            splice::spliced_plan(
                rows,
                placement::whole(marks, before.rows() as usize).plan(),
                row_of,
            ),
            after.pad(b),
            after.local(b),
        ) == splice::spliced_plan(
            slot_sequence(rows, before.pad(b), before.local(b)),
            placement::whole(marks, padding::n_real(before.pad(b)) as usize).plan(),
            row_of,
        ),
        padding::n_real(after.pad(b)) >= padding::n_real(before.pad(b)),
{
    let pad = before.pad(b);
    let local = before.local(b);
    let s = whole_splice(marks, pad, local);
    assert(padding::orders_slot(pad, local));
    assert(pad.len() == before.rows()) by {
        assert(before.pad_bs@[b]@.len() == before.rows());
    }
    assert(before.slot(s.plan, marks, b) == s);
    placement::plan_names_places(placement::whole(marks, pad.len() as usize));
    s.lemma_keeps_order();
    assert(after.pad(b) == s.spliced_pad());
    if !placement::opens_freely(marks, padding::n_real(pad) as int) {
        placement::plan_names_markers(placement::whole(marks, pad.len() as usize));
        assert forall|j: int| 0 <= j < s.plan.len() implies !((#[trigger] s.mark(j)) is End) by {
            assert(0 <= s.plan[j].1 < marks.len());
        }
        lemma_empty_slot_stays_empty(s);
        placement::nothing_lands_in_an_empty_sequence(marks);
        assert(splice::spliced_plan(
            slot_sequence(rows, pad, local),
            placement::whole(marks, 0).plan(),
            row_of,
        ) =~= Seq::<T>::empty());
    } else {
        whole_splice_is_each_slot_alone(marks, pad, local, rows, row_of);
    }
    if after.local_bs is Some || !placement::opens_freely(marks, padding::n_real(pad) as int) {
        assert(after.local_bs is Some ==> after.local(b) == s.spliced_local());
    } else {
        let out_rows = splice::spliced_plan(rows, s.plan, row_of);
        let sequence = slot_sequence(out_rows, s.spliced_pad(), s.spliced_local());
        splice::lemma_spliced_len(
            rows,
            splice::plan_ats(s.plan),
            splice::plan_cols(s.plan, row_of),
        );
        assert(padding::orders_slot(after.pad(b), after.local(b)));
        assert forall|x: int|
            0 <= x < after.pad(b).len() && !after.pad(b)[x] implies sequence[#[trigger] after.local(
            b,
        )[x]] == out_rows[x] by {
            lemma_unmoved(marks, pad, x);
            slot_sequence_holds_real_rows(out_rows, s.spliced_pad(), s.spliced_local(), x);
        }
        lemma_slot_sequence_is(out_rows, after.pad(b), after.local(b), sequence);
    }
}

/// Where a marker enters a slot, and whether it lands there. A `Middle` halves the
/// sequence of the slot and an `End` closes it, whatever the batch-wide place. The
/// others keep the place that the plan gives them, and land only before a row of the
/// slot.
pub proof fn a_marker_enters_each_slot_where_it_says(s: SlotSplice, j: int)
    requires
        0 <= j < s.plan.len(),
    ensures
        ({
            let n = padding::n_real(s.pad) as int;
            let p = s.entry(j);
            match s.marks[s.plan[j].1] {
                Marker::End => p == n && s.present(j),
                Marker::Middle => 2 * p <= n < 2 * p + 2 && s.present(j) == (n > 0),
                _ => p == s.plan[j].0 && s.present(j) == (p < n),
            }
        }),
{
}

/// A slot whose first `n` rows are real, and no others, has `n` real rows.
pub proof fn a_right_padded_slot_has_its_first_rows(pad: Seq<bool>, n: int)
    requires
        0 <= n <= pad.len(),
        forall|i: int| 0 <= i < pad.len() ==> #[trigger] pad[i] == (i >= n),
    ensures
        padding::n_real(pad) == n,
        padding::slot_right_padded(pad),
{
    order::lemma_count_ext(pad.len(), padding::real_rows(pad), order::below(n));
    order::lemma_count_below(pad.len(), n);
}

/// Of a slot in its own order, the real rows take the first places and the padding
/// the places behind them.
pub proof fn a_slot_in_order_has_its_padding_last(pad: Seq<bool>, local: Seq<int>, i: int, j: int)
    requires
        padding::orders_slot(pad, local),
        0 <= i < pad.len(),
        0 <= j < pad.len(),
        !pad[i],
        pad[j],
    ensures
        0 <= local[i] < local[j] < pad.len(),
{
}

/// The padding of a slot keeps its order under a splice, behind everything that
/// lands, and the markers that do not land follow it in the order of the plan.
pub proof fn a_splice_keeps_the_padding_last(s: SlotSplice, a: int, b: int, j: int, k: int)
    requires
        s.wf(),
        0 <= a < s.pad.len(),
        0 <= b < s.pad.len(),
        s.pad[a],
        s.pad[b],
        0 <= j < k < s.plan.len(),
        !s.present(j),
        !s.present(k),
    ensures
        s.row_local(b) - s.row_local(a) == s.local[b] - s.local[a],
        s.row_local(a) < s.marker_local(j) < s.marker_local(k),
{
    order::lemma_count_le(s.plan.len(), s.absent_before(j), s.absent_before(k));
    order::lemma_count_lt(s.plan.len(), s.absent_before(j), s.absent_before(k), j);
}

/// A batch is right-padded where its slots are of one length, and in each of them no real
/// row follows a padded one.
pub proof fn no_real_row_follows_padding(pad_bs: Seq<Vec<bool>>)
    ensures
        padding::is_right_padded(pad_bs) == ((forall|a: int, b: int|
            0 <= a < pad_bs.len() && 0 <= b < pad_bs.len() ==> (#[trigger] pad_bs[a])@.len() == (
            #[trigger] pad_bs[b])@.len()) && (forall|b: int, i: int|
            0 <= b < pad_bs.len() && 0 <= i && i + 1 < pad_bs[b]@.len() && #[trigger] pad_bs[b]@[i]
                ==> pad_bs[b]@[i + 1])),
{
    if padding::is_right_padded(pad_bs) {
        assert forall|b: int, i: int|
            0 <= b < pad_bs.len() && 0 <= i && i + 1 < pad_bs[b]@.len()
                && #[trigger] pad_bs[b]@[i] implies pad_bs[b]@[i + 1] by {
            assert(padding::slot_right_padded(pad_bs[b]@));
        }
    }
    if (forall|a: int, b: int|
        0 <= a < pad_bs.len() && 0 <= b < pad_bs.len() ==> (#[trigger] pad_bs[a])@.len() == (
        #[trigger] pad_bs[b])@.len()) && (forall|b: int, i: int|
        0 <= b < pad_bs.len() && 0 <= i && i + 1 < pad_bs[b]@.len() && #[trigger] pad_bs[b]@[i]
            ==> pad_bs[b]@[i + 1]) {
        assert forall|b: int| 0 <= b < pad_bs.len() implies padding::slot_right_padded(
            (#[trigger] pad_bs[b])@,
        ) by {
            let pad = pad_bs[b]@;
            assert forall|i: int, j: int|
                0 <= i < j < pad.len() && #[trigger] pad[i] implies #[trigger] pad[j] by {
                lemma_padding_goes_on(pad, i, j);
            }
        }
        assert forall|b: int| 0 <= b < pad_bs.len() implies (#[trigger] pad_bs[b])@.len()
            == pad_bs[0]@.len() by {}
    }
}

proof fn lemma_padding_goes_on(pad: Seq<bool>, i: int, j: int)
    requires
        0 <= i <= j < pad.len(),
        pad[i],
        forall|k: int| 0 <= k && k + 1 < pad.len() && #[trigger] pad[k] ==> pad[k + 1],
    ensures
        pad[j],
    decreases j - i,
{
    if i < j {
        lemma_padding_goes_on(pad, i, j - 1);
    }
}

/// A batch has as many slots as masks, and as many rows as each of them.
pub proof fn a_batch_has_its_slots_and_rows(p: Padding, b: int, i: int)
    requires
        p.wf(),
        0 <= b < p.batch(),
        0 <= i < p.rows(),
    ensures
        p.batch() == p.pad_bs@.len(),
        p.rows() == p.pad_bs@[b]@.len(),
        p.pad(b)[i] == p.pad_bs@[b]@[i],
        p.local_bs is None ==> p.local(b)[i] == i,
        p.local_bs matches Some(local) ==> p.local(b)[i] == local@[b]@[i],
{
    assert(padding::orders_slot(p.pad(b), p.local(b)));
    assert(p.pad_bs@[b]@.len() == p.rows());
}

/// A splice leaves the batch-wide order that of every slot where it was, and no marker
/// moves: every one of them is a `Start` or a `Custom`.
pub proof fn only_a_middle_or_an_end_moves_a_row(
    before: Padding,
    after: Padding,
    plan: Seq<(int, int)>,
    marks: Seq<Marker>,
)
    requires
        before.splices_to(plan, marks, after),
    ensures
        after.batch() == before.batch(),
        after.batch() > 0 ==> after.rows() == before.rows() + plan.len(),
        after.local_bs is None == (before.local_bs is None && forall|j: int|
            0 <= j < plan.len() ==> !(marks[(#[trigger] plan[j]).1] is Middle
                || marks[plan[j].1] is End)),
{
    if padding::moves(plan, marks) {
        let j = choose|j: int|
            0 <= j < plan.len() && marks[(#[trigger] plan[j]).1].is_relative();
        assert(marks[plan[j].1] is Middle || marks[plan[j].1] is End);
    } else {
        assert forall|j: int| 0 <= j < plan.len() implies !(marks[(#[trigger] plan[j]).1] is Middle
            || marks[plan[j].1] is End) by {
            assert(!marks[plan[j].1].is_relative());
        }
    }
}

/// Which plans can be spliced: those that name places of the slots in order, and markers
/// that exist, and a `Middle` only where the call is the whole sequence.
pub proof fn a_plan_can_be_spliced(
    plan: Seq<(int, int)>,
    marks: Seq<Marker>,
    rows: int,
    whole: bool,
    i: int,
    j: int,
)
    requires
        0 <= i < j < plan.len(),
    ensures
        padding::spliceable(plan, marks, rows, whole) ==> 0 <= plan[i].0 <= plan[j].0 <= rows && 0
            <= plan[i].1 < marks.len() && (whole || !(marks[plan[i].1] is Middle)),
        (forall|k: int| 0 <= k < plan.len() ==> 0 <= (#[trigger] plan[k]).0 <= rows) && (forall|
            k: int,
            l: int,
        |
            0 <= k <= l < plan.len() ==> (#[trigger] plan[k]).0 <= (#[trigger] plan[l]).0) && (
        forall|k: int| 0 <= k < plan.len() ==> 0 <= (#[trigger] plan[k]).1 < marks.len()) && rows
            + plan.len() <= usize::MAX && (whole || forall|k: int|
            0 <= k < plan.len() ==> !(marks[(#[trigger] plan[k]).1] is Middle))
            ==> padding::spliceable(plan, marks, rows, whole),
{
    let ats = splice::plan_ats(plan);
    if padding::spliceable(plan, marks, rows, whole) {
        assert(0 <= ats[i] <= ats[j] <= rows);
        assert(0 <= plan[i].1 < marks.len());
    }
}

/// Read right to left, the real rows of a slot swap their places end for end, and its
/// padding stays where it is.
pub proof fn a_slot_read_backwards_keeps_its_padding(pad: Seq<bool>, local: Seq<int>, i: int)
    requires
        padding::orders_slot(pad, local),
        0 <= i < pad.len(),
    ensures
        padding::mirrored(pad, local).len() == pad.len(),
        pad[i] ==> padding::mirrored(pad, local)[i] == local[i],
        !pad[i] ==> padding::mirrored(pad, local)[i] + local[i] + 1 == padding::n_real(pad),
{
}

} // verus!
