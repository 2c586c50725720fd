//! What a padded batch keeps when its sequences are split into chunks.
//!
//! A slot that ends early carries its state through the later chunks untouched.
//! Its `End` lands in the last of them, which closes the batch.
use crate::utils::class;
use crate::utils::class::laws as placement;
use crate::utils::class::splice;
use crate::utils::class::{Marker, Placement};
use crate::utils::order;
use crate::utils::padding;
use crate::utils::padding::laws;
use crate::utils::padding::{Padding, SlotSplice};
use vstd::prelude::*;

verus! {

/// Whether `js` lists the entries that land in a slot, in the order of the
/// slot.
pub open spec fn is_slot_order(s: SlotSplice, js: Seq<int>) -> bool {
    &&& js.no_duplicates()
    &&& forall|r: int|
        0 <= r < js.len() ==> 0 <= #[trigger] js[r] < s.plan.len() && s.present(js[r])
    &&& forall|j: int| 0 <= j < s.plan.len() && #[trigger] s.present(j) ==> js.contains(j)
    &&& forall|x: int, y: int|
        0 <= x < y < js.len() ==> s.precedes(#[trigger] js[x], #[trigger] js[y])
}

/// The plan of the entries that land in a slot, as the slot alone would have
/// it.
pub open spec fn slot_plan(s: SlotSplice, js: Seq<int>) -> Seq<(int, int)> {
    js.map_values(|j: int| (s.entry(j), s.plan[j].1))
}

/// The plan of a slot names its places in order, and counts like the splice.
proof fn lemma_slot_plan(s: SlotSplice, js: Seq<int>)
    requires
        s.wf(),
        is_slot_order(s, js),
    ensures
        splice::places(splice::plan_ats(slot_plan(s, js)), s.len()),
        s.landed() == js.len(),
        forall|r: int|
            0 <= r < js.len() ==> order::count(
                s.plan.len(),
                #[trigger] s.landing_before(js[r]),
            ) == r,
        forall|q: int|
            order::count(s.plan.len(), #[trigger] s.landing_up_to(q)) == order::count(
                js.len(),
                splice::up_to(splice::plan_ats(slot_plan(s, js)), q),
            ),
{
    let k = s.plan.len();
    let ats = splice::plan_ats(slot_plan(s, js));
    assert forall|r: int| 0 <= r < ats.len() implies 0 <= #[trigger] ats[r] <= s.len() by {
        s.lemma_entry(js[r]);
    }
    assert forall|x: int, y: int| 0 <= x <= y < ats.len() implies #[trigger] ats[x]
        <= #[trigger] ats[y] by {
        if x < y {
            assert(s.precedes(js[x], js[y]));
        }
    }
    order::lemma_count_is_len(k, s.landing(), js);
    assert forall|r: int| 0 <= r < js.len() implies order::count(
        k,
        #[trigger] s.landing_before(js[r]),
    ) == r by {
        let first = js.take(r);
        assert forall|i: int| 0 <= i < k && s.landing_before(js[r])(i) implies first.contains(
            i,
        ) by {
            assert(s.present(i));
            let x = js.index_of(i);
            assert(js[x] == i);
            if x > r {
                assert(s.precedes(js[r], js[x]));
                assert(false);
            }
            if x == r {
                assert(false);
            }
            assert(first[x] == i);
        }
        assert forall|x: int| 0 <= x < first.len() implies 0 <= #[trigger] first[x] < k
            && s.landing_before(js[r])(first[x]) by {
            assert(s.precedes(js[x], js[r]));
        }
        order::lemma_count_is_len(k, s.landing_before(js[r]), first);
    }
    assert forall|q: int| order::count(k, #[trigger] s.landing_up_to(q)) == order::count(
        js.len(),
        splice::up_to(ats, q),
    ) by {
        let p = s.landing_up_to(q);
        order::lemma_count_values(js, k, p);
        assert forall|i: int| 0 <= i < k implies #[trigger] order::holds_in(js, p)(i) == p(i) by {
            if p(i) {
                assert(s.present(i));
            }
        }
        order::lemma_count_ext(k, order::holds_in(js, p), p);
        assert forall|r: int| 0 <= r < js.len() implies #[trigger] order::holds_at(js, p)(r)
            == splice::up_to(ats, q)(r) by {
            assert(s.present(js[r]));
        }
        order::lemma_count_ext(js.len(), order::holds_at(js, p), splice::up_to(ats, q));
    }
}

/// After a splice, the sequence of a slot is its sequence with its own plan
/// spliced in.
pub proof fn splice_is_the_plan_of_the_slot<T>(
    s: SlotSplice,
    js: Seq<int>,
    rows: Seq<T>,
    row_of: spec_fn(int) -> T,
)
    requires
        s.wf(),
        is_slot_order(s, js),
        rows.len() == s.pad.len(),
    ensures
        laws::slot_sequence(
            splice::spliced_plan(rows, s.plan, row_of),
            s.spliced_pad(),
            s.spliced_local(),
        ) == splice::spliced_plan(
            laws::slot_sequence(rows, s.pad, s.local),
            slot_plan(s, js),
            row_of,
        ),
{
    let n = s.pad.len() as int;
    let own = slot_plan(s, js);
    let own_ats = splice::plan_ats(own);
    let own_cols = splice::plan_cols(own, row_of);
    let ats = splice::plan_ats(s.plan);
    let cols = splice::plan_cols(s.plan, row_of);
    let absent = Seq::new(s.plan.len(), |j: int| !s.present(j));
    let row_locals = Seq::new(s.pad.len(), |i: int| s.row_local(i));
    let marker_locals = Seq::new(s.plan.len(), |j: int| s.marker_local(j));
    let sequence = laws::slot_sequence(rows, s.pad, s.local);
    let out_rows = splice::spliced_plan(rows, s.plan, row_of);
    let out = splice::spliced_plan(sequence, own, row_of);
    order::lemma_count_bound(s.pad.len(), padding::real_rows(s.pad));
    s.lemma_keeps_order();
    lemma_slot_plan(s, js);
    splice::lemma_spliced_len(rows, ats, cols);
    splice::lemma_spliced_len(sequence, own_ats, own_cols);
    assert forall|x: int| 0 <= x < s.spliced_pad().len() && !s.spliced_pad()[x] implies out[
        #[trigger] s.spliced_local()[x]] == out_rows[x] by {
        match splice::lemma_spliced_cover(ats, n, x) {
            Ok(i) => {
                splice::lemma_spliced_row(s.pad, ats, absent, i);
                splice::lemma_spliced_row(row_locals, ats, marker_locals, i);
                splice::lemma_spliced_row(rows, ats, cols, i);
                laws::slot_sequence_holds_real_rows(rows, s.pad, s.local, i);
                let q = s.local[i];
                assert(order::count(s.plan.len(), s.landing_up_to(q)) == order::count(
                    js.len(),
                    splice::up_to(own_ats, q),
                ));
                splice::lemma_spliced_row(sequence, own_ats, own_cols, q);
            },
            Err(j) => {
                splice::lemma_spliced_col(s.pad, ats, absent, j);
                splice::lemma_spliced_col(row_locals, ats, marker_locals, j);
                splice::lemma_spliced_col(rows, ats, cols, j);
                assert(s.present(j));
                let r = js.index_of(j);
                assert(js[r] == j);
                assert(order::count(s.plan.len(), s.landing_before(js[r])) == r);
                splice::lemma_spliced_col(sequence, own_ats, own_cols, r);
            },
        }
    }
    laws::lemma_slot_sequence_is(out_rows, s.spliced_pad(), s.spliced_local(), out);
}

/// The first of two chunks of a sequence of `first + rest` rows.
pub open spec fn first_call(marks: Seq<Marker>, first: int, rest: int) -> Placement {
    Placement {
        marks,
        full_len: Some((first + rest) as usize),
        offset: 0,
        chunk: first,
        prime: false,
    }
}

/// The second of them.
pub open spec fn rest_call(marks: Seq<Marker>, first: int, rest: int) -> Placement {
    placement::after(first_call(marks, first, rest), rest, false)
}

/// Whether a `Custom(k)` sits in the sequence of a slot where the slot alone
/// would put it, when the sequence is split into chunks. `first` are the rows of
/// the first chunk, and the slot has `mine` real rows in it, and `rest` in the
/// second. It fails only where the slot ended in the first chunk, and has rows
/// in the second all the same: an `End` of a level below.
pub open spec fn custom_stays(k: int, first: int, mine: int, rest: int) -> bool {
    mine == first || !(mine <= k < mine + rest || first <= k < first + rest)
}

/// Whether every marker of a level sits where each slot alone would put it, when
/// the sequence is split into chunks. A `Middle` needs the whole sequence. A
/// `Start` opens the first row of the batch, so it needs one of the slot there,
/// unless the slot has none at all.
pub open spec fn stays(marks: Seq<Marker>, first: int, mine: int, rest: int) -> bool {
    forall|i: int|
        0 <= i < marks.len() ==> match #[trigger] marks[i] {
            Marker::Middle => false,
            Marker::Custom(k) => custom_stays(k as int, first, mine, rest),
            Marker::Start => mine > 0 || rest == 0,
            Marker::End => true,
        }
}

/// Whether no marker sits at half of the sequence.
pub open spec fn halves_nothing(marks: Seq<Marker>) -> bool {
    forall|i: int| 0 <= i < marks.len() ==> !((#[trigger] marks[i]) is Middle)
}

/// The first `p` rows of a sequence of `n`, in one call.
pub open spec fn so_far(marks: Seq<Marker>, n: int, p: int) -> Placement {
    Placement { marks, full_len: Some(n as usize), offset: 0, chunk: p, prime: false }
}

/// Nothing is emitted before the first row.
pub proof fn lemma_nothing_yet(marks: Seq<Marker>, n: int)
    requires
        0 < n <= usize::MAX,
    ensures
        so_far(marks, n, 0).plan().len() == 0,
        so_far(marks, n, 0).next_offset() == 0,
{
    let a = so_far(marks, n, 0);
    a.lemma_emitted();
    a.lemma_stop(0);
    class::lemma_placement_order(marks, n);
    if a.stop() > 0 {
        assert(a.due(0));
        assert(class::tokens_before(marks, n, 0) >= 0);
    }
}

/// The splice into one slot of the chunk that follows the first `at` rows of a
/// sequence of `n`.
pub open spec fn open_splice(
    marks: Seq<Marker>,
    n: int,
    at: int,
    pad: Seq<bool>,
    local: Seq<int>,
) -> SlotSplice {
    SlotSplice {
        pad,
        local,
        plan: placement::after(so_far(marks, n, at), pad.len() as int, false).plan(),
        marks,
    }
}

/// A chunk that closes no sequence puts its markers into a slot in the order of
/// its plan, and those that precede a row of the slot land there.
proof fn lemma_open_chunk(
    marks: Seq<Marker>,
    n: int,
    at: int,
    pad: Seq<bool>,
    local: Seq<int>,
)
    requires
        padding::orders_slot(pad, local),
        halves_nothing(marks),
        0 <= at,
        at + pad.len() < n <= usize::MAX,
    ensures
        ({
            let s = open_splice(marks, n, at, pad, local);
            &&& s.wf()
            &&& is_slot_order(s, order::indices(s.landed()))
            &&& s.landed() <= s.plan.len()
            &&& forall|x: int, y: int|
                0 <= x < y < s.plan.len() ==> #[trigger] s.precedes(x, y)
            &&& forall|j: int| 0 <= j < s.plan.len() ==> !(#[trigger] s.mark(j)).is_relative()
            &&& forall|j: int|
                0 <= j < s.plan.len() ==> #[trigger] s.present(j) == (j < s.landed())
            &&& slot_plan(s, order::indices(s.landed())) == placement::after(
                so_far(marks, n, at),
                s.len(),
                false,
            ).plan()
        }),
{
    let a = so_far(marks, n, at);
    let s = open_splice(marks, n, at, pad, local);
    let call = placement::after(a, pad.len() as int, false);
    let own = placement::after(a, s.len(), false);
    let o = class::placement_order(marks, n);
    let keys = class::placement_keys(marks, n);
    let k = s.plan.len();
    let ats = splice::plan_ats(s.plan);
    order::lemma_count_bound(pad.len(), padding::real_rows(pad));
    a.lemma_emitted();
    placement::plan_names_places(a);
    placement::plan_names_places(call);
    placement::plan_names_places(own);
    placement::lemma_resumes(a, call);
    placement::lemma_resumes(a, own);
    class::lemma_placement_order(marks, n);
    let e = a.stop();
    call.lemma_stop(e);
    own.lemma_stop(e);
    assert forall|j: int| 0 <= j < k implies !(#[trigger] s.mark(j)).is_relative() && s.plan[j]
        == (marks[o[e + j]].depth(n) - at, o[e + j]) by {
        assert(call.due(e + j));
        assert(0 <= o[e + j] < marks.len());
        assert(call.at(e + j) == marks[o[e + j]].depth(n) - at);
        assert(!(marks[o[e + j]] is Middle));
    }
    assert forall|x: int, y: int| 0 <= x < y < k && #[trigger] s.landing()(
        y,
    ) implies #[trigger] s.landing()(x) by {
        assert(ats[x] <= ats[y]);
        assert(!s.mark(x).is_relative());
        assert(!s.mark(y).is_relative());
    }
    order::lemma_count_downward(k, s.landing());
    order::lemma_count_bound(k, s.landing());
    assert forall|x: int, y: int| 0 <= x < y < k implies #[trigger] s.precedes(x, y) by {
        assert(order::index_lt(keys, o[e + x], o[e + y]));
        assert(keys[o[e + x]] == (marks[o[e + x]].index(n), marks[o[e + x]].rank()));
        assert(keys[o[e + y]] == (marks[o[e + y]].index(n), marks[o[e + y]].rank()));
        assert(!s.mark(x).is_relative());
        assert(!s.mark(y).is_relative());
        assert(ats[x] <= ats[y]);
        assert(call.due(e + x));
        assert(call.due(e + y));
        assert(s.kinds()[x] == (s.mark(x).rank(), o[e + x]));
        assert(s.kinds()[y] == (s.mark(y).rank(), o[e + y]));
    }
    let js = order::indices(s.landed());
    assert forall|j: int| 0 <= j < k implies #[trigger] s.present(j) == (j < s.landed()) by {
        assert(s.landing()(j) == (j < s.landed()));
    }
    assert forall|j: int| 0 <= j < k && #[trigger] s.present(j) implies js.contains(j) by {
        assert(js[j] == j);
    }
    assert forall|x: int, y: int| 0 <= x < y < js.len() implies s.precedes(
        #[trigger] js[x],
        #[trigger] js[y],
    ) by {
        assert(s.precedes(x, y));
    }
    // The chunk of the slot alone stops where the rows of the slot do.
    assert(own.stop() <= call.stop()) by {
        if call.stop() < own.stop() {
            assert(own.due(call.stop()));
        }
    }
    let l = own.stop() - e;
    if l < k {
        assert(!own.due(e + l));
        assert(call.due(e + l));
        assert(own.at(e + l) == s.plan[l].0);
        assert(!s.mark(l).is_relative());
        assert(!s.present(l));
    }
    if l > 0 {
        assert(own.due(e + l - 1));
        assert(own.at(e + l - 1) == s.plan[l - 1].0);
        assert(!s.mark(l - 1).is_relative());
        assert(s.present(l - 1));
    }
    assert(s.landed() == l);
    assert forall|j: int| 0 <= j < l implies slot_plan(s, js)[j] == #[trigger] own.plan()[j] by {
        assert(js[j] == j);
        assert(!s.mark(j).is_relative());
    }
    assert(slot_plan(s, js) =~= own.plan());
}

/// The two chunks share the plan of the whole sequence.
proof fn lemma_chunk_plans(marks: Seq<Marker>, first: int, rest: int)
    requires
        0 < first,
        0 < rest,
        first + rest <= usize::MAX,
    ensures
        ({
            let n = first + rest;
            let plan = placement::whole(marks, n as usize).plan();
            let a = first_call(marks, first, rest).plan();
            let b = rest_call(marks, first, rest).plan();
            let ids = laws::whole_ids(marks, n);
            &&& plan.len() == ids.len()
            &&& plan.len() == a.len() + b.len()
            &&& splice::places(splice::plan_ats(a), first)
            &&& splice::places(splice::plan_ats(b), rest)
            &&& forall|j: int|
                0 <= j < a.len() ==> (#[trigger] a[j]) == (marks[ids[j]].depth(n), ids[j])
                    && a[j].0 < first
            &&& forall|j: int|
                0 <= j < b.len() ==> (#[trigger] b[j]) == (
                    marks[ids[a.len() + j]].depth(n) - first,
                    ids[a.len() + j],
                )
        }),
{
    let n = first + rest;
    let ca = first_call(marks, first, rest);
    let cb = rest_call(marks, first, rest);
    let a = ca.plan();
    let b = cb.plan();
    let plan = placement::whole(marks, n as usize).plan();
    placement::split_leaves_the_plan_unchanged(ca, rest);
    assert(placement::joined(ca, rest) == placement::whole(marks, n as usize));
    laws::lemma_whole_ids(marks, n);
    placement::plan_names_places(ca);
    placement::plan_names_places(cb);
    ca.lemma_emitted();
    ca.lemma_stop(ca.emitted());
    assert forall|j: int| 0 <= j < a.len() implies (#[trigger] a[j]) == (
        marks[laws::whole_ids(marks, n)[j]].depth(n),
        laws::whole_ids(marks, n)[j],
    ) && a[j].0 < first by {
        assert(plan[j] == a[j]);
        assert(ca.due(ca.emitted() + j));
    }
    assert forall|j: int| 0 <= j < b.len() implies (#[trigger] b[j]) == (
        marks[laws::whole_ids(marks, n)[a.len() + j]].depth(n) - first,
        laws::whole_ids(marks, n)[a.len() + j],
    ) by {
        assert(plan[a.len() + j] == splice::shifted_plan(b, first)[j]);
    }
}

/// Of two entries of the plan of a whole sequence, the earlier one orders first.
proof fn lemma_ids_ascend(marks: Seq<Marker>, n: int, x: int, y: int)
    requires
        0 <= n <= usize::MAX,
        placement::opens_freely(marks, n),
        0 <= x < y < laws::whole_ids(marks, n).len(),
    ensures
        ({
            let i = laws::whole_ids(marks, n)[x];
            let j = laws::whole_ids(marks, n)[y];
            let keys = class::placement_keys(marks, n);
            &&& 0 <= i < marks.len()
            &&& 0 <= j < marks.len()
            &&& i != j
            &&& order::index_lt(keys, i, j)
            &&& keys[i] == (marks[i].index(n), marks[i].rank())
            &&& keys[j] == (marks[j].index(n), marks[j].rank())
        }),
{
    laws::lemma_whole_ids(marks, n);
    class::lemma_placement_order(marks, n);
    let o = class::placement_order(marks, n);
    let ids = laws::whole_ids(marks, n);
    assert(ids[x] == o[x] && ids[y] == o[y]);
}

/// A list of the markers that land, in placement order, is the list of the plan.
proof fn lemma_sorted_ids(marks: Seq<Marker>, m: int, ids: Seq<int>)
    requires
        0 <= m <= usize::MAX,
        placement::opens_freely(marks, m),
        ids.no_duplicates(),
        forall|r: int|
            0 <= r < ids.len() ==> 0 <= #[trigger] ids[r] < marks.len() && marks[ids[r]].lands(m),
        forall|i: int| 0 <= i < marks.len() && marks[i].lands(m) ==> #[trigger] ids.contains(i),
        forall|x: int, y: int|
            0 <= x < y < ids.len() ==> order::index_lt(
                class::placement_keys(marks, m),
                #[trigger] ids[x],
                #[trigger] ids[y],
            ),
    ensures
        ids == laws::whole_ids(marks, m),
{
    let own = laws::whole_ids(marks, m);
    let keys = class::placement_keys(marks, m);
    let all = class::landing(marks, m);
    laws::lemma_whole_ids(marks, m);
    order::lemma_count_is_len(marks.len(), all, ids);
    assert forall|r: int| 0 <= r < ids.len() implies ids[r] == own[r] by {
        let i = ids[r];
        assert(own.contains(i));
        let x = own.index_of(i);
        let p = laws::landing_where(marks, m, laws::placed_before(marks, m, i));
        lemma_rank(marks, m, ids, r);
        assert forall|a: int, b: int| 0 <= a < b < own.len() implies order::index_lt(
            keys,
            #[trigger] own[a],
            #[trigger] own[b],
        ) by {
            lemma_ids_ascend(marks, m, a, b);
        }
        lemma_rank(marks, m, own, x);
    }
    assert(ids =~= own);
}

/// In a list in placement order, an entry is preceded by as many as its index
/// says.
proof fn lemma_rank(marks: Seq<Marker>, m: int, ids: Seq<int>, r: int)
    requires
        ids.no_duplicates(),
        forall|r: int|
            0 <= r < ids.len() ==> 0 <= #[trigger] ids[r] < marks.len() && marks[ids[r]].lands(m),
        forall|i: int| 0 <= i < marks.len() && marks[i].lands(m) ==> #[trigger] ids.contains(i),
        forall|x: int, y: int|
            0 <= x < y < ids.len() ==> order::index_lt(
                class::placement_keys(marks, m),
                #[trigger] ids[x],
                #[trigger] ids[y],
            ),
        0 <= r < ids.len(),
    ensures
        order::count(
            marks.len(),
            laws::landing_where(marks, m, laws::placed_before(marks, m, ids[r])),
        ) == r,
{
    let keys = class::placement_keys(marks, m);
    let p = laws::landing_where(marks, m, laws::placed_before(marks, m, ids[r]));
    let first = ids.take(r);
    assert forall|i: int| 0 <= i < marks.len() && p(i) implies first.contains(i) by {
        assert(ids.contains(i));
        let x = ids.index_of(i);
        assert(ids[x] == i);
        if x > r {
            assert(order::index_lt(keys, ids[r], ids[x]));
            assert(false);
        }
        if x == r {
            assert(false);
        }
        assert(first[x] == i);
    }
    assert forall|x: int| 0 <= x < first.len() implies 0 <= #[trigger] first[x] < marks.len()
        && p(first[x]) by {
        assert(order::index_lt(keys, ids[x], ids[r]));
    }
    order::lemma_count_is_len(marks.len(), p, first);
}

/// The splice of the first chunk into one slot. `rest` are the rows of the
/// second.
pub open spec fn first_splice(
    marks: Seq<Marker>,
    pad: Seq<bool>,
    local: Seq<int>,
    rest: int,
) -> SlotSplice {
    SlotSplice { pad, local, plan: first_call(marks, pad.len() as int, rest).plan(), marks }
}

/// The splice of the second chunk into one slot. `first` are the rows of the
/// first.
pub open spec fn rest_splice(
    marks: Seq<Marker>,
    pad: Seq<bool>,
    local: Seq<int>,
    first: int,
) -> SlotSplice {
    SlotSplice { pad, local, plan: rest_call(marks, first, pad.len() as int).plan(), marks }
}

/// The entries of the second chunk that precede a row of the slot.
spec fn inside(s: SlotSplice) -> spec_fn(int) -> bool {
    |j: int| !(s.mark(j) is End) && s.entry(j) < s.len()
}

/// The entries of the second chunk that precede a row of the batch.
spec fn not_closing(s: SlotSplice) -> spec_fn(int) -> bool {
    |j: int| !(s.mark(j) is End)
}

/// The entries of the second chunk that land in a slot, in its order: those that
/// precede a row of the slot, then those that close the sequence.
spec fn rest_order(s: SlotSplice) -> Seq<int> {
    let opening = order::count(s.plan.len(), inside(s));
    let before = order::count(s.plan.len(), not_closing(s));
    order::indices(opening) + Seq::new(
        (s.plan.len() - before) as nat,
        |x: int| before + x,
    )
}

proof fn lemma_rest_order(
    marks: Seq<Marker>,
    pad: Seq<bool>,
    local: Seq<int>,
    first: int,
    mine_first: int,
)
    requires
        padding::orders_slot(pad, local),
        0 < first,
        0 < pad.len(),
        first + pad.len() <= usize::MAX,
        stays(marks, first, mine_first, padding::n_real(pad) as int),
    ensures
        ({
            let s = rest_splice(marks, pad, local, first);
            let opening = order::count(s.plan.len(), inside(s));
            let before = order::count(s.plan.len(), not_closing(s));
            &&& s.wf()
            &&& is_slot_order(s, rest_order(s))
            &&& opening <= before <= s.plan.len()
            &&& forall|x: int, y: int|
                0 <= x < y < s.plan.len() && !(s.mark(y) is End) ==> #[trigger] s.precedes(x, y)
            &&& forall|j: int|
                0 <= j < s.plan.len() ==> (#[trigger] s.mark(j) is End) == (j >= before)
            &&& forall|j: int|
                0 <= j < before ==> #[trigger] s.present(j) == (j < opening)
            &&& forall|j: int|
                0 <= j < s.plan.len() ==> !(#[trigger] s.mark(j) is Middle)
            &&& s.landed() == rest_order(s).len()
        }),
{
    let s = rest_splice(marks, pad, local, first);
    let n = first + pad.len();
    let k = s.plan.len();
    let pa = first_call(marks, first, pad.len() as int).plan().len();
    let ids = laws::whole_ids(marks, n);
    let ats = splice::plan_ats(s.plan);
    order::lemma_count_bound(pad.len(), padding::real_rows(pad));
    lemma_chunk_plans(marks, first, pad.len() as int);
    laws::lemma_whole_ids(marks, n);
    assert forall|j: int| 0 <= j < k implies s.mark(j) == marks[#[trigger] ids[pa + j]] && 0
        <= ids[pa + j] < marks.len() && s.plan[j] == (
        marks[ids[pa + j]].depth(n) - first,
        ids[pa + j],
    ) && !(s.mark(j) is Middle) && marks[ids[pa + j]].lands(n) by {
        assert(s.plan[j] == (marks[ids[pa + j]].depth(n) - first, ids[pa + j]));
    }
    assert forall|j: int| 0 <= j < k implies !(#[trigger] s.mark(j) is Middle) by {
        assert(0 <= ids[pa + j]);
    }
    assert forall|x: int, y: int| 0 <= x < y < k && (#[trigger] s.mark(x)) is End implies (
    #[trigger] s.mark(y)) is End by {
        lemma_ids_ascend(marks, n, pa + x, pa + y);
    }
    assert forall|x: int, y: int| 0 <= x < y < k && #[trigger] not_closing(s)(
        y,
    ) implies #[trigger] not_closing(s)(x) by {
        assert(s.mark(x) is End ==> s.mark(y) is End);
    }
    order::lemma_count_downward(k, not_closing(s));
    order::lemma_count_bound(k, not_closing(s));
    assert forall|x: int, y: int| 0 <= x < y < k && #[trigger] inside(s)(
        y,
    ) implies #[trigger] inside(s)(x) by {
        assert(not_closing(s)(x));
        assert(ats[x] <= ats[y]);
        assert(!(s.mark(x) is Middle));
        assert(!(s.mark(y) is Middle));
    }
    order::lemma_count_downward(k, inside(s));
    order::lemma_count_le(k, inside(s), not_closing(s));
    let opening = order::count(k, inside(s));
    let before = order::count(k, not_closing(s));
    assert forall|j: int| 0 <= j < k implies (#[trigger] s.mark(j) is End) == (j >= before) by {
        assert(not_closing(s)(j) == (j < before));
    }
    assert forall|j: int| 0 <= j < before implies #[trigger] s.present(j) == (j < opening) by {
        assert(inside(s)(j) == (j < opening));
        assert(!(s.mark(j) is End));
    }
    assert forall|x: int, y: int| 0 <= x < y < k && (s.mark(x) is End || !(s.mark(y)
        is End)) implies #[trigger] s.precedes(x, y) by {
        lemma_ids_ascend(marks, n, pa + x, pa + y);
        assert(ats[x] <= ats[y]);
        assert(!(s.mark(x) is Middle));
        assert(!(s.mark(y) is Middle));
        assert(s.kinds()[x] == (marks[ids[pa + x]].rank(), ids[pa + x]));
        assert(s.kinds()[y] == (marks[ids[pa + y]].rank(), ids[pa + y]));
    }
    assert forall|x: int, y: int|
        0 <= x < y < k && !(s.mark(y) is End) implies #[trigger] s.precedes(x, y) by {
        assert(s.mark(x) is End ==> s.mark(y) is End);
    }
    let js = rest_order(s);
    assert forall|r: int| 0 <= r < js.len() implies 0 <= #[trigger] js[r] < k && s.present(
        js[r],
    ) by {
        if r < opening {
            assert(s.present(r));
        } else {
            assert(s.mark(js[r]) is End);
        }
    }
    assert forall|j: int| 0 <= j < k && #[trigger] s.present(j) implies js.contains(j) by {
        if j < before {
            assert(j < opening);
            assert(js[j] == j);
        } else {
            assert(js[opening + (j - before)] == j);
        }
    }
    assert forall|x: int, y: int| 0 <= x < y < js.len() implies s.precedes(
        #[trigger] js[x],
        #[trigger] js[y],
    ) by {
        if y < opening {
            assert(!(s.mark(y) is End));
            assert(s.precedes(x, y));
        } else if x < opening {
            assert(s.mark(js[y]) is End);
            assert(inside(s)(x));
        } else {
            assert(s.mark(js[x]) is End);
            assert(s.precedes(js[x], js[y]));
        }
    }
    order::lemma_count_is_len(k, s.landing(), js);
}

/// The markers that land in a slot, over both chunks.
spec fn chunked_ids(a: SlotSplice, b: SlotSplice) -> Seq<int> {
    order::indices(a.landed()).map_values(|j: int| a.plan[j].1) + rest_order(b).map_values(
        |j: int| b.plan[j].1,
    )
}

/// Over the first chunk and the one that closes the batch, the plans of a slot are
/// the plan that the slot alone would have.
proof fn lemma_chunked_plan(
    marks: Seq<Marker>,
    pad_a: Seq<bool>,
    local_a: Seq<int>,
    pad_b: Seq<bool>,
    local_b: Seq<int>,
)
    requires
        padding::orders_slot(pad_a, local_a),
        padding::orders_slot(pad_b, local_b),
        0 < pad_a.len(),
        0 < pad_b.len(),
        pad_a.len() + pad_b.len() <= usize::MAX,
        stays(
            marks,
            pad_a.len() as int,
            padding::n_real(pad_a) as int,
            padding::n_real(pad_b) as int,
        ),
        placement::settles(marks, (padding::n_real(pad_a) + padding::n_real(pad_b)) as int),
    ensures
        ({
            let a = first_splice(marks, pad_a, local_a, pad_b.len() as int);
            let b = rest_splice(marks, pad_b, local_b, pad_a.len() as int);
            let m = a.len() + b.len();
            slot_plan(a, order::indices(a.landed())) + splice::shifted_plan(
                slot_plan(b, rest_order(b)),
                a.len(),
            ) == placement::whole(marks, m as usize).plan()
        }),
{
    let m = (padding::n_real(pad_a) + padding::n_real(pad_b)) as int;
    if placement::opens_freely(marks, m) {
        lemma_chunked_plan_freely(marks, pad_a, local_a, pad_b, local_b);
    } else {
        let first = pad_a.len() as int;
        let a = first_splice(marks, pad_a, local_a, pad_b.len() as int);
        let b = rest_splice(marks, pad_b, local_b, first);
        placement::nothing_lands_in_an_empty_sequence(marks);
        lemma_first_chunk(marks, pad_a, local_a, pad_b.len() as int);
        lemma_rest_order(marks, pad_b, local_b, first, a.len());
        placement::plan_names_markers(rest_call(marks, first, pad_b.len() as int));
        if a.landed() > 0 {
            assert(a.present(0));
            assert(!a.mark(0).is_relative());
            assert(splice::plan_ats(a.plan)[0] >= 0);
        }
        if rest_order(b).len() > 0 {
            let j = rest_order(b)[0];
            assert(b.present(j));
            assert(!(b.mark(j) is End));
            assert(!(b.mark(j) is Middle));
            assert(splice::plan_ats(b.plan)[j] >= 0);
        }
        assert(slot_plan(a, order::indices(a.landed())) + splice::shifted_plan(
            slot_plan(b, rest_order(b)),
            a.len(),
        ) =~= placement::whole(marks, m as usize).plan());
    }
}

/// The first chunk of a sequence is one that closes none.
proof fn lemma_first_chunk(marks: Seq<Marker>, pad: Seq<bool>, local: Seq<int>, rest: int)
    requires
        padding::orders_slot(pad, local),
        halves_nothing(marks),
        0 < rest,
        pad.len() + rest <= usize::MAX,
    ensures
        ({
            let s = first_splice(marks, pad, local, rest);
            &&& s.wf()
            &&& s.landed() <= s.plan.len()
            &&& is_slot_order(s, order::indices(s.landed()))
            &&& forall|j: int| 0 <= j < s.plan.len() ==> !(#[trigger] s.mark(j)).is_relative()
            &&& forall|j: int|
                0 <= j < s.plan.len() ==> #[trigger] s.present(j) == (j < s.landed())
            &&& slot_plan(s, order::indices(s.landed())) == so_far(
                marks,
                pad.len() + rest,
                s.len(),
            ).plan()
        }),
{
    let n = pad.len() + rest;
    lemma_nothing_yet(marks, n);
    lemma_open_chunk(marks, n, 0, pad, local);
    assert(first_splice(marks, pad, local, rest) == open_splice(marks, n, 0, pad, local));
    assert(placement::after(so_far(marks, n, 0), padding::n_real(pad) as int, false) == so_far(
        marks,
        n,
        padding::n_real(pad) as int,
    ));
}

proof fn lemma_chunked_plan_freely(
    marks: Seq<Marker>,
    pad_a: Seq<bool>,
    local_a: Seq<int>,
    pad_b: Seq<bool>,
    local_b: Seq<int>,
)
    requires
        padding::orders_slot(pad_a, local_a),
        padding::orders_slot(pad_b, local_b),
        0 < pad_a.len(),
        0 < pad_b.len(),
        pad_a.len() + pad_b.len() <= usize::MAX,
        stays(
            marks,
            pad_a.len() as int,
            padding::n_real(pad_a) as int,
            padding::n_real(pad_b) as int,
        ),
        placement::opens_freely(marks, (padding::n_real(pad_a) + padding::n_real(pad_b)) as int),
    ensures
        ({
            let a = first_splice(marks, pad_a, local_a, pad_b.len() as int);
            let b = rest_splice(marks, pad_b, local_b, pad_a.len() as int);
            let m = a.len() + b.len();
            slot_plan(a, order::indices(a.landed())) + splice::shifted_plan(
                slot_plan(b, rest_order(b)),
                a.len(),
            ) == placement::whole(marks, m as usize).plan()
        }),
{
    let first = pad_a.len() as int;
    let rest = pad_b.len() as int;
    let n = first + rest;
    let a = first_splice(marks, pad_a, local_a, rest);
    let b = rest_splice(marks, pad_b, local_b, first);
    let mine = a.len();
    let m = a.len() + b.len();
    let pa = a.plan.len() as int;
    let la = a.landed() as int;
    let ids = laws::whole_ids(marks, n);
    let keys = class::placement_keys(marks, m);
    let opening = order::count(b.plan.len(), inside(b)) as int;
    let before = order::count(b.plan.len(), not_closing(b)) as int;
    let js_a = order::indices(a.landed());
    let js_b = rest_order(b);
    let all = chunked_ids(a, b);
    order::lemma_count_bound(pad_a.len(), padding::real_rows(pad_a));
    order::lemma_count_bound(pad_b.len(), padding::real_rows(pad_b));
    lemma_first_chunk(marks, pad_a, local_a, rest);
    lemma_rest_order(marks, pad_b, local_b, first, mine);
    lemma_chunk_plans(marks, first, rest);
    laws::lemma_whole_ids(marks, n);
    // Where each entry comes from.
    assert forall|r: int| 0 <= r < la implies #[trigger] all[r] == ids[r] && 0 <= ids[r]
        < marks.len() && a.plan[r] == (marks[ids[r]].index(m), ids[r]) && marks[ids[r]].lands(m)
        && !marks[ids[r]].is_relative() && marks[ids[r]].index(m) < mine by {
        assert(js_a[r] == r);
        assert(a.plan[r] == (marks[ids[r]].depth(n), ids[r]));
        assert(a.present(r));
        assert(!a.mark(r).is_relative());
    }
    assert forall|r: int| la <= r < la + opening implies #[trigger] all[r] == ids[pa + (r - la)]
        && 0 <= all[r] < marks.len() && b.plan[r - la] == (marks[all[r]].index(m) - first, all[r])
        && marks[all[r]].lands(m) && !marks[all[r]].is_relative() && marks[all[r]].index(m)
        >= first && mine == first by {
        let j = r - la;
        assert(js_b[j] == j);
        assert(b.plan[j] == (marks[ids[pa + j]].depth(n) - first, ids[pa + j]));
        assert(b.present(j));
        assert(!(b.mark(j) is End));
        assert(!(b.mark(j) is Middle));
        assert(all[r] == b.plan[j].1);
        assert(0 <= ids[pa + j] < marks.len());
        assert(b.mark(j) == marks[ids[pa + j]]);
        assert(splice::plan_ats(b.plan)[j] >= 0);
        match marks[ids[pa + j]] {
            Marker::Custom(k) => {
                assert(custom_stays(k as int, first, mine, b.len()));
                assert(b.entry(j) < b.len());
                assert(k < n);
                assert(first <= k < first + b.len());
            },
            Marker::Start => {
                assert(splice::plan_ats(b.plan)[j] >= 0);
            },
            _ => {},
        }
    }
    assert forall|r: int| la + opening <= r < all.len() implies 0 <= #[trigger] all[r]
        < marks.len() && marks[all[r]] is End && all[r] == ids[pa + before + (r - la - opening)]
        && b.entry(before + (r - la - opening)) == b.len() by {
        let j = before + (r - la - opening);
        assert(js_b[r - la] == j);
        assert(b.plan[j] == (marks[ids[pa + j]].depth(n) - first, ids[pa + j]));
        assert(b.mark(j) is End);
    }
    // They are all that land, each once, in order.
    assert forall|x: int, y: int| 0 <= x < y < all.len() implies order::index_lt(
        keys,
        #[trigger] all[x],
        #[trigger] all[y],
    ) && all[x] != all[y] by {
        let i = all[x];
        let j = all[y];
        assert(keys[i] == (marks[i].index(m), marks[i].rank()));
        assert(keys[j] == (marks[j].index(m), marks[j].rank()));
        let at_x = if x < la {
            x
        } else if x < la + opening {
            pa + (x - la)
        } else {
            pa + before + (x - la - opening)
        };
        let at_y = if y < la {
            y
        } else if y < la + opening {
            pa + (y - la)
        } else {
            pa + before + (y - la - opening)
        };
        lemma_ids_ascend(marks, n, at_x, at_y);
        assert(ids[at_x] == i && ids[at_y] == j);
    }
    assert forall|i: int| 0 <= i < marks.len() && marks[i].lands(m) implies #[trigger] all.contains(
        i,
    ) by {
        assert(marks[i].lands(n));
        assert(ids.contains(i));
        let x = ids.index_of(i);
        assert(ids[x] == i);
        if x < pa {
            assert(a.plan[x] == (marks[i].depth(n), i));
            assert(!a.mark(x).is_relative());
            match marks[i] {
                Marker::Custom(k) => {
                    assert(custom_stays(k as int, first, mine, b.len()));
                },
                _ => {},
            }
            assert(a.present(x));
            assert(js_a[x] == x);
            assert(all[x] == i);
        } else {
            let j = x - pa;
            assert(b.plan[j] == (marks[i].depth(n) - first, i));
            assert(splice::plan_ats(b.plan)[j] >= 0);
            assert(!(b.mark(j) is Middle));
            if marks[i] is End {
                assert(b.mark(j) is End);
                assert(j >= before);
                assert(js_b[opening + (j - before)] == j);
                assert(all[la + opening + (j - before)] == i);
            } else {
                match marks[i] {
                    Marker::Custom(k) => {
                        assert(custom_stays(k as int, first, mine, b.len()));
                    },
                    _ => {},
                }
                assert(!(b.mark(j) is End));
                assert(b.present(j));
                assert(js_b[j] == j);
                assert(all[la + j] == i);
            }
        }
    }
    assert(all.no_duplicates());
    lemma_sorted_ids(marks, m, all);
    laws::lemma_whole_ids(marks, m);
    let solo = placement::whole(marks, m as usize).plan();
    let own = slot_plan(a, js_a) + splice::shifted_plan(slot_plan(b, js_b), mine);
    assert forall|r: int| 0 <= r < own.len() implies own[r] == solo[r] by {
        assert(solo[r] == (marks[all[r]].depth(m), all[r]));
        if r < la {
            assert(js_a[r] == r);
            assert(!a.mark(r).is_relative());
        } else {
            let j = js_b[r - la];
            assert(slot_plan(b, js_b)[r - la] == (b.entry(j), b.plan[j].1));
            if r < la + opening {
                assert(j == r - la);
                assert(!(b.mark(j) is End));
                assert(!(b.mark(j) is Middle));
            }
        }
    }
    assert(own =~= solo);
}

/// A row that no marker moves is where the batch-wide order puts it.
proof fn lemma_unmoved(s: SlotSplice, x: int)
    requires
        s.wf(),
        s.local == order::indices(s.pad.len()),
        forall|j: int| 0 <= j < s.plan.len() ==> !(#[trigger] s.mark(j)).is_relative(),
        forall|x: int, y: int| 0 <= x < y < s.plan.len() ==> #[trigger] s.precedes(x, y),
        0 <= x < s.spliced_pad().len(),
        !s.spliced_pad()[x],
    ensures
        s.spliced_local()[x] == x,
{
    let n = s.pad.len() as int;
    let k = s.plan.len();
    let ats = splice::plan_ats(s.plan);
    let absent = Seq::new(k, |j: int| !s.present(j));
    let row_locals = Seq::new(s.pad.len(), |i: int| s.row_local(i));
    let marker_locals = Seq::new(k, |j: int| s.marker_local(j));
    s.lemma_keeps_order();
    match splice::lemma_spliced_cover(ats, n, x) {
        Ok(i) => {
            splice::lemma_spliced_row(s.pad, ats, absent, i);
            splice::lemma_spliced_row(row_locals, ats, marker_locals, i);
            assert(s.local[i] == i);
            assert(s.pad[i] == (s.local[i] >= padding::n_real(s.pad)));
            assert forall|j: int| 0 <= j < k implies #[trigger] splice::up_to(ats, i)(j)
                == s.landing_up_to(i)(j) by {
                assert(!s.mark(j).is_relative());
            }
            order::lemma_count_ext(k, splice::up_to(ats, i), s.landing_up_to(i));
        },
        Err(j) => {
            splice::lemma_spliced_col(s.pad, ats, absent, j);
            splice::lemma_spliced_col(row_locals, ats, marker_locals, j);
            assert(!s.mark(j).is_relative());
            assert(s.present(j));
            assert forall|i: int| 0 <= i < k implies #[trigger] s.landing_before(j)(i)
                == order::below(j)(i) by {
                assert(!s.mark(i).is_relative());
                if i < j {
                    assert(s.precedes(i, j));
                    assert(ats[i] <= ats[j]);
                } else if j < i {
                    assert(s.precedes(j, i));
                }
            }
            order::lemma_count_ext(k, s.landing_before(j), order::below(j));
            order::lemma_count_below(k, j);
        },
    }
}

/// The padding that a splice returns gives each slot the sequence that the
/// splice of the slot gives it.
proof fn lemma_returned_sequence<T>(
    before: Padding,
    after: Padding,
    plan: Seq<(int, int)>,
    marks: Seq<Marker>,
    b: int,
    rows: Seq<T>,
    row_of: spec_fn(int) -> T,
)
    requires
        before.wf(),
        after.wf(),
        before.splices_to(plan, marks, after),
        0 <= b < before.batch(),
        rows.len() == before.rows(),
        before.slot(plan, marks, b).wf(),
        after.local_bs is None ==> forall|x: int, y: int|
            0 <= x < y < plan.len() ==> #[trigger] before.slot(plan, marks, b).precedes(x, y),
    ensures
        laws::slot_sequence(
            splice::spliced_plan(rows, plan, row_of),
            after.pad(b),
            after.local(b),
        ) == laws::slot_sequence(
            splice::spliced_plan(rows, plan, row_of),
            before.slot(plan, marks, b).spliced_pad(),
            before.slot(plan, marks, b).spliced_local(),
        ),
        padding::n_real(after.pad(b)) == padding::n_real(before.pad(b)) + before.slot(
            plan,
            marks,
            b,
        ).landed(),
        after.pad(b).len() == before.rows() + plan.len(),
{
    let s = before.slot(plan, marks, b);
    s.lemma_keeps_order();
    assert(after.pad(b) == s.spliced_pad());
    assert(before.pad_bs@[b]@.len() == before.rows());
    if after.local_bs is Some {
        assert(after.local(b) == s.spliced_local());
    } else {
        let out_rows = splice::spliced_plan(rows, plan, row_of);
        let sequence = laws::slot_sequence(out_rows, s.spliced_pad(), s.spliced_local());
        splice::lemma_spliced_len(
            rows,
            splice::plan_ats(plan),
            splice::plan_cols(plan, row_of),
        );
        assert(padding::orders_slot(after.pad(b), after.local(b)));
        assert forall|j: int| 0 <= j < s.plan.len() implies !(#[trigger] s.mark(j)).is_relative() by {
            assert(!marks[plan[j].1].is_relative());
        }
        assert forall|x: int|
            0 <= x < after.pad(b).len() && !after.pad(b)[x] implies sequence[#[trigger] after.local(
            b,
        )[x]] == out_rows[x] by {
            lemma_unmoved(s, x);
            laws::slot_sequence_holds_real_rows(out_rows, s.spliced_pad(), s.spliced_local(), x);
        }
        laws::lemma_slot_sequence_is(out_rows, after.pad(b), after.local(b), sequence);
    }
}

/// The rows of the first `k` chunks.
pub open spec fn batch_rows(paddings: Seq<Padding>, k: int) -> int
    decreases k,
{
    if k <= 0 {
        0
    } else {
        batch_rows(paddings, k - 1) + paddings[k - 1].rows()
    }
}

/// The real rows of slot `b` in the first `k` chunks.
pub open spec fn slot_rows(paddings: Seq<Padding>, b: int, k: int) -> int
    decreases k,
{
    if k <= 0 {
        0
    } else {
        slot_rows(paddings, b, k - 1) + padding::n_real(paddings[k - 1].pad(b))
    }
}

/// The sequences of slot `b` in the first `k` chunks, one after another.
pub open spec fn joined_slot<T>(
    rows: Seq<Seq<T>>,
    paddings: Seq<Padding>,
    b: int,
    k: int,
) -> Seq<T>
    decreases k,
{
    if k <= 0 {
        Seq::empty()
    } else {
        joined_slot(rows, paddings, b, k - 1) + laws::slot_sequence(
            rows[k - 1],
            paddings[k - 1].pad(b),
            paddings[k - 1].local(b),
        )
    }
}

/// Whether slot `b` has rows in a chunk only after it has filled those before.
pub open spec fn fills(paddings: Seq<Padding>, b: int, k: int) -> bool {
    forall|i: int, j: int|
        #![trigger paddings[i], paddings[j]]
        0 <= i < j < k && padding::n_real(paddings[j].pad(b)) > 0 ==> padding::n_real(
            paddings[i].pad(b),
        ) == paddings[i].rows()
}

/// The call of chunk `i` of a sequence of `n` rows.
pub open spec fn chunk_call(marks: Seq<Marker>, n: int, paddings: Seq<Padding>, i: int) -> Placement {
    placement::after(
        so_far(marks, n, batch_rows(paddings, i)),
        paddings[i].rows() as int,
        false,
    )
}

/// The rows of chunk `i`, with the markers of its call spliced in.
pub open spec fn chunk_out<T>(
    marks: Seq<Marker>,
    n: int,
    paddings: Seq<Padding>,
    rows: Seq<Seq<T>>,
    row_of: spec_fn(int) -> T,
) -> Seq<Seq<T>> {
    Seq::new(
        rows.len(),
        |i: int| splice::spliced_plan(rows[i], chunk_call(marks, n, paddings, i).plan(), row_of),
    )
}

/// Whether chunk `i` turns the padding before it into the one after it.
pub open spec fn chunk_splices(
    marks: Seq<Marker>,
    n: int,
    befores: Seq<Padding>,
    afters: Seq<Padding>,
    b: int,
    i: int,
) -> bool {
    &&& befores[i].wf()
    &&& afters[i].wf()
    &&& befores[i].rows() > 0
    &&& 0 <= b < befores[i].batch()
    &&& befores[i].splices_to(chunk_call(marks, n, befores, i).plan(), marks, afters[i])
}

/// The slot has as many rows as its sequences hold, and no more than the batch.
proof fn lemma_joined_len<T>(rows: Seq<Seq<T>>, paddings: Seq<Padding>, b: int, k: int)
    requires
        forall|i: int|
            0 <= i < k ==> (#[trigger] paddings[i]).wf() && paddings[i].rows() > 0 && 0 <= b
                < paddings[i].batch(),
    ensures
        joined_slot(rows, paddings, b, k).len() == slot_rows(paddings, b, k),
        0 <= slot_rows(paddings, b, k) <= batch_rows(paddings, k),
        k > 0 ==> batch_rows(paddings, k) > 0,
    decreases k,
{
    if k > 0 {
        lemma_joined_len(rows, paddings, b, k - 1);
        let p = paddings[k - 1];
        assert(p.pad_bs@[b]@.len() == p.rows());
        order::lemma_count_bound(p.pad(b).len(), padding::real_rows(p.pad(b)));
    }
}

/// A slot that filled every chunk has the rows of the batch.
proof fn lemma_filled(paddings: Seq<Padding>, b: int, k: int)
    requires
        forall|i: int|
            0 <= i < k ==> padding::n_real((#[trigger] paddings[i]).pad(b)) == paddings[i].rows(),
    ensures
        slot_rows(paddings, b, k) == batch_rows(paddings, k),
    decreases k,
{
    if k > 0 {
        lemma_filled(paddings, b, k - 1);
    }
}

/// The chunks before the one that closes the batch splice into a slot what one
/// call over its rows so far would.
proof fn lemma_open_chunks<T>(
    marks: Seq<Marker>,
    n: int,
    befores: Seq<Padding>,
    afters: Seq<Padding>,
    b: int,
    rows: Seq<Seq<T>>,
    row_of: spec_fn(int) -> T,
    k: int,
)
    requires
        halves_nothing(marks),
        0 <= k <= rows.len(),
        n <= usize::MAX,
        batch_rows(befores, k) < n,
        forall|i: int| 0 <= i < k ==> #[trigger] chunk_splices(marks, n, befores, afters, b, i),
        forall|i: int| 0 <= i < k ==> (#[trigger] rows[i]).len() == befores[i].rows(),
        fills(befores, b, k),
    ensures
        ({
            let p = slot_rows(befores, b, k);
            let all = so_far(marks, n, p);
            let out = chunk_out(marks, n, befores, rows, row_of);
            &&& joined_slot(out, afters, b, k) == splice::spliced_plan(
                joined_slot(rows, befores, b, k),
                all.plan(),
                row_of,
            )
            &&& slot_rows(afters, b, k) == p + all.plan().len()
            &&& fills(afters, b, k)
        }),
    decreases k,
{
    let out = chunk_out(marks, n, befores, rows, row_of);
    assert forall|i: int| 0 <= i < k implies (#[trigger] befores[i]).wf() && befores[i].rows() > 0
        && 0 <= b < befores[i].batch() by {
        assert(chunk_splices(marks, n, befores, afters, b, i));
    }
    lemma_joined_len(rows, befores, b, k);
    if k == 0 {
        lemma_nothing_yet(marks, n);
        assert(splice::spliced_plan(
            Seq::<T>::empty(),
            so_far(marks, n, 0).plan(),
            row_of,
        ) =~= Seq::<T>::empty());
    } else {
        let i = k - 1;
        let at = batch_rows(befores, i);
        let p = slot_rows(befores, b, i);
        let before = befores[i];
        let pad = before.pad(b);
        let local = before.local(b);
        assert(chunk_splices(marks, n, befores, afters, b, i));
        lemma_joined_len(rows, befores, b, i);
        lemma_open_chunks(marks, n, befores, afters, b, rows, row_of, i);
        assert(before.pad_bs@[b]@.len() == before.rows());
        assert(padding::orders_slot(pad, local));
        order::lemma_count_bound(pad.len(), padding::real_rows(pad));
        let s = open_splice(marks, n, at, pad, local);
        let js = order::indices(s.landed());
        let plan = chunk_call(marks, n, befores, i).plan();
        assert(before.slot(plan, marks, b) == s);
        lemma_open_chunk(marks, n, at, pad, local);
        lemma_returned_sequence(before, afters[i], plan, marks, b, rows[i], row_of);
        splice_is_the_plan_of_the_slot(s, js, rows[i], row_of);
        assert(out[i] == splice::spliced_plan(rows[i], plan, row_of));
        let mine = laws::slot_sequence(rows[i], pad, local);
        let own = slot_plan(s, js);
        let a = so_far(marks, n, p);
        lemma_slot_plan(s, js);
        placement::plan_names_places(a);
        if s.len() > 0 {
            assert forall|x: int| 0 <= x < i implies padding::n_real(
                (#[trigger] befores[x]).pad(b),
            ) == befores[x].rows() by {
                assert(befores[i] == before);
            }
            lemma_filled(befores, b, i);
            placement::split_leaves_the_plan_unchanged(a, s.len());
            assert(placement::joined(a, s.len()) == so_far(marks, n, p + s.len()));
            splice::lemma_spliced_plan_concat(
                joined_slot(rows, befores, b, i),
                mine,
                a.plan(),
                own,
                row_of,
            );
        } else {
            lemma_empty_lands_nothing(s);
            assert(mine =~= Seq::<T>::empty());
            assert(joined_slot(rows, befores, b, k) =~= joined_slot(rows, befores, b, i));
            assert(laws::slot_sequence(
                out[i],
                afters[i].pad(b),
                afters[i].local(b),
            ) =~= Seq::<T>::empty());
            assert(joined_slot(out, afters, b, k) =~= joined_slot(out, afters, b, i));
        }
        assert(fills(afters, b, k)) by {
            assert forall|x: int, y: int|
                #![trigger afters[x], afters[y]]
                0 <= x < y < k && padding::n_real(afters[y].pad(b)) > 0 implies padding::n_real(
                afters[x].pad(b),
            ) == afters[x].rows() by {
                if y == i {
                    if s.len() == 0 {
                        lemma_empty_lands_nothing(s);
                    }
                    assert(befores[y] == before);
                    assert(padding::n_real(befores[x].pad(b)) == befores[x].rows());
                    assert(chunk_splices(marks, n, befores, afters, b, x));
                    lemma_batch_rows_grow(befores, x, k);
                    lemma_full_chunk(marks, n, befores, afters, b, x, rows[x], row_of);
                }
            }
        }
    }
}

/// Fewer chunks have fewer rows.
proof fn lemma_batch_rows_grow(paddings: Seq<Padding>, i: int, k: int)
    requires
        0 <= i < k,
    ensures
        0 <= batch_rows(paddings, i),
        batch_rows(paddings, i) + paddings[i].rows() <= batch_rows(paddings, k),
    decreases k,
{
    if i + 1 < k {
        lemma_batch_rows_grow(paddings, i, k - 1);
    } else if i > 0 {
        lemma_batch_rows_grow(paddings, 0, i);
    }
}

/// No marker of an open chunk lands in a slot without rows.
proof fn lemma_empty_lands_nothing(s: SlotSplice)
    requires
        s.wf(),
        s.len() == 0,
        forall|j: int| 0 <= j < s.plan.len() ==> !(#[trigger] s.mark(j)).is_relative(),
    ensures
        s.landed() == 0,
        padding::n_real(s.spliced_pad()) == 0,
{
    assert forall|j: int| 0 <= j < s.plan.len() implies !((#[trigger] s.mark(j)) is End) by {
        assert(!s.mark(j).is_relative());
    }
    laws::lemma_empty_slot_stays_empty(s);
    s.lemma_keeps_order();
}

/// A slot that fills an open chunk fills what the chunk becomes.
proof fn lemma_full_chunk<T>(
    marks: Seq<Marker>,
    n: int,
    befores: Seq<Padding>,
    afters: Seq<Padding>,
    b: int,
    i: int,
    rows: Seq<T>,
    row_of: spec_fn(int) -> T,
)
    requires
        halves_nothing(marks),
        0 <= batch_rows(befores, i),
        batch_rows(befores, i) + befores[i].rows() < n <= usize::MAX,
        chunk_splices(marks, n, befores, afters, b, i),
        rows.len() == befores[i].rows(),
        padding::n_real(befores[i].pad(b)) == befores[i].rows(),
    ensures
        padding::n_real(afters[i].pad(b)) == afters[i].rows(),
{
    let before = befores[i];
    let pad = before.pad(b);
    let at = batch_rows(befores, i);
    let plan = chunk_call(marks, n, befores, i).plan();
    assert(before.pad_bs@[b]@.len() == before.rows());
    assert(padding::orders_slot(pad, before.local(b)));
    lemma_open_chunk(marks, n, at, pad, before.local(b));
    let s = open_splice(marks, n, at, pad, before.local(b));
    assert(before.slot(plan, marks, b) == s);
    assert(slot_plan(s, order::indices(s.landed())).len() == s.landed());
    lemma_returned_sequence(before, afters[i], plan, marks, b, rows, row_of);
}

/// Split into chunks, a padded batch is still each slot alone: the sequences of a
/// slot in the chunks, one after another, are what the slot's own sequence
/// becomes when its own plan is spliced into it whole.
pub proof fn chunked_padding_is_each_slot_alone<T>(
    marks: Seq<Marker>,
    befores: Seq<Padding>,
    afters: Seq<Padding>,
    b: int,
    rows: Seq<Seq<T>>,
    row_of: spec_fn(int) -> T,
)
    requires
        rows.len() >= 2,
        ({
            let last = rows.len() - 1;
            let n = batch_rows(befores, rows.len() as int);
            &&& n <= usize::MAX
            &&& forall|i: int|
                0 <= i <= last ==> #[trigger] chunk_splices(marks, n, befores, afters, b, i)
            &&& forall|i: int| 0 <= i <= last ==> (#[trigger] rows[i]).len() == befores[i].rows()
            &&& fills(befores, b, last)
            &&& stays(
                marks,
                batch_rows(befores, last),
                slot_rows(befores, b, last),
                padding::n_real(befores[last].pad(b)) as int,
            )
            &&& placement::settles(marks, slot_rows(befores, b, last + 1))
        }),
    ensures
        ({
            let k = rows.len() as int;
            let n = batch_rows(befores, k);
            let m = slot_rows(befores, b, k);
            let out = chunk_out(marks, n, befores, rows, row_of);
            &&& joined_slot(out, afters, b, k) == splice::spliced_plan(
                joined_slot(rows, befores, b, k),
                placement::whole(marks, m as usize).plan(),
                row_of,
            )
            &&& slot_rows(afters, b, k) == m + placement::whole(marks, m as usize).plan().len()
            &&& fills(afters, b, k - 1)
        }),
{
    let k = rows.len() as int;
    let last = k - 1;
    let n = batch_rows(befores, k);
    let m = slot_rows(befores, b, k);
    let first = batch_rows(befores, last);
    let p = slot_rows(befores, b, last);
    let before = befores[last];
    let pad = before.pad(b);
    let local = before.local(b);
    let out = chunk_out(marks, n, befores, rows, row_of);
    assert forall|i: int| 0 <= i < k implies (#[trigger] befores[i]).wf() && befores[i].rows() > 0
        && 0 <= b < befores[i].batch() by {
        assert(chunk_splices(marks, n, befores, afters, b, i));
    }
    assert(chunk_splices(marks, n, befores, afters, b, last));
    lemma_joined_len(rows, befores, b, last);
    lemma_joined_len(rows, befores, b, k);
    lemma_open_chunks(marks, n, befores, afters, b, rows, row_of, last);
    assert(before.pad_bs@[b]@.len() == before.rows());
    assert(padding::orders_slot(pad, local));
    order::lemma_count_bound(pad.len(), padding::real_rows(pad));
    // The rows so far, as one chunk of their own.
    let one = Seq::new(first as nat, |i: int| i >= p);
    let place = order::indices(first as nat);
    order::lemma_count_below(first as nat, p);
    order::lemma_count_ext(first as nat, order::below(p), padding::real_rows(one));
    assert(padding::orders_slot(one, place));
    let c = rest_splice(marks, pad, local, first);
    let plan = chunk_call(marks, n, befores, last).plan();
    assert(plan == c.plan);
    assert(before.slot(plan, marks, b) == c);
    lemma_first_chunk(marks, one, place, pad.len() as int);
    lemma_rest_order(marks, pad, local, first, p);
    lemma_chunked_plan(marks, one, place, pad, local);
    if afters[last].local_bs is None {
        assert forall|x: int, y: int| 0 <= x < y < c.plan.len() implies #[trigger] c.precedes(
            x,
            y,
        ) by {
            assert(!marks[plan[y].1].is_relative());
            assert(!(c.mark(y) is End));
        }
    }
    lemma_returned_sequence(before, afters[last], plan, marks, b, rows[last], row_of);
    splice_is_the_plan_of_the_slot(c, rest_order(c), rows[last], row_of);
    assert(out[last] == splice::spliced_plan(rows[last], plan, row_of));
    lemma_slot_plan(c, rest_order(c));
    placement::plan_names_places(so_far(marks, n, p));
    splice::lemma_spliced_plan_concat(
        joined_slot(rows, befores, b, last),
        laws::slot_sequence(rows[last], pad, local),
        so_far(marks, n, p).plan(),
        slot_plan(c, rest_order(c)),
        row_of,
    );
}

/// In a right-padded batch, every marker but a `Middle` sits where each slot
/// alone would put it: a slot with rows in the last chunk has filled those
/// before it.
pub proof fn right_padding_stays(marks: Seq<Marker>, first: int, mine: int, rest: int)
    requires
        rest > 0 ==> mine == first,
        halves_nothing(marks),
        0 < first,
        0 <= rest,
    ensures
        stays(marks, first, mine, rest),
{
}

} // verus!
