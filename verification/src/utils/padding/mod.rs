//! Right-padded batches of sequences of different lengths.
//!
//! A caller that batches sequences of different lengths pads each one on the
//! **right** to a common length, and says where the padding is: one flag per
//! row, `true` at padding. A padded row is **absent**: to run a padded batch is
//! to run the sequence of each slot alone.
//!
//! A block only ever sees a right-padded mask, and this module keeps it
//! right-padded. One plan splices the class markers for the whole batch, at
//! batch-wide positions, but their place in the sequence of a slot depends on
//! the length of that slot:
//!
//! - `Start` and `Custom(k)` precede a user token, so they sit where every slot
//!   would put them. A `Custom(k)` past the end of a short slot is spliced, and
//!   absent there.
//! - `Middle` and `End` sit at `len / 2` and `len` of each slot. They are
//!   spliced at their batch-wide position like the rest, and [`Padding`]
//!   records where each row sits in the sequence of its own slot.
//! - `End` also works across chunks. `Middle` needs the whole sequence in one
//!   call: its position is half of the full length of each slot, which no
//!   single chunk knows.
pub mod chunks;
pub mod laws;

use crate::utils::class;
use crate::utils::class::splice;
use crate::utils::class::{ClassMarker, Marker};
use crate::utils::order;
use vstd::prelude::*;

verus! {

/// Which rows of a batch of sequences are padding. After a container splices a
/// row that belongs at a per-slot position, it also records where every row
/// sits in the sequence of its own slot.
#[derive(Debug, Clone)]
pub struct Padding {
    /// Per slot and row, `true` at padding, in the batch-wide row order.
    pub pad_bs: Vec<Vec<bool>>,
    /// Per slot and row: the position of the row in the sequence of its own
    /// slot (its real rows first, in order, then its padding). `None`: the
    /// batch-wide order is already the order of every slot.
    pub local_bs: Option<Vec<Vec<usize>>>,
}

/// The real rows of a slot.
pub open spec fn real_rows(pad: Seq<bool>) -> spec_fn(int) -> bool {
    |i: int| !pad[i]
}

/// How many rows of a slot are real.
pub open spec fn n_real(pad: Seq<bool>) -> nat {
    order::count(pad.len(), real_rows(pad))
}

/// Whether `local` orders the rows of a slot: every row has its own place, and
/// the padding follows all of the real rows.
pub open spec fn orders_slot(pad: Seq<bool>, local: Seq<int>) -> bool {
    &&& local.len() == pad.len()
    &&& local.no_duplicates()
    &&& forall|i: int|
        0 <= i < pad.len() ==> 0 <= #[trigger] local[i] < pad.len() && pad[i] == (local[i]
            >= n_real(pad))
}

impl Padding {
    /// How many slots the batch has.
    pub open spec fn batch(self) -> nat {
        self.pad_bs@.len()
    }

    /// How many rows each slot has.
    pub open spec fn rows(self) -> nat {
        if self.pad_bs@.len() == 0 {
            0
        } else {
            self.pad_bs@[0]@.len()
        }
    }

    /// The padding flags of slot `b`.
    pub open spec fn pad(self, b: int) -> Seq<bool> {
        self.pad_bs@[b]@
    }

    /// Where each row of slot `b` sits in the sequence of its own slot.
    pub open spec fn local(self, b: int) -> Seq<int> {
        match self.local_bs {
            Some(local) => order::ints(local@[b]@),
            None => order::indices(self.rows()),
        }
    }

    /// Every slot has the same number of rows, each row has its own place in
    /// its slot, and the padding of a slot follows all of its real rows.
    pub open spec fn wf(self) -> bool {
        &&& self.local_bs matches Some(local) ==> local@.len() == self.batch()
        &&& forall|b: int|
            0 <= b < self.batch() ==> (#[trigger] self.pad_bs@[b])@.len() == self.rows()
        &&& forall|b: int|
            0 <= b < self.batch() ==> orders_slot(#[trigger] self.pad(b), self.local(b))
    }

    /// A right-padded batch: one row of flags per slot, `true` at padding, and
    /// in every slot the padding follows all of its real rows.
    pub fn new(pad_bs: Vec<Vec<bool>>) -> (padding: Self)
        requires
            is_right_padded(pad_bs@),
        ensures
            padding == (Padding { pad_bs, local_bs: None }),
            padding.wf(),
    {
        let padding = Padding { pad_bs, local_bs: None };
        proof {
            assert forall|b: int| 0 <= b < padding.batch() implies orders_slot(
                #[trigger] padding.pad(b),
                padding.local(b),
            ) by {
                assert(padding.pad_bs@[b]@.len() == padding.pad_bs@[0]@.len());
                lemma_right_padded(padding.pad(b));
            }
        }
        padding
    }

    /// The number of slots, and of rows per slot.
    pub fn dims(&self) -> (dims: [usize; 2])
        ensures
            dims[0] == self.batch(),
            dims[1] == self.rows(),
    {
        if self.pad_bs.len() == 0 {
            [0, 0]
        } else {
            [self.pad_bs.len(), self.pad_bs[0].len()]
        }
    }
}

/// Whether the padding of one slot follows all of its real rows.
pub open spec fn slot_right_padded(pad: Seq<bool>) -> bool {
    forall|i: int, j: int| 0 <= i < j < pad.len() && #[trigger] pad[i] ==> #[trigger] pad[j]
}

/// Whether a mask is one of a right-padded batch: slots of one length, padded
/// after their real rows.
pub open spec fn is_right_padded(pad_bs: Seq<Vec<bool>>) -> bool {
    &&& forall|b: int| 0 <= b < pad_bs.len() ==> (#[trigger] pad_bs[b])@.len() == pad_bs[0]@.len()
    &&& forall|b: int| 0 <= b < pad_bs.len() ==> slot_right_padded((#[trigger] pad_bs[b])@)
}

/// Whether `pad_bs` is the mask of a right-padded batch.
pub fn right_padded(pad_bs: &Vec<Vec<bool>>) -> (ok: bool)
    ensures
        ok == is_right_padded(pad_bs@),
{
    let mut b: usize = 0;
    while b < pad_bs.len()
        invariant
            b <= pad_bs@.len(),
            forall|c: int| 0 <= c < b ==> (#[trigger] pad_bs@[c])@.len() == pad_bs@[0]@.len(),
            forall|c: int| 0 <= c < b ==> slot_right_padded((#[trigger] pad_bs@[c])@),
        decreases pad_bs@.len() - b,
    {
        let pad = &pad_bs[b];
        if pad.len() != pad_bs[0].len() {
            return false;
        }
        let mut i: usize = 0;
        let mut seen = false;
        while i < pad.len()
            invariant
                b < pad_bs@.len(),
                *pad == pad_bs@[b as int],
                i <= pad@.len(),
                seen == (i > 0 && pad@[i - 1]),
                forall|x: int, y: int|
                    0 <= x < y < i && #[trigger] pad@[x] ==> #[trigger] pad@[y],
            decreases pad@.len() - i,
        {
            if seen && !pad[i] {
                assert(pad@[i - 1] && !pad@[i as int]);
                assert(!slot_right_padded(pad_bs@[b as int]@));
                return false;
            }
            seen = pad[i];
            i = i + 1;
        }
        b = b + 1;
    }
    true
}

/// The rows of a right-padded slot are already in order.
pub proof fn lemma_right_padded(pad: Seq<bool>)
    requires
        slot_right_padded(pad),
    ensures
        orders_slot(pad, order::indices(pad.len())),
{
    order::lemma_count_downward(pad.len(), real_rows(pad));
    assert forall|i: int| 0 <= i < pad.len() implies pad[i] == (i >= n_real(pad)) by {
        assert(real_rows(pad)(i) == (i < n_real(pad)));
    }
}

/// The real rows of a slot.
fn real_count(pad: &Vec<bool>) -> (n: usize)
    ensures
        n == n_real(pad@),
        n <= pad@.len(),
{
    let mut n: usize = 0;
    let mut i: usize = 0;
    while i < pad.len()
        invariant
            i <= pad@.len(),
            n <= i,
            n == order::count(i as nat, real_rows(pad@)),
        decreases pad@.len() - i,
    {
        if !pad[i] {
            n = n + 1;
        }
        i = i + 1;
    }
    n
}

/// The splice of a plan into one slot: its flags, the places of its rows, and
/// the markers that the plan names.
pub struct SlotSplice {
    /// The padding flags of the slot.
    pub pad: Seq<bool>,
    /// Where each row sits in the sequence of the slot.
    pub local: Seq<int>,
    /// The plan, for the whole batch.
    pub plan: Seq<(int, int)>,
    /// The markers of the container.
    pub marks: Seq<Marker>,
}

impl SlotSplice {
    /// The length of the sequence of the slot.
    pub open spec fn len(self) -> int {
        n_real(self.pad) as int
    }

    /// The marker of plan entry `j`.
    pub open spec fn mark(self, j: int) -> Marker {
        self.marks[self.plan[j].1]
    }

    /// Where the marker of entry `j` enters the sequence of its slot: before
    /// this row, or after the last. `Start`/`Custom` precede the row that the
    /// plan put them before. `Middle`/`End` follow the length of the slot.
    pub open spec fn entry(self, j: int) -> int {
        match self.mark(j) {
            Marker::End => self.len(),
            Marker::Middle => self.len() / 2,
            _ => self.plan[j].0,
        }
    }

    /// Whether the marker of entry `j` lands in this slot: it closes the
    /// sequence, or precedes one of its rows.
    pub open spec fn present(self, j: int) -> bool {
        self.mark(j) is End || self.entry(j) < self.len()
    }

    /// What entries that enter at one place sort by: their kind, then the
    /// order of declaration.
    pub open spec fn kinds(self) -> Seq<(int, int)> {
        Seq::new(self.plan.len(), |j: int| (self.mark(j).rank(), self.plan[j].1))
    }

    /// Whether entry `i` comes before entry `j` in this slot.
    pub open spec fn precedes(self, i: int, j: int) -> bool {
        self.entry(i) < self.entry(j) || (self.entry(i) == self.entry(j) && order::index_lt(
            self.kinds(),
            i,
            j,
        ))
    }

    /// The entries that land.
    pub open spec fn landing(self) -> spec_fn(int) -> bool {
        |j: int| self.present(j)
    }

    /// How many entries land.
    pub open spec fn landed(self) -> nat {
        order::count(self.plan.len(), self.landing())
    }

    /// The entries that land at or before row `q` of the slot.
    pub open spec fn landing_up_to(self, q: int) -> spec_fn(int) -> bool {
        |j: int| self.present(j) && self.entry(j) <= q
    }

    /// The entries that land before entry `j`.
    pub open spec fn landing_before(self, j: int) -> spec_fn(int) -> bool {
        |i: int| self.present(i) && self.precedes(i, j)
    }

    /// The entries before `j` that do not land.
    pub open spec fn absent_before(self, j: int) -> spec_fn(int) -> bool {
        |i: int| i < j && !self.present(i)
    }

    /// Where row `i` moves to. A real row moves down by the markers that enter
    /// at or before it. A padded row moves down by all of them, because the
    /// padding follows every real row.
    pub open spec fn row_local(self, i: int) -> int {
        if self.pad[i] {
            self.local[i] + self.landed()
        } else {
            self.local[i] + order::count(self.plan.len(), self.landing_up_to(self.local[i]))
        }
    }

    /// The place of the marker of entry `j`: its entry point, plus the markers
    /// ordered before it there. Absent markers follow all the rest, in plan
    /// order.
    pub open spec fn marker_local(self, j: int) -> int {
        if self.present(j) {
            self.entry(j) + order::count(self.plan.len(), self.landing_before(j))
        } else {
            (self.pad.len() + self.landed() + order::count(
                self.plan.len(),
                self.absent_before(j),
            )) as int
        }
    }

    /// The flags after the splice: a marker is padding where it does not land.
    pub open spec fn spliced_pad(self) -> Seq<bool> {
        splice::spliced(
            self.pad,
            splice::plan_ats(self.plan),
            Seq::new(self.plan.len(), |j: int| !self.present(j)),
        )
    }

    /// The places of the rows after the splice.
    pub open spec fn spliced_local(self) -> Seq<int> {
        splice::spliced(
            Seq::new(self.pad.len(), |i: int| self.row_local(i)),
            splice::plan_ats(self.plan),
            Seq::new(self.plan.len(), |j: int| self.marker_local(j)),
        )
    }
}

/// Whether a plan moves a row of some slot: it names a `Middle` or an `End`.
pub open spec fn moves(plan: Seq<(int, int)>, marks: Seq<Marker>) -> bool {
    exists|j: int| 0 <= j < plan.len() && marks[(#[trigger] plan[j]).1].is_relative()
}

/// Whether a plan can be spliced into slots of `rows` rows: it names places in
/// order and markers that exist, and a `Middle` only where the chunk is the
/// whole sequence.
pub open spec fn spliceable(
    plan: Seq<(int, int)>,
    marks: Seq<Marker>,
    rows: int,
    whole: bool,
) -> bool {
    &&& splice::places(splice::plan_ats(plan), rows)
    &&& rows + plan.len() <= usize::MAX
    &&& forall|j: int| 0 <= j < plan.len() ==> 0 <= (#[trigger] plan[j]).1 < marks.len()
    &&& whole || forall|j: int|
        0 <= j < plan.len() ==> !(marks[(#[trigger] plan[j]).1] is Middle)
}

impl Padding {
    /// The splice of `plan` into slot `b`.
    pub open spec fn slot(self, plan: Seq<(int, int)>, marks: Seq<Marker>, b: int) -> SlotSplice {
        SlotSplice { pad: self.pad(b), local: self.local(b), plan, marks }
    }

    /// Whether the splice of `plan` turns this padding into `next`. While every
    /// row is where its slot puts it and no marker moves one, the batch-wide
    /// order stays the order of every slot.
    pub open spec fn splices_to(
        self,
        plan: Seq<(int, int)>,
        marks: Seq<Marker>,
        next: Padding,
    ) -> bool {
        &&& next.batch() == self.batch()
        &&& next.batch() > 0 ==> next.rows() == self.rows() + plan.len()
        &&& forall|b: int|
            0 <= b < self.batch() ==> #[trigger] next.pad(b) == self.slot(
                plan,
                marks,
                b,
            ).spliced_pad()
        &&& next.local_bs is None == (self.local_bs is None && !moves(plan, marks))
        &&& next.local_bs is Some ==> forall|b: int|
            0 <= b < self.batch() ==> #[trigger] next.local(b) == self.slot(
                plan,
                marks,
                b,
            ).spliced_local()
    }
}

/// Slots one after another have the real rows of both.
proof fn lemma_real_concat(a: Seq<bool>, b: Seq<bool>)
    ensures
        n_real(a + b) == n_real(a) + n_real(b),
    decreases b.len(),
{
    if b.len() == 0 {
        assert(a + b =~= a);
    } else {
        let ab = a + b;
        let front = b.drop_last();
        lemma_real_concat(a, front);
        let all = (ab.len() - 1) as nat;
        assert(a + front =~= ab.drop_last());
        order::lemma_count_ext(all, real_rows(ab), real_rows(a + front));
        order::lemma_count_ext(front.len(), real_rows(b), real_rows(front));
    }
}

/// A splice adds the real columns to the real rows.
proof fn lemma_real_spliced(rows: Seq<bool>, ats: Seq<int>, cols: Seq<bool>)
    requires
        splice::places(ats, rows.len() as int),
        cols.len() == ats.len(),
    ensures
        n_real(splice::spliced(rows, ats, cols)) == n_real(rows) + n_real(cols),
    decreases ats.len(),
{
    if ats.len() == 0 {
    } else {
        let k = ats.len();
        let at = ats.last();
        let front = ats.drop_last();
        assert(at == ats[k - 1]);
        assert forall|j: int| 0 <= j < k - 1 implies 0 <= #[trigger] front[j] <= at by {
            assert(ats[j] <= ats[k - 1]);
        }
        let head = splice::spliced(rows.take(at), front, cols.drop_last());
        lemma_real_spliced(rows.take(at), front, cols.drop_last());
        let last = seq![cols.last()];
        assert(head.push(cols.last()) =~= head + last);
        assert(cols =~= cols.drop_last() + last);
        assert(rows =~= rows.take(at) + rows.skip(at));
        lemma_real_concat(head, last);
        lemma_real_concat(cols.drop_last(), last);
        lemma_real_concat(rows.take(at), rows.skip(at));
        lemma_real_concat(head.push(cols.last()), rows.skip(at));
    }
}

impl SlotSplice {
    /// Whether the slot is in order and the plan names its places.
    pub open spec fn wf(self) -> bool {
        &&& orders_slot(self.pad, self.local)
        &&& splice::places(splice::plan_ats(self.plan), self.pad.len() as int)
    }

    /// The markers that land in a slot enter at one of its rows or after them.
    pub proof fn lemma_entry(self, j: int)
        requires
            self.wf(),
            0 <= j < self.plan.len(),
        ensures
            0 <= self.entry(j),
            self.present(j) ==> self.entry(j) <= self.len(),
    {
        let ats = splice::plan_ats(self.plan);
        assert(ats[j] == self.plan[j].0);
    }

    /// How many entries land, and how many do not.
    proof fn lemma_landed(self)
        ensures
            self.landed() <= self.plan.len(),
            n_real(Seq::new(self.plan.len(), |j: int| !self.present(j))) == self.landed(),
    {
        let cols = Seq::new(self.plan.len(), |j: int| !self.present(j));
        order::lemma_count_bound(self.plan.len(), self.landing());
        order::lemma_count_ext(self.plan.len(), real_rows(cols), self.landing());
    }

    /// A real row stays among the real rows, and a padded one among the rest.
    proof fn lemma_row_local(self, i: int)
        requires
            self.wf(),
            0 <= i < self.pad.len(),
        ensures
            0 <= self.row_local(i) < self.pad.len() + self.landed(),
            self.pad[i] == (self.row_local(i) >= self.len() + self.landed()),
    {
        assert(0 <= self.local[i] < self.pad.len());
        order::lemma_count_le(
            self.plan.len(),
            self.landing_up_to(self.local[i]),
            self.landing(),
        );
    }

    /// A marker that lands is among the real rows, and the others follow every
    /// row.
    proof fn lemma_marker_local(self, j: int)
        requires
            self.wf(),
            0 <= j < self.plan.len(),
        ensures
            self.present(j) ==> 0 <= self.marker_local(j) < self.len() + self.landed(),
            !self.present(j) ==> self.pad.len() + self.landed() <= self.marker_local(j)
                < self.pad.len() + self.plan.len(),
            self.len() <= self.pad.len(),
    {
        let k = self.plan.len();
        order::lemma_count_bound(self.pad.len(), real_rows(self.pad));
        self.lemma_entry(j);
        if self.present(j) {
            order::lemma_count_lt(k, self.landing_before(j), self.landing(), j);
        } else {
            let absent = |i: int| !self.present(i);
            let every = |i: int| true;
            order::lemma_count_lt(k, self.absent_before(j), absent, j);
            order::lemma_count_or(k, self.landing(), absent, every);
            order::lemma_count_all(k, every);
        }
    }

    /// Two rows never move to one place.
    proof fn lemma_rows_apart(self, a: int, b: int)
        requires
            self.wf(),
            0 <= a < self.pad.len(),
            0 <= b < self.pad.len(),
            self.local[a] < self.local[b],
        ensures
            self.row_local(a) < self.row_local(b),
    {
        let k = self.plan.len();
        self.lemma_row_local(a);
        self.lemma_row_local(b);
        assert(self.pad[a] == (self.local[a] >= n_real(self.pad)));
        assert(self.pad[b] == (self.local[b] >= n_real(self.pad)));
        if !self.pad[b] {
            order::lemma_count_le(
                k,
                self.landing_up_to(self.local[a]),
                self.landing_up_to(self.local[b]),
            );
        }
    }

    /// Two markers never move to one place.
    proof fn lemma_markers_apart(self, a: int, b: int)
        requires
            self.wf(),
            0 <= a < b < self.plan.len(),
        ensures
            self.marker_local(a) != self.marker_local(b),
    {
        let k = self.plan.len();
        self.lemma_marker_local(a);
        self.lemma_marker_local(b);
        if self.present(a) && self.present(b) {
            let (x, y) = if self.precedes(a, b) {
                (a, b)
            } else {
                (b, a)
            };
            assert(self.precedes(x, y)) by {
                assert(self.kinds()[a] == (self.mark(a).rank(), self.plan[a].1));
                assert(self.kinds()[b] == (self.mark(b).rank(), self.plan[b].1));
            }
            order::lemma_count_lt(k, self.landing_before(x), self.landing_before(y), x);
        } else if !self.present(a) && !self.present(b) {
            order::lemma_count_lt(k, self.absent_before(a), self.absent_before(b), a);
        }
    }

    /// A row and a marker never move to one place.
    proof fn lemma_row_and_marker_apart(self, i: int, j: int)
        requires
            self.wf(),
            0 <= i < self.pad.len(),
            0 <= j < self.plan.len(),
        ensures
            self.row_local(i) != self.marker_local(j),
    {
        let k = self.plan.len();
        self.lemma_row_local(i);
        self.lemma_marker_local(j);
        if self.present(j) && !self.pad[i] {
            let q = self.local[i];
            if self.entry(j) <= q {
                order::lemma_count_lt(k, self.landing_before(j), self.landing_up_to(q), j);
            } else {
                order::lemma_count_le(k, self.landing_up_to(q), self.landing_before(j));
            }
        }
    }

    /// A splice keeps the slot in order: its real rows and the markers that
    /// land come first, in their places, and everything absent follows.
    pub proof fn lemma_keeps_order(self)
        requires
            self.wf(),
        ensures
            orders_slot(self.spliced_pad(), self.spliced_local()),
            self.spliced_pad().len() == self.pad.len() + self.plan.len(),
            n_real(self.spliced_pad()) == self.len() + self.landed(),
    {
        let n = self.pad.len() as int;
        let k = self.plan.len();
        let ats = splice::plan_ats(self.plan);
        let row_locals = Seq::new(self.pad.len(), |i: int| self.row_local(i));
        let marker_locals = Seq::new(k, |j: int| self.marker_local(j));
        let absent = Seq::new(k, |j: int| !self.present(j));
        let pad = self.spliced_pad();
        let local = self.spliced_local();
        self.lemma_landed();
        splice::lemma_spliced_len(self.pad, ats, absent);
        splice::lemma_spliced_len(row_locals, ats, marker_locals);
        lemma_real_spliced(self.pad, ats, absent);
        assert forall|x: int| 0 <= x < pad.len() implies 0 <= #[trigger] local[x] < pad.len()
            && pad[x] == (local[x] >= n_real(pad)) by {
            match splice::lemma_spliced_cover(ats, n, x) {
                Ok(i) => {
                    splice::lemma_spliced_row(self.pad, ats, absent, i);
                    splice::lemma_spliced_row(row_locals, ats, marker_locals, i);
                    self.lemma_row_local(i);
                },
                Err(j) => {
                    splice::lemma_spliced_col(self.pad, ats, absent, j);
                    splice::lemma_spliced_col(row_locals, ats, marker_locals, j);
                    self.lemma_marker_local(j);
                },
            }
        }
        assert forall|x: int, y: int| 0 <= x < y < local.len() implies local[x] != local[y] by {
            let from_x = splice::lemma_spliced_cover(ats, n, x);
            let from_y = splice::lemma_spliced_cover(ats, n, y);
            match from_x {
                Ok(i) => {
                    splice::lemma_spliced_row(row_locals, ats, marker_locals, i);
                    match from_y {
                        Ok(j) => {
                            splice::lemma_spliced_row(row_locals, ats, marker_locals, j);
                            assert(self.local[i] != self.local[j]);
                            if self.local[i] < self.local[j] {
                                self.lemma_rows_apart(i, j);
                            } else {
                                self.lemma_rows_apart(j, i);
                            }
                        },
                        Err(j) => {
                            splice::lemma_spliced_col(row_locals, ats, marker_locals, j);
                            self.lemma_row_and_marker_apart(i, j);
                        },
                    }
                },
                Err(i) => {
                    splice::lemma_spliced_col(row_locals, ats, marker_locals, i);
                    match from_y {
                        Ok(j) => {
                            splice::lemma_spliced_row(row_locals, ats, marker_locals, j);
                            self.lemma_row_and_marker_apart(j, i);
                        },
                        Err(j) => {
                            splice::lemma_spliced_col(row_locals, ats, marker_locals, j);
                            self.lemma_markers_apart(i, j);
                        },
                    }
                },
            }
        }
    }

    /// While every row is where its slot puts it, a plan of `Start` and `Custom`
    /// markers keeps it so: a marker takes the padding of the row it precedes.
    pub proof fn lemma_keeps_rows_in_place(self)
        requires
            self.wf(),
            self.local == order::indices(self.pad.len()),
            forall|j: int| 0 <= j < self.plan.len() ==> !(#[trigger] self.mark(j)).is_relative(),
        ensures
            orders_slot(
                self.spliced_pad(),
                order::indices(self.pad.len() + self.plan.len()),
            ),
            self.spliced_pad().len() == self.pad.len() + self.plan.len(),
    {
        let n = self.pad.len() as int;
        let k = self.plan.len();
        let ats = splice::plan_ats(self.plan);
        let absent = Seq::new(k, |j: int| !self.present(j));
        let pad = self.spliced_pad();
        self.lemma_keeps_order();
        assert forall|x: int| 0 <= x < pad.len() implies pad[x] == (x >= self.len()
            + self.landed()) by {
            match splice::lemma_spliced_cover(ats, n, x) {
                Ok(i) => {
                    splice::lemma_spliced_row(self.pad, ats, absent, i);
                    assert(self.local[i] == i);
                    if self.pad[i] {
                        assert forall|j: int| 0 <= j < k && #[trigger] self.landing()(
                            j,
                        ) implies splice::up_to(ats, i)(j) by {
                            assert(!self.mark(j).is_relative());
                        }
                        order::lemma_count_le(k, self.landing(), splice::up_to(ats, i));
                    } else {
                        assert forall|j: int| 0 <= j < k && #[trigger] splice::up_to(ats, i)(
                            j,
                        ) implies self.landing()(j) by {
                            assert(!self.mark(j).is_relative());
                        }
                        order::lemma_count_le(k, splice::up_to(ats, i), self.landing());
                    }
                },
                Err(j) => {
                    splice::lemma_spliced_col(self.pad, ats, absent, j);
                    assert(!self.mark(j).is_relative());
                    order::lemma_count_below(k, j);
                    if self.present(j) {
                        order::lemma_count_below(k, j + 1);
                        assert forall|i: int| 0 <= i < k && #[trigger] order::below(j + 1)(
                            i,
                        ) implies self.landing()(i) by {
                            assert(!self.mark(i).is_relative());
                            assert(ats[i] <= ats[j]);
                        }
                        order::lemma_count_le(k, order::below(j + 1), self.landing());
                    } else {
                        assert forall|i: int| 0 <= i < k && #[trigger] self.landing()(
                            i,
                        ) implies order::below(j)(i) by {
                            assert(!self.mark(i).is_relative());
                            if i >= j {
                                assert(ats[j] <= ats[i]);
                            }
                        }
                        order::lemma_count_le(k, self.landing(), order::below(j));
                    }
                },
            }
        }
    }
}

/// Where each marker of `plan` enters a slot of `len` real rows, and whether it
/// is absent there.
fn slot_entries<M: ClassMarker>(
    len: usize,
    plan: &Vec<(usize, usize)>,
    markers: &[M],
    Ghost(slot): Ghost<SlotSplice>,
) -> (entries: (Vec<usize>, Vec<bool>))
    requires
        slot.plan == class::int_pairs(plan@),
        slot.marks == class::marks(markers@),
        slot.len() == len,
        forall|j: int| 0 <= j < plan@.len() ==> (#[trigger] plan@[j]).1 < markers@.len(),
    ensures
        entries.0@.len() == plan@.len(),
        entries.1@ == Seq::new(plan@.len(), |j: int| !slot.present(j)),
        forall|j: int| 0 <= j < plan@.len() ==> #[trigger] entries.0@[j] == slot.entry(j),
{
    let mut entries: Vec<usize> = Vec::new();
    let mut absent: Vec<bool> = Vec::new();
    let mut j: usize = 0;
    while j < plan.len()
        invariant
            j <= plan@.len(),
            entries.len() == j,
            absent.len() == j,
            slot.plan == class::int_pairs(plan@),
            slot.marks == class::marks(markers@),
            slot.len() == len,
            forall|j: int| 0 <= j < plan@.len() ==> (#[trigger] plan@[j]).1 < markers@.len(),
            forall|i: int| 0 <= i < j ==> #[trigger] entries@[i] == slot.entry(i),
            forall|i: int| 0 <= i < j ==> #[trigger] absent@[i] == !slot.present(i),
        decreases plan@.len() - j,
    {
        let (at, i) = plan[j];
        assert(slot.plan[j as int] == (at as int, i as int));
        assert(slot.mark(j as int) == markers@[i as int].marker());
        let closes = markers[i].closes_sequence();
        let entry: usize = if closes {
            len
        } else if markers[i].needs_full_len() {
            len / 2
        } else {
            at
        };
        entries.push(entry);
        absent.push(!closes && entry >= len);
        j = j + 1;
    }
    assert(absent@ =~= Seq::new(plan@.len(), |j: int| !slot.present(j)));
    (entries, absent)
}

/// The places of the rows and of the markers of one slot after a splice.
fn slot_locals<M: ClassMarker>(
    pad: &Vec<bool>,
    local: &Vec<usize>,
    plan: &Vec<(usize, usize)>,
    markers: &[M],
    entries: &Vec<usize>,
    absent: &Vec<bool>,
    Ghost(slot): Ghost<SlotSplice>,
) -> (locals: (Vec<usize>, Vec<usize>))
    requires
        slot.plan == class::int_pairs(plan@),
        slot.marks == class::marks(markers@),
        slot.pad == pad@,
        slot.local == order::ints(local@),
        slot.wf(),
        pad@.len() + plan@.len() <= usize::MAX,
        forall|j: int| 0 <= j < plan@.len() ==> (#[trigger] plan@[j]).1 < markers@.len(),
        entries@.len() == plan@.len(),
        absent@ == Seq::new(plan@.len(), |j: int| !slot.present(j)),
        forall|j: int| 0 <= j < plan@.len() ==> #[trigger] entries@[j] == slot.entry(j),
    ensures
        locals.0@.len() == pad@.len(),
        locals.1@.len() == plan@.len(),
        order::ints(locals.0@) == Seq::new(pad@.len(), |i: int| slot.row_local(i)),
        order::ints(locals.1@) == Seq::new(plan@.len(), |j: int| slot.marker_local(j)),
{
    let n: usize = pad.len();
    let k: usize = plan.len();
    let mut landed: usize = 0;
    let mut j: usize = 0;
    while j < k
        invariant
            k == plan.len(),
            j <= k,
            landed <= j,
            absent@ == Seq::new(plan@.len(), |j: int| !slot.present(j)),
            landed == order::count(j as nat, slot.landing()),
        decreases k - j,
    {
        if !absent[j] {
            landed = landed + 1;
        }
        j = j + 1;
    }
    proof {
        slot.lemma_landed();
    }

    let mut rows: Vec<usize> = Vec::new();
    let mut i: usize = 0;
    while i < n
        invariant
            n == pad.len(),
            k == plan.len(),
            i <= n,
            rows.len() == i,
            n + k <= usize::MAX,
            slot.plan == class::int_pairs(plan@),
            slot.pad == pad@,
            slot.local == order::ints(local@),
            slot.wf(),
            landed == slot.landed(),
            landed <= k,
            entries@.len() == k,
            absent@ == Seq::new(plan@.len(), |j: int| !slot.present(j)),
            forall|j: int| 0 <= j < k ==> #[trigger] entries@[j] == slot.entry(j),
            forall|x: int| 0 <= x < i ==> #[trigger] rows@[x] == slot.row_local(x),
        decreases n - i,
    {
        let q: usize = local[i];
        assert(slot.local[i as int] == q);
        if pad[i] {
            rows.push(q + landed);
        } else {
            let mut before: usize = 0;
            let mut j: usize = 0;
            while j < k
                invariant
                    j <= k,
                    before <= j,
                    k == plan@.len(),
                    entries@.len() == k,
                    absent@ == Seq::new(plan@.len(), |j: int| !slot.present(j)),
                    forall|j: int| 0 <= j < k ==> #[trigger] entries@[j] == slot.entry(j),
                    before == order::count(j as nat, slot.landing_up_to(q as int)),
                decreases k - j,
            {
                if !absent[j] && entries[j] <= q {
                    before = before + 1;
                }
                j = j + 1;
            }
            rows.push(q + before);
        }
        i = i + 1;
    }

    let mut marks: Vec<usize> = Vec::new();
    let mut j: usize = 0;
    while j < k
        invariant
            n == pad.len(),
            k == plan.len(),
            j <= k,
            marks.len() == j,
            n + k <= usize::MAX,
            slot.plan == class::int_pairs(plan@),
            slot.marks == class::marks(markers@),
            slot.pad == pad@,
            slot.wf(),
            landed == slot.landed(),
            landed <= k,
            entries@.len() == k,
            absent@ == Seq::new(plan@.len(), |j: int| !slot.present(j)),
            forall|j: int| 0 <= j < plan@.len() ==> (#[trigger] plan@[j]).1 < markers@.len(),
            forall|j: int| 0 <= j < k ==> #[trigger] entries@[j] == slot.entry(j),
            forall|x: int| 0 <= x < j ==> #[trigger] marks@[x] == slot.marker_local(x),
        decreases k - j,
    {
        let m: usize = plan[j].1;
        assert(slot.plan[j as int].1 == m);
        assert(slot.mark(j as int) == markers@[m as int].marker());
        let rank: usize = markers[m].group_rank();
        let mut ahead: usize = 0;
        let mut absent_ahead: usize = 0;
        let mut i: usize = 0;
        while i < k
            invariant
                i <= k,
                j < k,
                ahead <= i,
                absent_ahead <= i,
                k == plan@.len(),
                m == plan@[j as int].1,
                slot.plan == class::int_pairs(plan@),
                slot.marks == class::marks(markers@),
                rank == slot.mark(j as int).rank(),
                entries@.len() == k,
                absent@ == Seq::new(plan@.len(), |j: int| !slot.present(j)),
                forall|j: int| 0 <= j < plan@.len() ==> (#[trigger] plan@[j]).1 < markers@.len(),
                forall|j: int| 0 <= j < k ==> #[trigger] entries@[j] == slot.entry(j),
                ahead == order::count(i as nat, slot.landing_before(j as int)),
                absent_ahead == order::count(i as nat, slot.absent_before(j as int)),
            decreases k - i,
        {
            let other: usize = plan[i].1;
            assert(slot.plan[i as int].1 == other);
            assert(slot.mark(i as int) == markers@[other as int].marker());
            assert(slot.kinds()[i as int] == (slot.mark(i as int).rank(), other as int));
            assert(slot.kinds()[j as int] == (slot.mark(j as int).rank(), m as int));
            let other_rank: usize = markers[other].group_rank();
            let precedes = entries[i] < entries[j] || (entries[i] == entries[j] && (other_rank
                < rank || (other_rank == rank && (other < m || (other == m && i < j)))));
            assert(precedes == slot.precedes(i as int, j as int));
            if !absent[i] {
                if precedes {
                    ahead = ahead + 1;
                }
            } else if i < j {
                absent_ahead = absent_ahead + 1;
            }
            i = i + 1;
        }
        proof {
            slot.lemma_marker_local(j as int);
        }
        if !absent[j] {
            marks.push(entries[j] + ahead);
        } else {
            marks.push(n + landed + absent_ahead);
        }
        j = j + 1;
    }
    proof {
        assert(order::ints(rows@) =~= Seq::new(pad@.len(), |i: int| slot.row_local(i)));
        assert(order::ints(marks@) =~= Seq::new(plan@.len(), |j: int| slot.marker_local(j)));
    }
    (rows, marks)
}

/// `0, 1, ..` for `n` rows.
fn arange(n: usize) -> (rows: Vec<usize>)
    ensures
        order::ints(rows@) == order::indices(n as nat),
{
    let mut rows: Vec<usize> = Vec::new();
    let mut i: usize = 0;
    while i < n
        invariant
            i <= n,
            rows.len() == i,
            forall|x: int| 0 <= x < i ==> #[trigger] rows@[x] == x,
        decreases n - i,
    {
        rows.push(i);
        i = i + 1;
    }
    assert(order::ints(rows@) =~= order::indices(n as nat));
    rows
}

/// Whether a plan names a `Middle` or an `End`.
fn plan_moves<M: ClassMarker>(plan: &Vec<(usize, usize)>, markers: &[M]) -> (found: bool)
    requires
        forall|j: int| 0 <= j < plan@.len() ==> (#[trigger] plan@[j]).1 < markers@.len(),
    ensures
        found == moves(class::int_pairs(plan@), class::marks(markers@)),
{
    let ghost pairs = class::int_pairs(plan@);
    let ghost ms = class::marks(markers@);
    let mut j: usize = 0;
    while j < plan.len()
        invariant
            j <= plan@.len(),
            pairs == class::int_pairs(plan@),
            ms == class::marks(markers@),
            forall|j: int| 0 <= j < plan@.len() ==> (#[trigger] plan@[j]).1 < markers@.len(),
            forall|i: int| 0 <= i < j ==> !ms[(#[trigger] pairs[i]).1].is_relative(),
        decreases plan@.len() - j,
    {
        let m: usize = plan[j].1;
        assert(pairs[j as int].1 == m);
        assert(ms[m as int] == markers@[m as int].marker());
        if markers[m].needs_full_len() {
            return true;
        }
        j = j + 1;
    }
    false
}

impl Padding {
    /// Splice the rows that a class-marker plan inserts (`(at, marker)` pairs,
    /// as [`class::class_chunk_plan`] returns them).
    ///
    /// `whole` says that the spliced chunk is the entire sequence (its cursor
    /// at the start, and its full length equal to the chunk length). A
    /// `Middle` needs it.
    pub fn splice<M: ClassMarker>(
        self,
        plan: &Vec<(usize, usize)>,
        markers: &[M],
        whole: bool,
    ) -> (spliced: Self)
        requires
            self.wf(),
            spliceable(
                class::int_pairs(plan@),
                class::marks(markers@),
                self.rows() as int,
                whole,
            ),
        ensures
            spliced.wf(),
            self.splices_to(class::int_pairs(plan@), class::marks(markers@), spliced),
    {
        self.spliced(plan, markers, whole)
    }

    /// [`Self::splice`] that leaves this padding where it is.
    pub fn spliced<M: ClassMarker>(
        &self,
        plan: &Vec<(usize, usize)>,
        markers: &[M],
        whole: bool,
    ) -> (spliced: Self)
        requires
            self.wf(),
            spliceable(
                class::int_pairs(plan@),
                class::marks(markers@),
                self.rows() as int,
                whole,
            ),
        ensures
            spliced.wf(),
            self.splices_to(class::int_pairs(plan@), class::marks(markers@), spliced),
    {
        let ghost pairs = class::int_pairs(plan@);
        let ghost ms = class::marks(markers@);
        let ghost ats = splice::plan_ats(pairs);
        proof {
            assert forall|j: int| 0 <= j < plan@.len() implies (#[trigger] plan@[j]).1
                < markers@.len() by {
                assert(0 <= pairs[j].1 < ms.len());
            }
        }
        let keeps = match &self.local_bs {
            Some(_) => false,
            None => !plan_moves(plan, markers),
        };
        let mut pad_bs: Vec<Vec<bool>> = Vec::new();
        let mut local_bs: Vec<Vec<usize>> = Vec::new();
        let mut b: usize = 0;
        while b < self.pad_bs.len()
            invariant
                b <= self.pad_bs@.len(),
                self.wf(),
                pairs == class::int_pairs(plan@),
                ms == class::marks(markers@),
                ats == splice::plan_ats(pairs),
                spliceable(pairs, ms, self.rows() as int, whole),
                forall|j: int| 0 <= j < plan@.len() ==> (#[trigger] plan@[j]).1 < markers@.len(),
                keeps == (self.local_bs is None && !moves(pairs, ms)),
                pad_bs.len() == b,
                !keeps ==> local_bs.len() == b,
                forall|c: int|
                    0 <= c < b ==> (#[trigger] pad_bs@[c])@ == self.slot(
                        pairs,
                        ms,
                        c,
                    ).spliced_pad(),
                !keeps ==> forall|c: int|
                    0 <= c < b ==> order::ints((#[trigger] local_bs@[c])@) == self.slot(
                        pairs,
                        ms,
                        c,
                    ).spliced_local(),
            decreases self.pad_bs@.len() - b,
        {
            let pad = &self.pad_bs[b];
            let ghost slot = self.slot(pairs, ms, b as int);
            assert(pad@ == self.pad(b as int));
            assert(orders_slot(self.pad(b as int), self.local(b as int)));
            let len: usize = real_count(pad);
            let (entries, absent) = slot_entries(len, plan, markers, Ghost(slot));
            pad_bs.push(splice::splice_columns(pad, plan, &absent));
            if !keeps {
                let local: Vec<usize> = match &self.local_bs {
                    Some(local_bs) => {
                        let local = local_bs[b].clone();
                        assert(local@ =~= local_bs@[b as int]@);
                        local
                    },
                    None => arange(pad.len()),
                };
                let (rows, marks) = slot_locals(
                    pad,
                    &local,
                    plan,
                    markers,
                    &entries,
                    &absent,
                    Ghost(slot),
                );
                let spliced = splice::splice_columns(&rows, plan, &marks);
                proof {
                    splice::lemma_spliced_map(rows@, ats, marks@, |i: usize| i as int);
                    assert(rows@.map_values(|i: usize| i as int) =~= order::ints(rows@));
                    assert(marks@.map_values(|i: usize| i as int) =~= order::ints(marks@));
                    assert(spliced@.map_values(|i: usize| i as int) =~= order::ints(spliced@));
                }
                local_bs.push(spliced);
            }
            b = b + 1;
        }
        let spliced = Padding {
            pad_bs,
            local_bs: if keeps {
                None
            } else {
                Some(local_bs)
            },
        };
        proof {
            assert forall|b: int| 0 <= b < spliced.batch() implies (#[trigger] spliced.pad_bs@[b])@.len()
                == self.rows() + plan@.len() by {
                assert(orders_slot(self.pad(b), self.local(b)));
                self.slot(pairs, ms, b).lemma_keeps_order();
            }
            assert forall|b: int| 0 <= b < spliced.batch() implies orders_slot(
                #[trigger] spliced.pad(b),
                spliced.local(b),
            ) by {
                let slot = self.slot(pairs, ms, b);
                assert(orders_slot(self.pad(b), self.local(b)));
                assert(spliced.pad_bs@[b]@.len() == self.rows() + plan@.len());
                assert(spliced.pad_bs@[0]@.len() == self.rows() + plan@.len());
                slot.lemma_keeps_order();
                if keeps {
                    assert forall|j: int| 0 <= j < slot.plan.len() implies !(#[trigger] slot.mark(
                        j,
                    )).is_relative() by {
                        assert(!ms[pairs[j].1].is_relative());
                    }
                    slot.lemma_keeps_rows_in_place();
                }
            }
        }
        spliced
    }

    /// The rows of every slot in its own order, with the matching right-padded
    /// mask: how to gather the rows of a block's input, and how to read its
    /// output back. `None` while every row is already in the order of its
    /// slot.
    pub fn in_slot_order(&self) -> (order: Option<SlotOrder>)
        requires
            self.wf(),
        ensures
            order is None == self.local_bs is None,
            order matches Some(o) ==> o.orders(*self),
    {
        let local_bs = match &self.local_bs {
            Some(local_bs) => local_bs,
            None => {
                return None;
            },
        };
        let mut src_bs: Vec<Vec<usize>> = Vec::new();
        let mut back_bs: Vec<Vec<usize>> = Vec::new();
        let mut pad_bs: Vec<Vec<bool>> = Vec::new();
        let mut b: usize = 0;
        while b < self.pad_bs.len()
            invariant
                self.wf(),
                self.local_bs == Some(*local_bs),
                b <= self.pad_bs@.len(),
                src_bs.len() == b,
                back_bs.len() == b,
                pad_bs.len() == b,
                forall|c: int|
                    0 <= c < b ==> order::ints((#[trigger] back_bs@[c])@) == self.local(c),
                forall|c: int|
                    0 <= c < b ==> gathers(
                        order::ints((#[trigger] src_bs@[c])@),
                        self.local(c),
                    ),
                forall|c: int|
                    0 <= c < b ==> (#[trigger] pad_bs@[c])@ == right_mask(self.pad(c)),
            decreases self.pad_bs@.len() - b,
        {
            let n: usize = self.pad_bs[b].len();
            let local = local_bs[b].clone();
            assert(local@ =~= local_bs@[b as int]@);
            assert(orders_slot(self.pad(b as int), self.local(b as int)));
            let ghost places = self.local(b as int);
            let mut src: Vec<usize> = vec![0; n];
            let mut i: usize = 0;
            while i < n
                invariant
                    i <= n,
                    src.len() == n,
                    places == order::ints(local@),
                    places.len() == n,
                    places.no_duplicates(),
                    forall|x: int| 0 <= x < n ==> 0 <= #[trigger] places[x] < n,
                    forall|x: int| 0 <= x < i ==> src@[#[trigger] places[x]] == x,
                decreases n - i,
            {
                let q: usize = local[i];
                assert(places[i as int] == q);
                src[q] = i;
                i = i + 1;
            }
            proof {
                assert forall|x: int| 0 <= x < n implies order::ints(src@)[#[trigger] places[x]]
                    == x by {
                    assert(0 <= places[x] < n);
                }
            }
            let len: usize = real_count(&self.pad_bs[b]);
            let mut pad: Vec<bool> = Vec::new();
            let mut q: usize = 0;
            while q < n
                invariant
                    q <= n,
                    pad.len() == q,
                    forall|x: int| 0 <= x < q ==> #[trigger] pad@[x] == (x >= len),
                decreases n - q,
            {
                pad.push(q >= len);
                q = q + 1;
            }
            assert(pad@ =~= right_mask(self.pad(b as int)));
            src_bs.push(src);
            back_bs.push(local);
            pad_bs.push(pad);
            b = b + 1;
        }
        Some(SlotOrder { src_bs, back_bs, pad_bs })
    }

    /// The same rows read right to left in each slot (its real rows reversed,
    /// its padding still last), as the reversed direction of a bidirectional
    /// pair reads them.
    ///
    /// Its batch-wide order is the forward one. Only the place of each row in
    /// its slot changes.
    pub fn reversed(&self) -> (reversed: Self)
        requires
            self.wf(),
        ensures
            reversed.wf(),
            reversed.batch() == self.batch(),
            reversed.rows() == self.rows(),
            reversed.local_bs is Some,
            forall|b: int| 0 <= b < self.batch() ==> #[trigger] reversed.pad(b) == self.pad(b),
            forall|b: int|
                0 <= b < self.batch() ==> #[trigger] reversed.local(b) == mirrored(
                    self.pad(b),
                    self.local(b),
                ),
    {
        let mut pad_bs: Vec<Vec<bool>> = Vec::new();
        let mut local_bs: Vec<Vec<usize>> = Vec::new();
        let mut b: usize = 0;
        while b < self.pad_bs.len()
            invariant
                self.wf(),
                b <= self.pad_bs@.len(),
                pad_bs.len() == b,
                local_bs.len() == b,
                forall|c: int| 0 <= c < b ==> (#[trigger] pad_bs@[c])@ == self.pad(c),
                forall|c: int|
                    0 <= c < b ==> order::ints((#[trigger] local_bs@[c])@) == mirrored(
                        self.pad(c),
                        self.local(c),
                    ),
            decreases self.pad_bs@.len() - b,
        {
            let pad = self.pad_bs[b].clone();
            assert(pad@ =~= self.pad(b as int));
            let n: usize = pad.len();
            let len: usize = real_count(&pad);
            assert(orders_slot(self.pad(b as int), self.local(b as int)));
            let ghost places = self.local(b as int);
            let mut local: Vec<usize> = Vec::new();
            let mut i: usize = 0;
            while i < n
                invariant
                    self.wf(),
                    b < self.pad_bs@.len(),
                    i <= n,
                    n == pad@.len(),
                    pad@ == self.pad(b as int),
                    len == n_real(pad@),
                    places == self.local(b as int),
                    orders_slot(pad@, places),
                    local.len() == i,
                    forall|x: int|
                        0 <= x < i ==> #[trigger] local@[x] == mirrored(pad@, places)[x],
                decreases n - i,
            {
                let q: usize = match &self.local_bs {
                    Some(local_bs) => local_bs[b][i],
                    None => i,
                };
                assert(places[i as int] == q);
                if pad[i] {
                    local.push(q);
                } else {
                    local.push(len - 1 - q);
                }
                i = i + 1;
            }
            assert(order::ints(local@) =~= mirrored(self.pad(b as int), places));
            pad_bs.push(pad);
            local_bs.push(local);
            b = b + 1;
        }
        let reversed = Padding { pad_bs, local_bs: Some(local_bs) };
        proof {
            assert forall|b: int| 0 <= b < reversed.batch() implies orders_slot(
                #[trigger] reversed.pad(b),
                reversed.local(b),
            ) by {
                assert(orders_slot(self.pad(b), self.local(b)));
                lemma_mirrored(self.pad(b), self.local(b));
            }
        }
        reversed
    }
}

/// The mask of a slot whose padding has gone last.
pub open spec fn right_mask(pad: Seq<bool>) -> Seq<bool> {
    Seq::new(pad.len(), |q: int| q >= n_real(pad))
}

/// Whether `src` gathers the rows that `local` places: place `local[i]` reads
/// row `i`.
pub open spec fn gathers(src: Seq<int>, local: Seq<int>) -> bool {
    &&& src.len() == local.len()
    &&& forall|i: int| 0 <= i < local.len() ==> src[#[trigger] local[i]] == i
}

/// The places of the rows of a slot read right to left.
pub open spec fn mirrored(pad: Seq<bool>, local: Seq<int>) -> Seq<int> {
    Seq::new(
        local.len(),
        |i: int|
            if pad[i] {
                local[i]
            } else {
                n_real(pad) - 1 - local[i]
            },
    )
}

/// A slot read right to left is in order too.
pub proof fn lemma_mirrored(pad: Seq<bool>, local: Seq<int>)
    requires
        orders_slot(pad, local),
    ensures
        orders_slot(pad, mirrored(pad, local)),
{
    let m = mirrored(pad, local);
    order::lemma_count_bound(pad.len(), real_rows(pad));
    assert forall|i: int| 0 <= i < pad.len() implies 0 <= #[trigger] m[i] < pad.len() && pad[i] == (
    m[i] >= n_real(pad)) by {
        assert(0 <= local[i] < pad.len());
    }
    assert forall|i: int, j: int| 0 <= i < j < m.len() implies m[i] != m[j] by {
        assert(local[i] != local[j]);
        assert(pad[i] == (local[i] >= n_real(pad)));
        assert(pad[j] == (local[j] >= n_real(pad)));
    }
}

/// How a block reads a batch whose slots have an order of their own.
#[derive(Debug, Clone)]
pub struct SlotOrder {
    /// Per slot: the row to read at each place.
    pub src_bs: Vec<Vec<usize>>,
    /// Per slot: the place to read the output of each row back from.
    pub back_bs: Vec<Vec<usize>>,
    /// Per slot: the right-padded mask of the gathered rows.
    pub pad_bs: Vec<Vec<bool>>,
}

impl SlotOrder {
    /// Whether this reads the slots of `padding` in their own order.
    pub open spec fn orders(self, padding: Padding) -> bool {
        &&& self.src_bs@.len() == padding.batch()
        &&& self.back_bs@.len() == padding.batch()
        &&& self.pad_bs@.len() == padding.batch()
        &&& forall|b: int|
            0 <= b < padding.batch() ==> gathers(
                order::ints((#[trigger] self.src_bs@[b])@),
                padding.local(b),
            )
        &&& forall|b: int|
            0 <= b < padding.batch() ==> order::ints((#[trigger] self.back_bs@[b])@)
                == padding.local(b)
        &&& forall|b: int|
            0 <= b < padding.batch() ==> (#[trigger] self.pad_bs@[b])@ == right_mask(padding.pad(b))
    }
}

} // verus!
