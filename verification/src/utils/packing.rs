//! Packed rows: in each slot of a batch, several sequences one after another.
//!
//! A batch of sequences of different lengths wastes the padding of its short
//! slots. A packed batch fills each slot with whole sequences instead. Each
//! sequence starts at a **reset**: there, every block restarts from a zero
//! cache. So each sequence gives the outputs that it gives alone.
//!
//! The class latents of a stack (all `Start`) open every sequence, not only the
//! slot. A splice would move every later row of the slot. So a packed row
//! **reserves** the opening rows instead: the first `lead` rows of each sequence
//! are slots, and the stack puts its latent `k` into slot `k`, in place of the
//! input row. The rows after the last sequence of a slot are free.
use vstd::prelude::*;

verus! {

/// The layout of a packed batch: where each sequence starts, and its opening
/// slots.
#[derive(Debug, Clone)]
pub struct Packed {
    /// Per slot and row: `true` at the first row of each sequence.
    pub reset_bs: Vec<Vec<bool>>,
    /// Per slot and row: `k` at the `k`-th opening slot of a sequence, `None`
    /// at every other row.
    pub latent_bs: Vec<Vec<Option<usize>>>,
}

/// How many rows a sequence takes at least: its opening slots, and its first
/// row in any case.
pub open spec fn opening(lead: int) -> int {
    if lead > 1 {
        lead
    } else {
        1
    }
}

/// Whether the sequences of a slot start in order, each after the opening
/// slots of the one before, and none past the end of the row.
pub open spec fn starts_fit(starts: Seq<usize>, lead: int, rows: int) -> bool {
    &&& forall|i: int|
        0 <= i < starts.len() ==> (#[trigger] starts[i]) + opening(lead) <= rows
    &&& forall|i: int, j: int|
        0 <= i < j < starts.len() ==> (#[trigger] starts[i]) + opening(lead)
            <= #[trigger] starts[j]
}

/// Whether `reset` and `latent` lay out a slot whose sequences start at
/// `starts`.
pub open spec fn lays_out(
    reset: Seq<bool>,
    latent: Seq<Option<usize>>,
    starts: Seq<usize>,
    lead: int,
    rows: int,
) -> bool {
    &&& reset.len() == rows
    &&& latent.len() == rows
    &&& forall|x: int|
        0 <= x < rows ==> #[trigger] reset[x] == (exists|i: int|
            0 <= i < starts.len() && #[trigger] starts[i] == x)
    &&& forall|x: int|
        0 <= x < rows ==> (match #[trigger] latent[x] {
            Some(k) => k < lead && exists|i: int|
                0 <= i < starts.len() && (#[trigger] starts[i]) + k == x,
            None => forall|i: int|
                0 <= i < starts.len() ==> !((#[trigger] starts[i]) <= x < starts[i] + lead),
        })
}

/// Whether `starts` lays out a slot of `rows` rows.
pub fn fits_starts(starts: &Vec<usize>, lead: usize, rows: usize) -> (ok: bool)
    ensures
        ok == starts_fit(starts@, lead as int, rows as int),
{
    let first: usize = if lead > 1 {
        lead
    } else {
        1
    };
    let mut end: usize = 0;
    let mut i: usize = 0;
    while i < starts.len()
        invariant
            i <= starts@.len(),
            first == opening(lead as int),
            end <= rows || i == 0,
            i > 0 ==> end == starts@[i - 1] + first,
            i == 0 ==> end == 0,
            starts_fit(starts@.take(i as int), lead as int, rows as int),
        decreases starts@.len() - i,
    {
        let start: usize = starts[i];
        if start < end {
            proof {
                assert(starts@[i - 1] + first > starts@[i as int]);
            }
            return false;
        }
        if start > rows || rows - start < first {
            return false;
        }
        end = start + first;
        proof {
            let next = starts@.take(i + 1);
            let prev = starts@.take(i as int);
            assert forall|a: int, b: int| 0 <= a < b < next.len() implies (#[trigger] next[a])
                + opening(lead as int) <= #[trigger] next[b] by {
                if b == i {
                    assert(prev[a] == next[a]);
                    if a < i - 1 {
                        assert(prev[a] + first <= prev[i - 1]);
                    }
                } else {
                    assert(prev[a] + first <= prev[b]);
                }
            }
            assert forall|a: int| 0 <= a < next.len() implies (#[trigger] next[a]) + opening(
                lead as int,
            ) <= rows by {
                if a < i {
                    assert(prev[a] == next[a]);
                }
            }
        }
        i = i + 1;
    }
    assert(starts@.take(i as int) =~= starts@);
    true
}

/// The layout of one slot.
fn lay_out(starts: &Vec<usize>, lead: usize, rows: usize) -> (slot: (Vec<bool>, Vec<Option<usize>>))
    requires
        starts_fit(starts@, lead as int, rows as int),
    ensures
        lays_out(slot.0@, slot.1@, starts@, lead as int, rows as int),
{
    let mut reset: Vec<bool> = vec![false; rows];
    let mut latent: Vec<Option<usize>> = Vec::new();
    let mut x: usize = 0;
    while x < rows
        invariant
            x <= rows,
            latent.len() == x,
            forall|y: int| 0 <= y < x ==> (#[trigger] latent@[y]) is None,
        decreases rows - x,
    {
        latent.push(None);
        x = x + 1;
    }
    let mut i: usize = 0;
    assert(starts@.take(0) =~= Seq::<usize>::empty());
    while i < starts.len()
        invariant
            i <= starts@.len(),
            starts_fit(starts@, lead as int, rows as int),
            lays_out(reset@, latent@, starts@.take(i as int), lead as int, rows as int),
        decreases starts@.len() - i,
    {
        let start: usize = starts[i];
        let ghost before = latent@;
        let ghost prev = starts@.take(i as int);
        let ghost next = starts@.take(i + 1);
        assert(next =~= prev.push(start));
        reset[start] = true;
        let mut k: usize = 0;
        while k < lead
            invariant
                k <= lead,
                latent.len() == rows,
                before.len() == rows,
                start + lead <= rows,
                forall|x: int|
                    0 <= x < rows ==> #[trigger] latent@[x] == (if start <= x < start + k {
                        Some((x - start) as usize)
                    } else {
                        before[x]
                    }),
            decreases lead - k,
        {
            latent[start + k] = Some(k);
            k = k + 1;
        }
        proof {
            assert forall|x: int| 0 <= x < rows implies #[trigger] reset@[x] == (exists|j: int|
                0 <= j < next.len() && #[trigger] next[j] == x) by {
                if exists|j: int| 0 <= j < prev.len() && #[trigger] prev[j] == x {
                    let j = choose|j: int| 0 <= j < prev.len() && #[trigger] prev[j] == x;
                    assert(next[j] == x);
                }
                if exists|j: int| 0 <= j < next.len() && #[trigger] next[j] == x {
                    let j = choose|j: int| 0 <= j < next.len() && #[trigger] next[j] == x;
                    if j < i {
                        assert(prev[j] == x);
                    }
                }
                assert(next[i as int] == start);
            }
            assert forall|x: int| 0 <= x < rows implies (match #[trigger] latent@[x] {
                Some(k) => k < lead && exists|j: int|
                    0 <= j < next.len() && (#[trigger] next[j]) + k == x,
                None => forall|j: int|
                    0 <= j < next.len() ==> !((#[trigger] next[j]) <= x < next[j] + lead),
            }) by {
                assert(next[i as int] == start);
                if start <= x < start + lead {
                    assert(next[i as int] + (x - start) == x);
                } else {
                    assert(latent@[x] == before[x]);
                    match before[x] {
                        Some(k) => {
                            let j = choose|j: int|
                                0 <= j < prev.len() && (#[trigger] prev[j]) + k == x;
                            assert(next[j] + k == x);
                        },
                        None => {
                            assert forall|j: int| 0 <= j < next.len() implies !((
                            #[trigger] next[j]) <= x < next[j] + lead) by {
                                if j < i {
                                    assert(prev[j] == next[j]);
                                }
                            }
                        },
                    }
                }
            }
        }
        i = i + 1;
    }
    assert(starts@.take(i as int) =~= starts@);
    (reset, latent)
}

impl Packed {
    /// How many slots the batch has.
    pub open spec fn batch(self) -> nat {
        self.reset_bs@.len()
    }

    /// How many rows each slot has.
    pub open spec fn rows(self) -> nat {
        if self.reset_bs@.len() == 0 {
            0
        } else {
            self.reset_bs@[0]@.len()
        }
    }

    /// Every slot has the same rows.
    pub open spec fn even(self) -> bool {
        &&& self.latent_bs@.len() == self.reset_bs@.len()
        &&& forall|b: int|
            0 <= b < self.batch() ==> (#[trigger] self.reset_bs@[b])@.len() == self.rows()
        &&& forall|b: int|
            0 <= b < self.batch() ==> (#[trigger] self.latent_bs@[b])@.len() == self.rows()
    }

    /// Every slot has the same rows, and every opening slot is one of `lead`.
    pub open spec fn wf(self, lead: int) -> bool {
        &&& self.even()
        &&& forall|b: int, x: int|
            0 <= b < self.batch() && 0 <= x < self.rows() ==> (
            #[trigger] self.latent_bs@[b]@[x] matches Some(k) ==> k < lead)
    }

    /// The layout of `rows` rows per slot. `starts[b]` holds the first row of
    /// each sequence of slot `b`, and each sequence opens with `lead` slots.
    pub fn from_starts(starts: &[Vec<usize>], lead: usize, rows: usize) -> (packed: Self)
        requires
            forall|b: int|
                0 <= b < starts@.len() ==> starts_fit(
                    (#[trigger] starts@[b])@,
                    lead as int,
                    rows as int,
                ),
        ensures
            packed.batch() == starts@.len(),
            packed.wf(lead as int),
            forall|b: int|
                0 <= b < starts@.len() ==> lays_out(
                    (#[trigger] packed.reset_bs@[b])@,
                    packed.latent_bs@[b]@,
                    starts@[b]@,
                    lead as int,
                    rows as int,
                ),
    {
        let mut reset_bs: Vec<Vec<bool>> = Vec::new();
        let mut latent_bs: Vec<Vec<Option<usize>>> = Vec::new();
        let mut b: usize = 0;
        while b < starts.len()
            invariant
                b <= starts@.len(),
                reset_bs.len() == b,
                latent_bs.len() == b,
                forall|b: int|
                    0 <= b < starts@.len() ==> starts_fit(
                        (#[trigger] starts@[b])@,
                        lead as int,
                        rows as int,
                    ),
                forall|c: int|
                    0 <= c < b ==> lays_out(
                        (#[trigger] reset_bs@[c])@,
                        latent_bs@[c]@,
                        starts@[c]@,
                        lead as int,
                        rows as int,
                    ),
            decreases starts@.len() - b,
        {
            let (reset, latent) = lay_out(&starts[b], lead, rows);
            reset_bs.push(reset);
            latent_bs.push(latent);
            b = b + 1;
        }
        let packed = Packed { reset_bs, latent_bs };
        proof {
            assert forall|b: int| 0 <= b < packed.batch() implies (
            #[trigger] packed.latent_bs@[b])@.len() == rows by {
                assert(packed.reset_bs@[b]@.len() == rows);
            }
            if packed.batch() > 0 {
                assert(packed.reset_bs@[0]@.len() == rows);
            }
            assert forall|b: int, x: int|
                0 <= b < packed.batch() && 0 <= x < packed.rows() implies (
            #[trigger] packed.latent_bs@[b]@[x] matches Some(k) ==> k < lead) by {
                assert(packed.reset_bs@[b]@.len() == rows);
            }
        }
        packed
    }

    /// The number of slots, and of rows per slot.
    pub fn dims(&self) -> (dims: [usize; 2])
        ensures
            dims[0] == self.batch(),
            dims[1] == self.rows(),
    {
        if self.reset_bs.len() == 0 {
            [0, 0]
        } else {
            [self.reset_bs.len(), self.reset_bs[0].len()]
        }
    }

    /// Put the rows of `table` into the opening slots of `x`: row `k` at every
    /// slot `k`. The other rows of `x` pass unchanged.
    pub fn place<T: Copy>(&self, x: &Vec<Vec<T>>, table: &Vec<T>) -> (out: Vec<Vec<T>>)
        requires
            self.wf(table@.len() as int),
            x@.len() == self.batch(),
            forall|b: int| 0 <= b < x@.len() ==> (#[trigger] x@[b])@.len() == self.rows(),
        ensures
            out@.len() == x@.len(),
            forall|b: int|
                0 <= b < x@.len() ==> (#[trigger] out@[b])@ == Seq::new(
                    self.rows(),
                    |i: int|
                        match self.latent_bs@[b]@[i] {
                            Some(k) => table@[k as int],
                            None => x@[b]@[i],
                        },
                ),
    {
        let mut out: Vec<Vec<T>> = Vec::new();
        let mut b: usize = 0;
        while b < x.len()
            invariant
                b <= x@.len(),
                out.len() == b,
                self.wf(table@.len() as int),
                x@.len() == self.batch(),
                forall|b: int| 0 <= b < x@.len() ==> (#[trigger] x@[b])@.len() == self.rows(),
                forall|c: int|
                    0 <= c < b ==> (#[trigger] out@[c])@ == Seq::new(
                        self.rows(),
                        |i: int|
                            match self.latent_bs@[c]@[i] {
                                Some(k) => table@[k as int],
                                None => x@[c]@[i],
                            },
                    ),
            decreases x@.len() - b,
        {
            let rows: usize = x[b].len();
            let mut placed: Vec<T> = Vec::new();
            let mut i: usize = 0;
            assert(self.latent_bs@[b as int]@.len() == self.rows());
            while i < rows
                invariant
                    b < x@.len(),
                    i <= rows,
                    rows == self.rows(),
                    placed.len() == i,
                    self.wf(table@.len() as int),
                    x@.len() == self.batch(),
                    x@[b as int]@.len() == rows,
                    self.latent_bs@[b as int]@.len() == rows,
                    forall|j: int|
                        0 <= j < i ==> #[trigger] placed@[j] == (match self.latent_bs@[b as int]@[j] {
                            Some(k) => table@[k as int],
                            None => x@[b as int]@[j],
                        }),
                decreases rows - i,
            {
                let row: T = match self.latent_bs[b][i] {
                    Some(k) => {
                        assert(self.latent_bs@[b as int]@[i as int] == Some(k));
                        table[k]
                    },
                    None => x[b][i],
                };
                placed.push(row);
                i = i + 1;
            }
            assert(placed@ =~= Seq::new(
                self.rows(),
                |i: int|
                    match self.latent_bs@[b as int]@[i] {
                        Some(k) => table@[k as int],
                        None => x@[b as int]@[i],
                    },
            ));
            out.push(placed);
            b = b + 1;
        }
        out
    }
}

/// The `k`-th row of every sequence of a packed slot, below `lead`, is its
/// opening slot `k`, and each sequence starts at a reset.
pub proof fn sequences_open_with_their_slots(
    reset: Seq<bool>,
    latent: Seq<Option<usize>>,
    starts: Seq<usize>,
    lead: int,
    rows: int,
    i: int,
    k: int,
)
    requires
        starts_fit(starts, lead, rows),
        lays_out(reset, latent, starts, lead, rows),
        0 <= i < starts.len(),
        0 <= k < lead,
        rows <= usize::MAX,
    ensures
        latent[starts[i] + k] == Some(k as usize),
        reset[starts[i] as int],
{
    let x = starts[i] + k;
    assert(starts[i] + opening(lead) <= rows);
    assert(latent[x] is Some) by {
        if latent[x] is None {
            assert(!(starts[i] <= x < starts[i] + lead));
        }
    }
    let found = latent[x]->Some_0;
    let j = choose|j: int| 0 <= j < starts.len() && (#[trigger] starts[j]) + found == x;
    assert(starts[j] + found == x);
    if j < i {
        assert(starts[j] + opening(lead) <= starts[i]);
    } else if i < j {
        assert(starts[i] + opening(lead) <= starts[j]);
    }
    assert(reset[starts[i] as int]);
}

/// Which starts lay out a slot: each sequence has room for its opening slots, and for
/// one row in any case, before the next one and before the end of the slot.
pub proof fn sequences_leave_room_for_their_slots(starts: Seq<usize>, lead: int, rows: int)
    requires
        0 <= lead,
    ensures
        starts_fit(starts, lead, rows) == (forall|i: int|
            0 <= i < starts.len() ==> {
                let end = if i + 1 < starts.len() {
                    starts[i + 1] as int
                } else {
                    rows
                };
                (#[trigger] starts[i]) + lead <= end && starts[i] < end
            }),
{
    let each = forall|i: int|
        0 <= i < starts.len() ==> {
            let end = if i + 1 < starts.len() {
                starts[i + 1] as int
            } else {
                rows
            };
            (#[trigger] starts[i]) + lead <= end && starts[i] < end
        };
    if starts_fit(starts, lead, rows) {
        assert forall|i: int| 0 <= i < starts.len() implies {
            let end = if i + 1 < starts.len() {
                starts[i + 1] as int
            } else {
                rows
            };
            (#[trigger] starts[i]) + lead <= end && starts[i] < end
        } by {
            if i + 1 < starts.len() {
                assert(starts[i] + opening(lead) <= starts[i + 1]);
            }
        }
    }
    if each {
        assert forall|i: int, j: int| 0 <= i < j < starts.len() implies (#[trigger] starts[i])
            + opening(lead) <= #[trigger] starts[j] by {
            lemma_starts_ascend(starts, i + 1, j);
        }
        assert forall|i: int| 0 <= i < starts.len() implies (#[trigger] starts[i]) + opening(lead)
            <= rows by {
            let n = starts.len() - 1;
            lemma_starts_ascend(starts, i, n);
            assert(starts[n] + opening(lead) <= rows);
        }
    }
}

proof fn lemma_starts_ascend(starts: Seq<usize>, i: int, j: int)
    requires
        0 <= i <= j < starts.len(),
        forall|k: int|
            0 <= k < starts.len() ==> k + 1 < starts.len() ==> (#[trigger] starts[k]) < starts[k
                + 1],
    ensures
        starts[i] <= starts[j],
    decreases j - i,
{
    if i < j {
        lemma_starts_ascend(starts, i, j - 1);
        assert(starts[j - 1] < starts[j]);
    }
}

/// A slot is reset where a sequence starts, and nowhere else. An opening slot `k` lies
/// `k` rows behind such a row, and a row that no sequence opens with is none.
pub proof fn only_sequences_reset_and_open(
    reset: Seq<bool>,
    latent: Seq<Option<usize>>,
    starts: Seq<usize>,
    lead: int,
    rows: int,
    x: int,
)
    requires
        starts_fit(starts, lead, rows),
        lays_out(reset, latent, starts, lead, rows),
        0 <= x < rows <= usize::MAX,
    ensures
        reset[x] ==> exists|i: int| 0 <= i < starts.len() && #[trigger] starts[i] == x,
        latent[x] matches Some(k) ==> 0 <= x - k && k < lead && reset[x - k],
        latent[x] is None ==> forall|y: int| x - lead < y <= x && 0 <= y ==> !#[trigger] reset[y],
        reset.len() == rows,
        latent.len() == rows,
{
    if let Some(k) = latent[x] {
        let i = choose|i: int| 0 <= i < starts.len() && (#[trigger] starts[i]) + k == x;
        assert(starts[i] == x - k);
        assert(reset[x - k]);
    } else {
        assert forall|y: int| x - lead < y <= x && 0 <= y implies !#[trigger] reset[y] by {
            if reset[y] {
                let i = choose|i: int| 0 <= i < starts.len() && #[trigger] starts[i] == y;
                assert(starts[i] <= x < starts[i] + lead);
            }
        }
    }
}

/// A packed batch has as many slots as layouts, and as many rows as each of them.
pub proof fn a_packed_batch_has_its_slots_and_rows(p: Packed, lead: int, b: int, x: int)
    requires
        p.wf(lead),
        0 <= b < p.reset_bs@.len(),
        0 <= x < p.reset_bs@[0]@.len(),
    ensures
        p.batch() == p.reset_bs@.len(),
        p.latent_bs@.len() == p.reset_bs@.len(),
        p.rows() == p.reset_bs@[b]@.len(),
        p.rows() == p.latent_bs@[b]@.len(),
        p.latent_bs@[b]@[x] matches Some(k) ==> k < lead,
{
    assert(p.reset_bs@[b]@.len() == p.rows());
    assert(p.latent_bs@[b]@.len() == p.rows());
}

} // verus!
