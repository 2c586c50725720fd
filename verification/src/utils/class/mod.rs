//! A *class token* / *class latent* is a learnable embedding spliced into the
//! sequence. A container inserts them at its input boundary: a network at its
//! input, for [`ClassToken`], and a layer or a stack in its working sequence,
//! for [`ClassLatent`]. They make the sequence longer for everything
//! downstream.
//!
//! # Placement
//!
//! Each marker names an index into the *original* sequence of length `L`:
//! `Start` 0, `Middle` `L/2`, `End` `L`, `Custom(k)` `k`. The markers are
//! inserted in the order of that index. At a shared index, the kind breaks the
//! tie (`Start` < `Middle` < `End` < `Custom`), then the `Vec` order.
//!
//! One rule places three of the four kinds: the marker is emitted immediately
//! before the user token at its index. `End` is the only exception, because it
//! has no token to precede: it closes the sequence, after the last user token.
//! A `Custom(k >= L)` never lands: there is no token `k` to precede. If the
//! caller feeds tokens past the announced `L`, it lands then, still before the
//! next token.
//!
//! # Streamed placement
//!
//! Placement is streamed, in the same way for a chunk of the sequence and for
//! a single token. A [`ClassCursor`] records how much of the output sequence
//! of its level the earlier calls already emitted. A marker whose output
//! position is behind the cursor is skipped. A marker that lands exactly at
//! the end of a chunk is emitted by that chunk only if the chunk closes the
//! sequence; otherwise it opens the next one. So a split of a sequence at any
//! point leaves the placement unchanged.
//!
//! A *prime* emits the markers that wait for the next user token, without that
//! token. `End` is never primed: it belongs to the call that carries the last
//! user token.
pub mod laws;
pub mod splice;

use crate::utils::order;
use vstd::prelude::*;

verus! {

/// Where a marker enters a sequence.
#[derive(Debug, Clone, Copy, PartialEq, Eq, Structural)]
pub enum Marker {
    /// Before the whole sequence.
    Start,
    /// Before the middle token.
    Middle,
    /// After the last token.
    End,
    /// Before the token at the index.
    Custom(usize),
}

impl Marker {
    /// The index into the original sequence of `len` tokens.
    pub open spec fn index(self, len: int) -> int {
        match self {
            Marker::Start => 0,
            Marker::Middle => len / 2,
            Marker::End => len,
            Marker::Custom(at) => at as int,
        }
    }

    /// The tie-break among markers that share an index.
    pub open spec fn rank(self) -> int {
        match self {
            Marker::Start => 0,
            Marker::Middle => 1,
            Marker::End => 2,
            Marker::Custom(_) => 3,
        }
    }

    /// Whether the place of this marker is defined only against the whole
    /// sequence.
    pub open spec fn is_relative(self) -> bool {
        self is Middle || self is End
    }

    /// Whether this marker lands in a sequence of `len` tokens: it closes the
    /// sequence, or has a token to precede.
    pub open spec fn lands(self, len: int) -> bool {
        self is End || self.index(len) < len
    }

    /// How many tokens precede this marker, at most all of them.
    pub open spec fn depth(self, len: int) -> int {
        if self.index(len) < len {
            self.index(len)
        } else {
            len
        }
    }
}

/// Shared behaviour of the [`ClassToken`] / [`ClassLatent`] position markers,
/// letting one generic helper place either kind.
pub trait ClassMarker: Clone {
    /// Where this marker enters the sequence.
    spec fn marker(&self) -> Marker;

    /// Insertion index measured against the *original* sequence length
    /// `orig_len`.
    fn insert_pos(&self, orig_len: usize) -> (pos: usize)
        ensures
            pos == self.marker().index(orig_len as int),
            match self.marker() {
                Marker::Start => pos == 0,
                Marker::Middle => 2 * pos <= orig_len < 2 * pos + 2,
                Marker::End => pos == orig_len,
                Marker::Custom(at) => pos == at,
            },
    ;

    /// Tie-break rank among markers sharing an index
    /// (`Start`<`Middle`<`End`<`Custom`).
    fn group_rank(&self) -> (rank: usize)
        ensures
            rank == self.marker().rank(),
    ;

    /// Whether the position of this marker is defined only against the whole
    /// sequence (`Middle`/`End`).
    fn needs_full_len(&self) -> (needs: bool)
        ensures
            needs == self.marker().is_relative(),
            needs == (self.marker() is Middle || self.marker() is End),
    ;

    /// Whether this marker *closes* the sequence: it trails the last token,
    /// not precedes one. Only `End` does.
    fn closes_sequence(&self) -> (closes: bool)
        ensures
            closes == (self.marker() is End),
    ;
}

/// Position marker for a learnable class **token** inserted into the input
/// sequence of a *network*.
#[derive(Debug, Clone, Copy, PartialEq, Eq, Structural)]
pub enum ClassToken {
    /// Prepend before the whole sequence (index 0).
    Start,
    /// Insert before the middle token of the original sequence (index `L/2`).
    Middle,
    /// Close the sequence: appended after its last token (index `L`).
    End,
    /// Insert before the token `index` of the original sequence.
    Custom(usize),
}

/// Position marker for a learnable class **latent** inserted into the working
/// sequence of a *layer*.
#[derive(Debug, Clone, Copy, PartialEq, Eq, Structural)]
pub enum ClassLatent {
    /// Prepend before the whole sequence (index 0).
    Start,
    /// Insert before the middle token of the original sequence (index `L/2`).
    Middle,
    /// Close the sequence: appended after its last token (index `L`).
    End,
    /// Insert before the token `index` of the original sequence.
    Custom(usize),
}

impl ClassMarker for ClassToken {
    open spec fn marker(&self) -> Marker {
        match *self {
            ClassToken::Start => Marker::Start,
            ClassToken::Middle => Marker::Middle,
            ClassToken::End => Marker::End,
            ClassToken::Custom(at) => Marker::Custom(at),
        }
    }

    fn insert_pos(&self, orig_len: usize) -> (pos: usize) {
        match self {
            ClassToken::Start => 0,
            ClassToken::Middle => orig_len / 2,
            ClassToken::End => orig_len,
            ClassToken::Custom(index) => *index,
        }
    }

    fn group_rank(&self) -> (rank: usize) {
        match self {
            ClassToken::Start => 0,
            ClassToken::Middle => 1,
            ClassToken::End => 2,
            ClassToken::Custom(_) => 3,
        }
    }

    fn needs_full_len(&self) -> (needs: bool) {
        matches!(self, ClassToken::Middle | ClassToken::End)
    }

    fn closes_sequence(&self) -> (closes: bool) {
        matches!(self, ClassToken::End)
    }
}

impl ClassMarker for ClassLatent {
    open spec fn marker(&self) -> Marker {
        match *self {
            ClassLatent::Start => Marker::Start,
            ClassLatent::Middle => Marker::Middle,
            ClassLatent::End => Marker::End,
            ClassLatent::Custom(at) => Marker::Custom(at),
        }
    }

    fn insert_pos(&self, orig_len: usize) -> (pos: usize) {
        match self {
            ClassLatent::Start => 0,
            ClassLatent::Middle => orig_len / 2,
            ClassLatent::End => orig_len,
            ClassLatent::Custom(index) => *index,
        }
    }

    fn group_rank(&self) -> (rank: usize) {
        match self {
            ClassLatent::Start => 0,
            ClassLatent::Middle => 1,
            ClassLatent::End => 2,
            ClassLatent::Custom(_) => 3,
        }
    }

    fn needs_full_len(&self) -> (needs: bool) {
        matches!(self, ClassLatent::Middle | ClassLatent::End)
    }

    fn closes_sequence(&self) -> (closes: bool) {
        matches!(self, ClassLatent::End)
    }
}

/// The markers of a container, as positions.
pub open spec fn marks<M: ClassMarker>(markers: Seq<M>) -> Seq<Marker> {
    markers.map_values(|m: M| m.marker())
}

/// What the markers sort by: their index into a sequence of `len` tokens, then
/// their kind.
pub open spec fn placement_keys(ms: Seq<Marker>, len: int) -> Seq<(int, int)> {
    Seq::new(ms.len(), |i: int| (ms[i].index(len), ms[i].rank()))
}

/// The markers in the order they enter a sequence of `len` tokens.
pub open spec fn placement_order(ms: Seq<Marker>, len: int) -> Seq<int> {
    order::sorted_indices(placement_keys(ms, len))
}

/// How many tokens precede the `r`-th marker in placement order.
pub open spec fn tokens_before(ms: Seq<Marker>, len: int, r: int) -> int {
    ms[placement_order(ms, len)[r]].depth(len)
}

/// The output position of marker `i` in a sequence of `len` tokens: the tokens
/// and the markers that precede it.
pub open spec fn output_position(ms: Seq<Marker>, len: int, i: int) -> int {
    ms[i].depth(len) + placement_order(ms, len).index_of(i)
}

/// Whether the output positions in a sequence of `len` tokens stay within the
/// machine integers.
pub open spec fn placeable(ms: Seq<Marker>, len: int) -> bool {
    forall|i: int|
        0 <= i < ms.len() ==> (#[trigger] ms[i]).depth(len) + ms.len() <= usize::MAX
}

/// How many of the markers land in a sequence of `len` tokens.
pub open spec fn landed(ms: Seq<Marker>, len: int) -> nat {
    order::count(ms.len(), landing(ms, len))
}

/// The markers that land in a sequence of `len` tokens.
pub open spec fn landing(ms: Seq<Marker>, len: int) -> spec_fn(int) -> bool {
    |i: int| ms[i].lands(len)
}

/// How many of `markers` land in a sequence of `len` tokens: all except a
/// `Custom` at or past its end, which has no token to precede (in an empty
/// sequence, only an `End` lands). The level above sees a sequence that is this
/// much longer, and places its own `Middle`/`End` against it.
pub fn landing_count<M: ClassMarker>(markers: &[M], len: usize) -> (n: usize)
    ensures
        n == landed(marks(markers@), len as int),
{
    let ghost ms = marks(markers@);
    let mut n: usize = 0;
    let mut i: usize = 0;
    while i < markers.len()
        invariant
            i <= markers.len(),
            n <= i,
            ms == marks(markers@),
            n == order::count(i as nat, landing(ms, len as int)),
        decreases markers.len() - i,
    {
        if markers[i].closes_sequence() || markers[i].insert_pos(len) < len {
            n = n + 1;
        }
        i = i + 1;
    }
    n
}

/// Whether every marker can be placed: `Middle`/`End` cannot be placed from a
/// chunk (or a single token) without the length of the whole sequence.
pub open spec fn resolvable(ms: Seq<Marker>, full_len: Option<usize>) -> bool {
    full_len is Some || forall|i: int| 0 <= i < ms.len() ==> !(#[trigger] ms[i]).is_relative()
}

/// Whether the position of no marker needs a whole-sequence length that is not
/// known.
pub fn full_len_known<M: ClassMarker>(markers: &[M], full_len: Option<usize>) -> (known: bool)
    ensures
        known == resolvable(marks(markers@), full_len),
{
    let ghost ms = marks(markers@);
    if full_len.is_some() {
        return true;
    }
    let mut i: usize = 0;
    while i < markers.len()
        invariant
            i <= markers.len(),
            full_len is None,
            ms == marks(markers@),
            forall|j: int| 0 <= j < i ==> !(#[trigger] ms[j]).is_relative(),
        decreases markers.len() - i,
    {
        if markers[i].needs_full_len() {
            assert(ms[i as int].is_relative());
            return false;
        }
        i = i + 1;
    }
    true
}

/// The placement order lists every marker once, and the tokens before the
/// markers ascend along it.
pub proof fn lemma_placement_order(ms: Seq<Marker>, len: int)
    requires
        0 <= len,
    ensures
        placement_order(ms, len).len() == ms.len(),
        placement_order(ms, len).no_duplicates(),
        forall|r: int|
            0 <= r < ms.len() ==> 0 <= #[trigger] placement_order(ms, len)[r] < ms.len(),
        forall|i: int| 0 <= i < ms.len() ==> #[trigger] placement_order(ms, len).contains(i),
        forall|a: int, b: int|
            0 <= a < b < ms.len() ==> order::index_lt(
                placement_keys(ms, len),
                #[trigger] placement_order(ms, len)[a],
                #[trigger] placement_order(ms, len)[b],
            ),
        forall|r: int| 0 <= r < ms.len() ==> 0 <= #[trigger] tokens_before(ms, len, r) <= len,
        forall|a: int, b: int|
            0 <= a <= b < ms.len() ==> #[trigger] tokens_before(ms, len, a)
                <= #[trigger] tokens_before(ms, len, b),
{
    let keys = placement_keys(ms, len);
    let o = placement_order(ms, len);
    order::lemma_sorted_indices(keys);
    assert forall|a: int, b: int| 0 <= a <= b < ms.len() implies #[trigger] tokens_before(ms, len, a)
        <= #[trigger] tokens_before(ms, len, b) by {
        if a < b {
            assert(order::index_lt(keys, o[a], o[b]));
            assert(keys[o[a]].0 <= keys[o[b]].0);
        }
    }
}

/// How many tokens precede a marker, at most all `len` of them.
fn depth_of<M: ClassMarker>(marker: &M, len: usize) -> (depth: usize)
    ensures
        depth == marker.marker().depth(len as int),
{
    let pos: usize = marker.insert_pos(len);
    if pos < len {
        pos
    } else {
        len
    }
}

/// The markers in the order they enter a sequence of `len` tokens.
fn placement_order_of<M: ClassMarker>(markers: &[M], len: usize) -> (order: Vec<usize>)
    ensures
        order::ints(order@) == placement_order(marks(markers@), len as int),
        order@.len() == markers@.len(),
        forall|r: int| 0 <= r < order@.len() ==> #[trigger] order@[r] < markers@.len(),
{
    let ghost ms = marks(markers@);
    let mut keys: Vec<(usize, usize)> = Vec::new();
    let mut i: usize = 0;
    while i < markers.len()
        invariant
            i <= markers.len(),
            keys.len() == i,
            ms == marks(markers@),
            forall|j: int|
                0 <= j < i ==> (#[trigger] keys@[j]).0 == ms[j].index(len as int) && keys@[j].1
                    == ms[j].rank(),
        decreases markers.len() - i,
    {
        assert(ms[i as int] == markers@[i as int].marker());
        keys.push((markers[i].insert_pos(len), markers[i].group_rank()));
        i = i + 1;
    }
    proof {
        assert(order::int_keys(keys@) =~= placement_keys(ms, len as int));
        order::lemma_sorted_indices(placement_keys(ms, len as int));
    }
    let order = order::sort_indices(&keys);
    proof {
        let o = placement_order(ms, len as int);
        assert(order@.len() == order::ints(order@).len());
        assert forall|r: int| 0 <= r < order@.len() implies #[trigger] order@[r]
            < markers@.len() by {
            assert(order::ints(order@)[r] == o[r]);
        }
    }
    order
}

/// The output-sequence position of each marker (in `Vec` order) for an input of
/// length `orig_len`: where to read a class token back out.
///
/// A marker that never lands (a `Custom` at or past the end, with no token to
/// precede) reports the position that it *would* take, past the emitted
/// sequence.
pub fn class_marker_output_indices<M: ClassMarker>(markers: &[M], orig_len: usize) -> (out: Vec<
    usize,
>)
    requires
        placeable(marks(markers@), orig_len as int),
    ensures
        out@.len() == markers@.len(),
        forall|i: int|
            0 <= i < out@.len() ==> #[trigger] out@[i] == output_position(
                marks(markers@),
                orig_len as int,
                i,
            ),
{
    let ghost ms = marks(markers@);
    let ghost o = placement_order(ms, orig_len as int);
    let k: usize = markers.len();
    let order = placement_order_of(markers, orig_len);
    proof {
        lemma_placement_order(ms, orig_len as int);
    }
    let mut out: Vec<usize> = vec![0; k];
    let mut r: usize = 0;
    while r < k
        invariant
            r <= k,
            k == markers.len(),
            k == order.len(),
            k == out.len(),
            ms == marks(markers@),
            o == placement_order(ms, orig_len as int),
            o == order::ints(order@),
            o.no_duplicates(),
            o.len() == k,
            forall|j: int| 0 <= j < k ==> #[trigger] order@[j] < k,
            placeable(ms, orig_len as int),
            forall|j: int|
                0 <= j < r ==> out@[#[trigger] o[j]] == ms[o[j]].depth(orig_len as int) + j,
        decreases k - r,
    {
        let i: usize = order[r];
        assert(o[r as int] == i);
        assert(ms[i as int] == markers@[i as int].marker());
        let depth: usize = depth_of(&markers[i], orig_len);
        out[i] = depth + r;
        r = r + 1;
    }
    proof {
        assert forall|i: int| 0 <= i < out@.len() implies #[trigger] out@[i] == output_position(
            ms,
            orig_len as int,
            i,
        ) by {
            assert(o.contains(i));
            let j = o.index_of(i);
            assert(o[j] == i);
        }
    }
    out
}

/// Placement state of **one** class-marker level (the markers of one
/// container): how far into the *output* sequence of that level the previous
/// calls got, and the length that positions are measured against.
#[derive(Debug, Clone, Copy, PartialEq, Eq, Structural)]
pub struct ClassCursor {
    /// Output-sequence position reached so far: user tokens *and* already
    /// emitted class markers (0: the sequence has not started).
    pub offset: usize,
    /// Length of the whole sequence that this level receives, without its own
    /// markers. `None` for an open-ended stream: `Start`/`Custom` still place
    /// exactly, `Middle`/`End` cannot be placed.
    pub full_len: Option<usize>,
}

impl Default for ClassCursor {
    fn default() -> (cursor: Self)
        ensures
            cursor == (ClassCursor { offset: 0, full_len: None }),
    {
        ClassCursor { offset: 0, full_len: None }
    }
}

impl ClassCursor {
    /// A cursor at `offset` measured against `full_len`.
    pub fn at(offset: usize, full_len: Option<usize>) -> (cursor: Self)
        ensures
            cursor == (ClassCursor { offset, full_len }),
    {
        ClassCursor { offset, full_len }
    }

    /// A new cursor for a call that covers the entire sequence of length
    /// `len`.
    pub fn whole(len: usize) -> (cursor: Self)
        ensures
            cursor == (ClassCursor { offset: 0, full_len: Some(len) }),
    {
        ClassCursor { offset: 0, full_len: Some(len) }
    }

    /// Whether a chunk of `chunk_len` tokens placed from this cursor is the
    /// entire sequence: nothing emitted before it, and nothing announced
    /// after.
    pub fn covers_whole(&self, chunk_len: usize) -> (whole: bool)
        ensures
            whole == (self.offset == 0 && self.full_len == Some(chunk_len)),
    {
        match self.full_len {
            Some(len) => self.offset == 0 && len == chunk_len,
            None => false,
        }
    }
}

/// One call that places the markers of one level: a chunk of user tokens, from
/// a cursor.
pub struct Placement {
    /// The markers of the level.
    pub marks: Seq<Marker>,
    /// The announced length of the whole sequence of the level.
    pub full_len: Option<usize>,
    /// The output position reached by the earlier calls.
    pub offset: int,
    /// The user tokens of this call.
    pub chunk: int,
    /// Whether the call carries no token of its own, and one more is to come.
    pub prime: bool,
}

impl Placement {
    /// The length that positions are measured against. An open-ended stream
    /// has no end to stop at.
    pub open spec fn len(self) -> int {
        match self.full_len {
            Some(len) => len as int,
            None => usize::MAX as int,
        }
    }

    /// Whether the `r`-th marker in placement order was emitted by an earlier
    /// call: its output position is behind the cursor.
    pub open spec fn behind(self) -> spec_fn(int) -> bool {
        |r: int| tokens_before(self.marks, self.len(), r) + r < self.offset
    }

    /// How many markers the earlier calls emitted.
    pub open spec fn emitted(self) -> int {
        order::count(self.marks.len(), self.behind()) as int
    }

    /// How many user tokens the earlier calls consumed.
    pub open spec fn before(self) -> int {
        self.offset - self.emitted()
    }

    /// How many user tokens are consumed after this call.
    pub open spec fn consumed(self) -> int {
        self.before() + self.chunk
    }

    /// Whether this call consumes the last announced user token.
    pub open spec fn reaches_end(self) -> bool {
        self.full_len matches Some(len) && len == self.consumed()
    }

    /// How many tokens of this chunk precede the `r`-th marker in placement
    /// order.
    pub open spec fn at(self, r: int) -> int {
        tokens_before(self.marks, self.len(), r) - self.before()
    }

    /// Whether a marker that nothing in this chunk is left to precede belongs
    /// to it all the same: an `End` on the chunk that closes the sequence, or,
    /// on a prime, a marker due before the next announced (or open-ended)
    /// token.
    pub open spec fn on_edge(self, marker: Marker) -> bool {
        if marker is End {
            !self.prime && self.reaches_end()
        } else {
            self.prime && !self.reaches_end()
        }
    }

    /// Whether the `r`-th marker in placement order falls inside this chunk.
    pub open spec fn due(self, r: int) -> bool {
        self.at(r) < self.chunk || (self.at(r) == self.chunk && self.on_edge(
            self.marks[placement_order(self.marks, self.len())[r]],
        ))
    }

    /// The first marker in placement order, from `r` on, that does not fall
    /// inside this chunk.
    pub open spec fn stop_from(self, r: int) -> int
        decreases self.marks.len() - r,
    {
        if r >= self.marks.len() || !self.due(r) {
            r
        } else {
            self.stop_from(r + 1)
        }
    }

    /// How many markers are emitted after this call.
    pub open spec fn stop(self) -> int {
        self.stop_from(self.emitted())
    }

    /// The markers this call emits, in output order: `(at, marker)` inserts
    /// `marker` before the `at`-th token of the chunk.
    pub open spec fn plan(self) -> Seq<(int, int)> {
        Seq::new(
            (self.stop() - self.emitted()) as nat,
            |j: int|
                (
                    self.at(self.emitted() + j),
                    placement_order(self.marks, self.len())[self.emitted() + j],
                ),
        )
    }

    /// The output position reached after this call.
    pub open spec fn next_offset(self) -> int {
        self.offset + self.chunk + self.plan().len()
    }

    /// Whether the call can be placed: no position needs an unknown length,
    /// and none passes the machine integers.
    pub open spec fn fits(self) -> bool {
        &&& resolvable(self.marks, self.full_len)
        &&& placeable(self.marks, self.len())
        &&& 0 <= self.offset
        &&& 0 <= self.chunk
        &&& self.next_offset() <= usize::MAX
    }
}

/// The call that places `markers` around the next `chunk_len` tokens from
/// `cursor`.
pub open spec fn placement<M: ClassMarker>(
    markers: Seq<M>,
    cursor: ClassCursor,
    chunk_len: int,
    prime: bool,
) -> Placement {
    Placement {
        marks: marks(markers),
        full_len: cursor.full_len,
        offset: cursor.offset as int,
        chunk: chunk_len,
        prime,
    }
}

/// The pairs of machine integers as mathematical ones.
pub open spec fn int_pairs(pairs: Seq<(usize, usize)>) -> Seq<(int, int)> {
    pairs.map_values(|p: (usize, usize)| (p.0 as int, p.1 as int))
}

impl Placement {
    /// The markers behind the cursor are the first of the placement order, and
    /// none of the rest precedes a consumed token.
    pub proof fn lemma_emitted(self)
        requires
            0 <= self.offset,
        ensures
            0 <= self.emitted() <= self.marks.len(),
            self.emitted() <= self.offset,
            forall|r: int|
                0 <= r < self.marks.len() ==> (#[trigger] tokens_before(self.marks, self.len(), r)
                    + r < self.offset) == (r < self.emitted()),
            forall|r: int|
                0 <= r < self.emitted() ==> #[trigger] tokens_before(self.marks, self.len(), r)
                    <= self.before(),
            forall|r: int|
                self.emitted() <= r < self.marks.len() ==> #[trigger] tokens_before(
                    self.marks,
                    self.len(),
                    r,
                ) >= self.before(),
    {
        let k = self.marks.len();
        let p = self.behind();
        lemma_placement_order(self.marks, self.len());
        order::lemma_count_bound(k, p);
        order::lemma_count_downward(k, p);
        assert forall|r: int| 0 <= r < k implies (#[trigger] tokens_before(
            self.marks,
            self.len(),
            r,
        ) + r < self.offset) == (r < self.emitted()) by {
            assert(p(r) == (r < self.emitted()));
        }
        let e = self.emitted();
        if e > 0 {
            assert(tokens_before(self.marks, self.len(), e - 1) + (e - 1) < self.offset);
        }
        if e < k {
            assert(tokens_before(self.marks, self.len(), e) + e >= self.offset);
        }
    }

    /// The stop lies between its start and the last marker, every marker
    /// before it is due, and the one at it is not.
    pub proof fn lemma_stop(self, from: int)
        requires
            0 <= from <= self.marks.len(),
        ensures
            from <= self.stop_from(from) <= self.marks.len(),
            forall|r: int| from <= r < self.stop_from(from) ==> #[trigger] self.due(r),
            self.stop_from(from) < self.marks.len() ==> !self.due(self.stop_from(from)),
        decreases self.marks.len() - from,
    {
        if from < self.marks.len() && self.due(from) {
            self.lemma_stop(from + 1);
        }
    }
}

/// Which of `markers` fall inside the next `chunk_len` user tokens, and where.
///
/// Returns `(at, marker)` pairs in output order: insert `markers[marker]`
/// *before* the `at`-th token of the chunk (`at == chunk_len`: after the last
/// one). `cursor` is advanced past the whole chunk, its insertions included.
pub fn class_chunk_plan<M: ClassMarker>(
    markers: &[M],
    chunk_len: usize,
    cursor: &mut ClassCursor,
) -> (plan: Vec<(usize, usize)>)
    requires
        placement(markers@, *old(cursor), chunk_len as int, false).fits(),
    ensures
        int_pairs(plan@) == placement(markers@, *old(cursor), chunk_len as int, false).plan(),
        final(cursor).offset == placement(
            markers@,
            *old(cursor),
            chunk_len as int,
            false,
        ).next_offset(),
        final(cursor).full_len == old(cursor).full_len,
{
    match class_plan(markers, chunk_len, cursor, false) {
        Some(plan) => plan,
        None => Vec::new(),
    }
}

/// [`class_chunk_plan`] for a **prime**. The chunk carries no user token of its
/// own beyond the `chunk_len` tokens that a lower level handed up (`0` at the
/// level where the call enters). One more user token is still to come.
///
/// So it differs only on the trailing edge of the chunk. The markers that wait
/// there for that next token are emitted now (they precede it either way).
/// `End` trails the last token, so the call that carries that token emits it.
/// A cursor already at the announced end has no next token, so nothing waits
/// there.
pub fn class_prime_plan<M: ClassMarker>(
    markers: &[M],
    chunk_len: usize,
    cursor: &mut ClassCursor,
) -> (plan: Vec<(usize, usize)>)
    requires
        placement(markers@, *old(cursor), chunk_len as int, true).fits(),
    ensures
        int_pairs(plan@) == placement(markers@, *old(cursor), chunk_len as int, true).plan(),
        final(cursor).offset == placement(
            markers@,
            *old(cursor),
            chunk_len as int,
            true,
        ).next_offset(),
        final(cursor).full_len == old(cursor).full_len,
{
    match class_plan(markers, chunk_len, cursor, true) {
        Some(plan) => plan,
        None => Vec::new(),
    }
}

/// Whether the output positions in a sequence of `len` tokens stay within the
/// machine integers.
pub fn positions_fit<M: ClassMarker>(markers: &[M], len: usize) -> (fit: bool)
    ensures
        fit == placeable(marks(markers@), len as int),
{
    let ghost ms = marks(markers@);
    let mut i: usize = 0;
    while i < markers.len()
        invariant
            i <= markers.len(),
            ms == marks(markers@),
            forall|j: int|
                0 <= j < i ==> (#[trigger] ms[j]).depth(len as int) + ms.len() <= usize::MAX,
        decreases markers.len() - i,
    {
        let depth: usize = depth_of(&markers[i], len);
        assert(ms[i as int] == markers@[i as int].marker());
        if depth > usize::MAX - markers.len() {
            assert(ms[i as int].depth(len as int) + ms.len() > usize::MAX);
            return false;
        }
        i = i + 1;
    }
    true
}

/// The shared placement loop of [`class_chunk_plan`] / [`class_prime_plan`].
/// `None` where the call cannot be placed: a position needs a length that is
/// not known, or passes the machine integers. The cursor then stays.
pub fn class_plan<M: ClassMarker>(
    markers: &[M],
    chunk_len: usize,
    cursor: &mut ClassCursor,
    prime: bool,
) -> (plan: Option<Vec<(usize, usize)>>)
    ensures
        plan is Some == placement(markers@, *old(cursor), chunk_len as int, prime).fits(),
        plan is None ==> *final(cursor) == *old(cursor),
        plan matches Some(plan) ==> int_pairs(plan@) == placement(
            markers@,
            *old(cursor),
            chunk_len as int,
            prime,
        ).plan(),
        plan is Some ==> final(cursor).offset == placement(
            markers@,
            *old(cursor),
            chunk_len as int,
            prime,
        ).next_offset(),
        final(cursor).full_len == old(cursor).full_len,
{
    let ghost call = placement(markers@, *cursor, chunk_len as int, prime);
    let ghost ms = call.marks;
    let len: usize = match cursor.full_len {
        Some(len) => len,
        None => usize::MAX,
    };
    let ghost o = placement_order(ms, len as int);
    let k: usize = markers.len();
    if !full_len_known(markers, cursor.full_len) || !positions_fit(markers, len) {
        return None;
    }
    let start: usize = cursor.offset;
    let order = placement_order_of(markers, len);
    proof {
        lemma_placement_order(ms, len as int);
        call.lemma_emitted();
        call.lemma_stop(call.emitted());
    }

    // The markers behind the cursor.
    let mut emitted: usize = 0;
    while emitted < k
        invariant
            k == markers.len(),
            k == order.len(),
            ms == marks(markers@),
            ms == call.marks,
            o == placement_order(ms, len as int),
            o == order::ints(order@),
            len == call.len(),
            start == call.offset,
            placeable(ms, len as int),
            forall|r: int| 0 <= r < k ==> #[trigger] order@[r] < k,
            0 <= emitted <= call.emitted() <= k,
            forall|r: int|
                0 <= r < k ==> (#[trigger] tokens_before(ms, len as int, r) + r < start) == (r
                    < call.emitted()),
        ensures
            emitted == call.emitted(),
        decreases k - emitted,
    {
        let i: usize = order[emitted];
        assert(o[emitted as int] == i);
        assert(ms[i as int] == markers@[i as int].marker());
        let depth: usize = depth_of(&markers[i], len);
        assert(depth == tokens_before(ms, len as int, emitted as int));
        if depth + emitted >= start {
            break ;
        }
        emitted = emitted + 1;
    }
    let before: usize = start - emitted;
    let consumed: usize = match before.checked_add(chunk_len) {
        Some(consumed) => consumed,
        None => {
            return None;
        },
    };
    let at_end = match cursor.full_len {
        Some(len) => len == consumed,
        None => false,
    };
    // Whether this chunk carries the last user token. A prime carries no token
    // of its own, so it never closes anything.
    let closes = !prime && at_end;
    // Whether a prime can flush the markers that wait at the end of the chunk.
    // They need a next token to precede.
    let flush = prime && !at_end;

    let mut plan: Vec<(usize, usize)> = Vec::new();
    let mut r: usize = emitted;
    while r < k
        invariant
            k == markers.len(),
            k == order.len(),
            ms == marks(markers@),
            ms == call.marks,
            o == placement_order(ms, len as int),
            o == order::ints(order@),
            len == call.len(),
            forall|r: int| 0 <= r < k ==> #[trigger] order@[r] < k,
            emitted == call.emitted(),
            before == call.before(),
            chunk_len == call.chunk,
            closes == (!call.prime && call.reaches_end()),
            flush == (call.prime && !call.reaches_end()),
            emitted <= r <= call.stop() <= k,
            call.stop() < k ==> !call.due(call.stop()),
            forall|r: int| emitted <= r < call.stop() ==> #[trigger] call.due(r),
            plan.len() == r - emitted,
            forall|j: int|
                0 <= j < plan.len() ==> (#[trigger] plan@[j]).0 == call.at(emitted + j)
                    && plan@[j].1 == o[emitted + j],
            forall|r: int|
                emitted <= r < k ==> #[trigger] tokens_before(ms, len as int, r) >= before,
        ensures
            r == call.stop(),
        decreases k - r,
    {
        let i: usize = order[r];
        assert(o[r as int] == i);
        assert(ms[i as int] == markers@[i as int].marker());
        let depth: usize = depth_of(&markers[i], len);
        assert(depth == tokens_before(ms, len as int, r as int));
        let at: usize = depth - before;
        assert(call.due(r as int) == (at < chunk_len || (at == chunk_len && call.on_edge(
            ms[i as int],
        ))));
        if at > chunk_len {
            break ;
        }
        if at == chunk_len {
            let closing = closes && markers[i].closes_sequence();
            let pending = flush && !markers[i].closes_sequence();
            if !closing && !pending {
                break ;
            }
        }
        plan.push((at, i));
        r = r + 1;
    }
    proof {
        assert(int_pairs(plan@) =~= call.plan());
    }
    let emitted_len: usize = match chunk_len.checked_add(plan.len()) {
        Some(len) => len,
        None => {
            return None;
        },
    };
    match start.checked_add(emitted_len) {
        Some(offset) => {
            cursor.offset = offset;
            Some(plan)
        },
        None => None,
    }
}

/// Everything that a chunk or a single-token call needs to place the class
/// tokens / class latents of a whole network: one full-length hint, plus one
/// cursor per class-marker level. Pass the **same** value to every call of a
/// sequence. Each call advances the cursors that it uses, so the next call
/// resumes exactly where this one stopped.
///
/// The levels nest. Each cursor counts the sequence that *its* level sees,
/// which already includes the markers that the levels below it spliced in:
/// the network's own class tokens, the stack's own class latents, then one
/// cursor per virtual layer.
#[derive(Debug, PartialEq, Eq)]
pub struct ClassCursors {
    /// Total length of the user sequence that all the calls form together.
    /// `None` for an open-ended stream.
    pub full_len: Option<usize>,
    /// Cursor of the [`ClassToken`]s of a network (not used by a bare layer
    /// stack).
    pub network: usize,
    /// Cursor of the [`ClassLatent`]s of a layer container.
    pub stack: usize,
    /// One cursor per **virtual** layer, for the per-layer [`ClassLatent`]s.
    /// When it is empty, the first call sizes it (with zeros).
    pub per_layer: Vec<usize>,
}

/// What the cursors of a network hold.
pub struct Cursors {
    /// The announced length of the whole user sequence.
    pub full_len: Option<usize>,
    /// The output position of the network.
    pub network: usize,
    /// The output position of the stack.
    pub stack: usize,
    /// The output position of each virtual layer.
    pub per_layer: Seq<usize>,
}

impl View for ClassCursors {
    type V = Cursors;

    open spec fn view(&self) -> Cursors {
        Cursors {
            full_len: self.full_len,
            network: self.network,
            stack: self.stack,
            per_layer: self.per_layer@,
        }
    }
}

/// What optional cursors hold.
pub open spec fn cursors(class: Option<ClassCursors>) -> Option<Cursors> {
    match class {
        Some(c) => Some(c@),
        None => None,
    }
}

/// Cursors at the start of a sequence.
pub open spec fn start_cursors(full_len: Option<usize>) -> Cursors {
    Cursors { full_len, network: 0, stack: 0, per_layer: Seq::empty() }
}

/// The cursors of a call: those given, or those at the start of a whole
/// sequence of `rows`.
pub open spec fn cursors_or_whole(class: Option<ClassCursors>, rows: usize) -> Cursors {
    match class {
        Some(c) => c@,
        None => start_cursors(Some(rows)),
    }
}

impl Default for ClassCursors {
    fn default() -> (cursors: Self)
        ensures
            cursors@ == start_cursors(None),
    {
        ClassCursors { full_len: None, network: 0, stack: 0, per_layer: Vec::new() }
    }
}

impl Clone for ClassCursors {
    fn clone(&self) -> (cursors: Self)
        ensures
            cursors@ == self@,
    {
        let per_layer = self.per_layer.clone();
        assert(per_layer@ =~= self.per_layer@);
        ClassCursors {
            full_len: self.full_len,
            network: self.network,
            stack: self.stack,
            per_layer,
        }
    }
}

/// The cursors of `n` virtual layers: those given, or the start of each where
/// none are.
pub open spec fn fitted(per_layer: Seq<usize>, n: int) -> Seq<usize> {
    if per_layer.len() == 0 {
        Seq::new(n as nat, |i: int| 0usize)
    } else {
        per_layer
    }
}

/// The length a level hands up: its own sequence, longer by the markers that
/// land in it.
pub open spec fn grown(ms: Seq<Marker>, full_len: Option<usize>) -> Option<int> {
    match full_len {
        Some(len) => Some(len + landed(ms, len as int)),
        None => None,
    }
}

/// Whether a length fits the machine integers.
pub open spec fn len_fits(len: Option<int>) -> bool {
    len matches Some(l) ==> l <= usize::MAX
}

/// A length as a machine integer.
pub open spec fn machine_len(len: Option<int>) -> Option<usize> {
    match len {
        Some(l) => Some(l as usize),
        None => None,
    }
}

impl ClassCursors {
    /// Cursors at the start of a sequence of known total length. This form
    /// enables `Middle`/`End` markers, and a whole-sequence call uses it when
    /// it gets no cursors.
    pub fn new(full_len: usize) -> (cursors: Self)
        ensures
            cursors@ == start_cursors(Some(full_len)),
    {
        ClassCursors { full_len: Some(full_len), network: 0, stack: 0, per_layer: Vec::new() }
    }

    /// Cursors at the start of an open-ended stream (unknown total length):
    /// `Start`/`Custom` markers place exactly, `Middle`/`End` cannot.
    pub fn stream() -> (cursors: Self)
        ensures
            cursors@ == start_cursors(None),
    {
        ClassCursors { full_len: None, network: 0, stack: 0, per_layer: Vec::new() }
    }

    /// Size [`Self::per_layer`] for a stack of `n` virtual layers (idempotent).
    pub fn fit(&mut self, n: usize)
        requires
            old(self).per_layer@.len() == 0 || old(self).per_layer@.len() == n,
        ensures
            final(self)@ == (Cursors {
                per_layer: fitted(old(self).per_layer@, n as int),
                ..old(self)@
            }),
            final(self).per_layer@.len() == n,
            old(self).per_layer@.len() > 0 ==> final(self).per_layer@ == old(self).per_layer@,
            old(self).per_layer@.len() == 0 ==> forall|i: int|
                0 <= i < n ==> #[trigger] final(self).per_layer@[i] == 0,
    {
        if self.per_layer.len() == 0 {
            self.per_layer = vec![0; n];
            assert(self.per_layer@ =~= Seq::new(n as nat, |i: int| 0usize));
        }
    }

    /// Enter the inner level. Its sequence is longer by the `markers` that this
    /// level splices in and that land ([`landing_count`]). Returns the previous
    /// hint, for [`Self::leave`].
    pub fn enter<M: ClassMarker>(&mut self, markers: &[M]) -> (saved: Option<usize>)
        requires
            len_fits(grown(marks(markers@), old(self).full_len)),
        ensures
            saved == old(self).full_len,
            final(self)@ == (Cursors {
                full_len: machine_len(grown(marks(markers@), old(self).full_len)),
                ..old(self)@
            }),
    {
        let saved = self.full_len;
        self.full_len = match saved {
            Some(len) => Some(len + landing_count(markers, len)),
            None => None,
        };
        saved
    }

    /// Leave the inner level, restoring the hint [`Self::enter`] returned.
    pub fn leave(&mut self, saved: Option<usize>)
        ensures
            final(self)@ == (Cursors { full_len: saved, ..old(self)@ }),
    {
        self.full_len = saved;
    }
}

/// The shape of the embedding table of `n` class markers of the given `width`
/// (`None` when there are none).
pub fn init_class_emb(n: usize, width: usize) -> (dims: Option<[usize; 2]>)
    ensures
        dims is Some == (n > 0),
        dims matches Some(dims) ==> dims[0] == n && dims[1] == width,
{
    if n > 0 {
        Some([n, width])
    } else {
        None
    }
}

/// The class-marker embedding table that a splice reads: it must have one row
/// per class marker, of the width it is spliced into. `None` where it does not,
/// or where there is none.
pub fn class_emb_table(emb: Option<[usize; 2]>, n: usize, width: usize) -> (table: Option<
    [usize; 2],
>)
    ensures
        table is Some == (emb matches Some(dims) && dims[0] == n && dims[1] == width),
        table is Some ==> table == emb,
{
    match emb {
        Some(dims) => if dims[0] == n && dims[1] == width {
            Some(dims)
        } else {
            None
        },
        None => None,
    }
}

/// The width of a class-marker embedding table. A prime sizes its rows by it,
/// because it has no token to read the width from.
pub fn class_emb_width(emb: Option<[usize; 2]>) -> (width: Option<usize>)
    ensures
        width == (match emb {
            Some(dims) => Some(dims[1]),
            None => None,
        }),
{
    match emb {
        Some(dims) => Some(dims[1]),
        None => None,
    }
}

} // verus!
