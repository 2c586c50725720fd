//! Virtual-layer to real-weight scheduling.
//!
//! A stack can run `n_virtual_layers` logical passes over only `n_real_layers`
//! weight sets. Each virtual layer keeps its own cache but shares parameters. A
//! [`Schedule`] maps a virtual layer index to the real weight index to use.
//!
//! For bidirectional stacks, [`BidiSchedule`] additionally interleaves the two
//! directions: even virtual indices run the straight pass and odd indices run
//! the reverse pass.
//!
//! A [`GradHorizon`] rides on top of that mapping: it says which of the virtual
//! layers back-propagate, counted per real layer so that no weight set is left
//! untrained, whichever way a schedule spreads it.
pub mod laws;

use crate::utils::order;
use vstd::arithmetic::div_mod;
use vstd::prelude::*;

verus! {

/// How a unidirectional layer stack maps virtual layer indices to real
/// (weight-bearing) layer indices.
#[derive(Debug)]
pub enum Schedule {
    /// Wraps around the real layers. With 8 virtual and 3 real layers:
    /// `0 1 2 0 1 2 0 1`.
    Cyclic,
    /// Stretches each real layer over one run. With 8 virtual and 3 real
    /// layers: `0 0 0 1 1 1 2 2`.
    Stretched,
    /// Reads the index vector.
    Custom(Vec<usize>),
}

impl Clone for Schedule {
    fn clone(&self) -> (copy: Self)
        ensures
            copy.same(*self),
    {
        match self {
            Schedule::Cyclic => Schedule::Cyclic,
            Schedule::Stretched => Schedule::Stretched,
            Schedule::Custom(map) => Schedule::Custom(map.clone()),
        }
    }
}

impl Default for Schedule {
    fn default() -> (schedule: Self)
        ensures
            schedule is Cyclic,
    {
        Schedule::Cyclic
    }
}

impl Schedule {
    /// Whether both map every virtual layer alike.
    pub open spec fn same(self, other: Schedule) -> bool {
        match (self, other) {
            (Schedule::Custom(map), Schedule::Custom(its)) => map@ == its@,
            (Schedule::Custom(_), _) => false,
            (_, Schedule::Custom(_)) => false,
            _ => self == other,
        }
    }

    /// The real layer of virtual layer `virtual_idx`.
    pub open spec fn spec_real_idx(self, virtual_idx: int, virtual_len: int, real_len: int) -> int {
        match self {
            Schedule::Cyclic => virtual_idx % real_len,
            Schedule::Stretched => (virtual_idx * real_len) / virtual_len,
            Schedule::Custom(map) => map@[virtual_idx] as int,
        }
    }

    /// Whether the real layer of `virtual_idx` is defined: a real layer to run,
    /// no division by an empty stack, no product past the machine integers, no
    /// index past the map.
    pub open spec fn admits(self, virtual_idx: int, virtual_len: int, real_len: int) -> bool {
        match self {
            Schedule::Cyclic => real_len != 0,
            Schedule::Stretched => virtual_len != 0 && real_len != 0 && virtual_idx * real_len
                <= usize::MAX,
            Schedule::Custom(map) => virtual_idx < map@.len(),
        }
    }

    /// Whether every virtual layer of the stack runs one of its real layers.
    pub open spec fn covers(self, virtual_len: int, real_len: int) -> bool {
        forall|v: int|
            0 <= v < virtual_len ==> #[trigger] self.lands(v, virtual_len, real_len)
    }

    /// Whether virtual layer `virtual_idx` runs one of the real layers.
    pub open spec fn lands(self, virtual_idx: int, virtual_len: int, real_len: int) -> bool {
        self.admits(virtual_idx, virtual_len, real_len) && 0 <= self.spec_real_idx(
            virtual_idx,
            virtual_len,
            real_len,
        ) < real_len
    }

    /// Whether every virtual layer of the stack runs one of its real layers.
    pub fn runs(&self, virtual_len: usize, real_len: usize) -> (ok: bool)
        ensures
            ok == self.covers(virtual_len as int, real_len as int),
    {
        let mut v: usize = 0;
        while v < virtual_len
            invariant
                v <= virtual_len,
                forall|w: int|
                    0 <= w < v ==> #[trigger] self.lands(w, virtual_len as int, real_len as int),
            decreases virtual_len - v,
        {
            let admitted = match self {
                Schedule::Cyclic => real_len != 0,
                Schedule::Stretched => {
                    let product = v.checked_mul(real_len);
                    real_len != 0 && product.is_some()
                },
                Schedule::Custom(map) => v < map.len(),
            };
            assert(admitted == self.admits(v as int, virtual_len as int, real_len as int));
            let ghost at = self.spec_real_idx(v as int, virtual_len as int, real_len as int);
            if !admitted {
                assert(!self.lands(v as int, virtual_len as int, real_len as int));
                return false;
            }
            let layer: usize = self.real_idx(v, virtual_len, real_len);
            assert(layer == at);
            if layer >= real_len {
                assert(!self.lands(v as int, virtual_len as int, real_len as int));
                return false;
            }
            assert(self.lands(v as int, virtual_len as int, real_len as int));
            v = v + 1;
        }
        true
    }

    /// Map `virtual_idx` to a real layer index according to this schedule. A
    /// virtual layer of the stack runs one of its real layers, unless a map
    /// says otherwise.
    pub fn real_idx(&self, virtual_idx: usize, virtual_len: usize, real_len: usize) -> (layer: usize)
        requires
            self.admits(virtual_idx as int, virtual_len as int, real_len as int),
        ensures
            layer == self.spec_real_idx(virtual_idx as int, virtual_len as int, real_len as int),
            virtual_idx < virtual_len && !(*self is Custom) ==> layer < real_len,
    {
        proof {
            if virtual_idx < virtual_len && *self is Stretched {
                lemma_stretched_in_range(virtual_idx as int, virtual_len as int, real_len as int);
            }
        }
        match self {
            Schedule::Cyclic => virtual_idx % real_len,
            Schedule::Stretched => (virtual_idx * real_len) / virtual_len,
            Schedule::Custom(map) => map[virtual_idx],
        }
    }

    /// Which application of its real layer each virtual layer is.
    pub fn applications(&self, virtual_len: usize, real_len: usize) -> (apps: Applications)
        requires
            self.covers(virtual_len as int, real_len as int),
        ensures
            apps.counts(virtual_reals(Some(*self), virtual_len as int, real_len as int), real_len as int),
    {
        let mut reals: Vec<usize> = Vec::new();
        let ghost all = virtual_reals(Some(*self), virtual_len as int, real_len as int);
        let mut i: usize = 0;
        while i < virtual_len
            invariant
                i <= virtual_len,
                reals.len() == i,
                self.covers(virtual_len as int, real_len as int),
                all == virtual_reals(Some(*self), virtual_len as int, real_len as int),
                forall|j: int| 0 <= j < i ==> #[trigger] reals@[j] == all[j] && reals@[j] < real_len,
            decreases virtual_len - i,
        {
            assert(self.lands(i as int, virtual_len as int, real_len as int));
            reals.push(self.real_idx(i, virtual_len, real_len));
            i = i + 1;
        }
        assert(order::ints(reals@) =~= all);
        Applications::new(&reals, real_len)
    }
}

/// The real layer of each virtual layer, in stack order. Without a schedule,
/// each real layer is applied once.
pub open spec fn virtual_reals(
    schedule: Option<Schedule>,
    virtual_len: int,
    real_len: int,
) -> Seq<int> {
    Seq::new(
        virtual_len as nat,
        |i: int|
            match schedule {
                Some(s) => s.spec_real_idx(i, virtual_len, real_len),
                None => i,
            },
    )
}

/// The virtual layers in `lo..hi` that apply real layer `layer`.
pub open spec fn applies(reals: Seq<int>, lo: int, hi: int, layer: int) -> spec_fn(int) -> bool {
    |j: int| lo <= j < hi && reals[j] == layer
}

/// How many of the virtual layers in `lo..hi` apply real layer `layer`.
pub open spec fn applied(reals: Seq<int>, lo: int, hi: int, layer: int) -> nat {
    order::count(reals.len(), applies(reals, lo, hi, layer))
}

/// Taking one more virtual layer at the top of the range counts it when it
/// applies `layer`.
pub proof fn lemma_applied_up(reals: Seq<int>, lo: int, hi: int, layer: int)
    requires
        lo <= hi,
        0 <= hi < reals.len(),
    ensures
        applied(reals, lo, hi + 1, layer) == applied(reals, lo, hi, layer) + (if reals[hi] == layer {
            1nat
        } else {
            0nat
        }),
{
    let p = applies(reals, lo, hi, layer);
    let q = applies(reals, lo, hi + 1, layer);
    if reals[hi] == layer {
        order::lemma_count_add(reals.len(), p, q, hi);
    } else {
        order::lemma_count_ext(reals.len(), p, q);
    }
}

/// Taking one more virtual layer at the bottom of the range counts it when it
/// applies `layer`.
pub proof fn lemma_applied_down(reals: Seq<int>, lo: int, hi: int, layer: int)
    requires
        0 <= lo < hi,
        lo < reals.len(),
    ensures
        applied(reals, lo, hi, layer) == applied(reals, lo + 1, hi, layer) + (if reals[lo] == layer {
            1nat
        } else {
            0nat
        }),
{
    let p = applies(reals, lo + 1, hi, layer);
    let q = applies(reals, lo, hi, layer);
    if reals[lo] == layer {
        order::lemma_count_add(reals.len(), p, q, lo);
    } else {
        order::lemma_count_ext(reals.len(), p, q);
    }
}

/// Which application of its real layer each virtual layer is. An untied
/// parameter reads the copy of that application.
#[derive(Debug, Clone, PartialEq, Eq)]
pub struct Applications {
    /// Per virtual layer: how many earlier virtual layers apply the same real
    /// layer.
    pub index: Vec<usize>,
    /// Per real layer: how many virtual layers apply it.
    pub count: Vec<usize>,
}

impl Applications {
    /// Whether these are the applications of a stack whose virtual layers run
    /// `reals`.
    pub open spec fn counts(self, reals: Seq<int>, real_len: int) -> bool {
        &&& self.index@.len() == reals.len()
        &&& self.count@.len() == real_len
        &&& forall|i: int|
            0 <= i < reals.len() ==> #[trigger] self.index@[i] == applied(reals, 0, i, reals[i])
        &&& forall|r: int|
            0 <= r < real_len ==> #[trigger] self.count@[r] == applied(
                reals,
                0,
                reals.len() as int,
                r,
            )
    }

    /// The applications of a stack whose virtual layer `i` runs real layer
    /// `reals[i]`.
    pub fn new(reals: &Vec<usize>, real_len: usize) -> (apps: Self)
        requires
            forall|i: int| 0 <= i < reals@.len() ==> #[trigger] reals@[i] < real_len,
        ensures
            apps.counts(order::ints(reals@), real_len as int),
    {
        let ghost all = order::ints(reals@);
        let mut index: Vec<usize> = Vec::new();
        let mut count: Vec<usize> = vec![0; real_len];
        let mut i: usize = 0;
        proof {
            assert forall|r: int| 0 <= r < real_len implies applied(all, 0, 0, r) == 0 by {
                order::lemma_count_none(all.len(), applies(all, 0, 0, r));
            }
        }
        while i < reals.len()
            invariant
                i <= reals@.len(),
                index.len() == i,
                count.len() == real_len,
                all == order::ints(reals@),
                forall|i: int| 0 <= i < reals@.len() ==> #[trigger] reals@[i] < real_len,
                forall|j: int| 0 <= j < i ==> #[trigger] index@[j] == applied(all, 0, j, all[j]),
                forall|r: int|
                    0 <= r < real_len ==> #[trigger] count@[r] == applied(all, 0, i as int, r),
            decreases reals@.len() - i,
        {
            let layer: usize = reals[i];
            assert(all[i as int] == layer);
            index.push(count[layer]);
            proof {
                lemma_applied_is_bounded(all, i as int, layer as int);
                assert forall|r: int| 0 <= r < real_len implies applied(all, 0, i + 1, r)
                    == applied(all, 0, i as int, r) + (if all[i as int] == r {
                    1nat
                } else {
                    0nat
                }) by {
                    lemma_applied_up(all, 0, i as int, r);
                }
            }
            count[layer] = count[layer] + 1;
            i = i + 1;
        }
        Applications { index, count }
    }
}

/// No real layer is applied more often than virtual layers have run.
proof fn lemma_applied_is_bounded(reals: Seq<int>, hi: int, layer: int)
    requires
        0 <= hi <= reals.len(),
    ensures
        applied(reals, 0, hi, layer) <= hi,
    decreases hi,
{
    if hi == 0 {
        order::lemma_count_none(reals.len(), applies(reals, 0, 0, layer));
    } else {
        lemma_applied_is_bounded(reals, hi - 1, layer);
        lemma_applied_up(reals, 0, hi - 1, layer);
    }
}

/// Which (virtual) layers of a stack build an autodiff graph.
///
/// The layers left out run on the inner (non-autodiff) backend and retain no
/// activation. A horizon is a mask, not one boundary: the stack cuts down
/// wherever the mask turns off and lifts back wherever it turns on, as many
/// times as the mask says.
#[derive(Debug, PartialEq, Eq)]
pub enum GradHorizon {
    /// Back-propagate the last `K` applications of every real layer. `K`
    /// counts per weight set, not per stack, so every real layer keeps a
    /// tracked application whatever the schedule does with it.
    Depth(usize),
    /// Explicit per-virtual-layer mask, `true` = back-propagated.
    Mask(Vec<bool>),
}

impl Clone for GradHorizon {
    fn clone(&self) -> (copy: Self)
        ensures
            copy.same(*self),
    {
        match self {
            GradHorizon::Depth(k) => GradHorizon::Depth(*k),
            GradHorizon::Mask(mask) => GradHorizon::Mask(mask.clone()),
        }
    }
}

impl GradHorizon {
    /// Whether both track the same layers.
    pub open spec fn same(self, other: GradHorizon) -> bool {
        match (self, other) {
            (GradHorizon::Depth(k), GradHorizon::Depth(its)) => k == its,
            (GradHorizon::Mask(mask), GradHorizon::Mask(its)) => mask@ == its@,
            _ => false,
        }
    }

    /// A mask tracking the last `k` of `virtual_len` layers: the single-cut
    /// suffix horizon, spelled out.
    pub fn last(k: usize, virtual_len: usize) -> (horizon: Self)
        ensures
            horizon matches GradHorizon::Mask(mask) && mask@ == Seq::new(
                virtual_len as nat,
                |i: int| i + k >= virtual_len,
            ),
    {
        let mut mask: Vec<bool> = Vec::new();
        let mut i: usize = 0;
        while i < virtual_len
            invariant
                i <= virtual_len,
                mask.len() == i,
                forall|j: int| 0 <= j < i ==> #[trigger] mask@[j] == (j + k >= virtual_len),
            decreases virtual_len - i,
        {
            mask.push(k >= virtual_len - i);
            i = i + 1;
        }
        assert(mask@ =~= Seq::new(virtual_len as nat, |i: int| i + k >= virtual_len));
        GradHorizon::Mask(mask)
    }

    /// Whether virtual layer `i` back-propagates in a stack whose virtual
    /// layers run `reals`: the mask says so, or fewer than `K` later
    /// applications of its real layer remain.
    pub open spec fn tracks(self, reals: Seq<int>, i: int) -> bool {
        match self {
            GradHorizon::Mask(mask) => mask@[i],
            GradHorizon::Depth(k) => applied(reals, i + 1, reals.len() as int, reals[i]) < k,
        }
    }

    /// Whether this horizon resolves against a stack. A mask needs one flag
    /// per virtual layer. A depth is undefined for [`Schedule::Custom`]: a
    /// hand-written map has no canonical run to take the last applications of.
    pub open spec fn fits(
        self,
        schedule: Option<Schedule>,
        virtual_len: int,
        real_len: int,
    ) -> bool {
        match self {
            GradHorizon::Mask(mask) => mask@.len() == virtual_len,
            GradHorizon::Depth(_) => match schedule {
                Some(s) => !(s is Custom) && s.covers(virtual_len, real_len),
                None => virtual_len <= real_len,
            },
        }
    }

    /// Whether this horizon resolves against a stack that runs `schedule`.
    pub fn resolves(&self, schedule: Option<&Schedule>, virtual_len: usize, real_len: usize) -> (ok:
        bool)
        requires
            schedule matches Some(s) ==> s.covers(virtual_len as int, real_len as int),
        ensures
            ok == self.fits(option_deref(schedule), virtual_len as int, real_len as int),
    {
        match self {
            GradHorizon::Mask(mask) => mask.len() == virtual_len,
            GradHorizon::Depth(_) => match schedule {
                Some(s) => !matches!(s, Schedule::Custom(_)),
                None => virtual_len <= real_len,
            },
        }
    }

    /// Resolve to one `tracked` flag per virtual layer. `schedule` is the
    /// stack's own, `None` when it runs no virtual layers at all (each real
    /// layer applied once).
    pub fn tracked_mask(
        &self,
        schedule: Option<&Schedule>,
        virtual_len: usize,
        real_len: usize,
    ) -> (mask: Vec<bool>)
        requires
            self.fits(
                option_deref(schedule),
                virtual_len as int,
                real_len as int,
            ),
        ensures
            mask@ == Seq::new(
                virtual_len as nat,
                |i: int|
                    self.tracks(
                        virtual_reals(option_deref(schedule), virtual_len as int, real_len as int),
                        i,
                    ),
            ),
    {
        let ghost s = option_deref(schedule);
        let ghost reals = virtual_reals(s, virtual_len as int, real_len as int);
        match self {
            GradHorizon::Mask(mask) => {
                let flags = mask.clone();
                assert(flags@ =~= mask@);
                flags
            },
            GradHorizon::Depth(k) => {
                let mut flags: Vec<bool> = vec![false; virtual_len];
                let mut kept: Vec<usize> = vec![0; real_len];
                let mut i: usize = virtual_len;
                proof {
                    assert forall|r: int| 0 <= r < real_len implies #[trigger] kept@[r] == least(
                        applied(reals, virtual_len as int, virtual_len as int, r) as int,
                        *k as int,
                    ) by {
                        order::lemma_count_none(
                            reals.len(),
                            applies(reals, virtual_len as int, virtual_len as int, r),
                        );
                    }
                }
                while i > 0
                    invariant
                        i <= virtual_len,
                        flags.len() == virtual_len,
                        kept.len() == real_len,
                        s == option_deref(schedule),
                        reals == virtual_reals(s, virtual_len as int, real_len as int),
                        self.fits(s, virtual_len as int, real_len as int),
                        *self == GradHorizon::Depth(*k),
                        forall|j: int|
                            i <= j < virtual_len ==> #[trigger] flags@[j] == self.tracks(reals, j),
                        forall|j: int| 0 <= j < i ==> !#[trigger] flags@[j],
                        forall|r: int|
                            0 <= r < real_len ==> #[trigger] kept@[r] == least(
                                applied(reals, i as int, virtual_len as int, r) as int,
                                *k as int,
                            ),
                    decreases i,
                {
                    i = i - 1;
                    let layer: usize = match schedule {
                        Some(s) => {
                            assert(s.lands(i as int, virtual_len as int, real_len as int));
                            s.real_idx(i, virtual_len, real_len)
                        },
                        None => i,
                    };
                    proof {
                        assert(reals[i as int] == layer);
                        assert forall|r: int| 0 <= r < real_len implies applied(
                            reals,
                            i as int,
                            virtual_len as int,
                            r,
                        ) == applied(reals, i + 1, virtual_len as int, r) + (if layer == r {
                            1nat
                        } else {
                            0nat
                        }) by {
                            lemma_applied_down(reals, i as int, virtual_len as int, r);
                        }
                    }
                    if kept[layer] < *k {
                        kept[layer] = kept[layer] + 1;
                        flags[i] = true;
                    }
                }
                assert(flags@ =~= Seq::new(
                    virtual_len as nat,
                    |i: int| self.tracks(reals, i),
                ));
                flags
            },
        }
    }
}

/// `at * side / len` stays below `side` while `at` stays below `len`.
pub proof fn lemma_stretched_in_range(at: int, len: int, side: int)
    requires
        0 <= at < len,
        0 < side,
    ensures
        0 <= (at * side) / len < side,
{
    assert(0 <= at * side < len * side) by (nonlinear_arith)
        requires
            0 <= at < len,
            0 < side,
    ;
    div_mod::lemma_div_pos_is_pos(at * side, len);
    div_mod::lemma_multiply_divide_lt(at * side, len, side);
}

/// The smaller of two numbers.
pub open spec fn least(a: int, b: int) -> int {
    if a <= b {
        a
    } else {
        b
    }
}

/// The value behind an optional reference.
pub open spec fn option_deref<T>(value: Option<&T>) -> Option<T> {
    match value {
        Some(v) => Some(*v),
        None => None,
    }
}

/// How a bidirectional layer stack maps virtual layer indices to real layer
/// indices, interleaving the straight (even indices) and reverse (odd indices)
/// directions.
#[derive(Debug)]
pub enum BidiSchedule {
    /// Even virtual positions run even real layers and odd ones run odd real
    /// layers, wrapping around. With 10 virtual and 4 real layers:
    /// `0 1, 2 3, 0 1, 2 3, 0 1`.
    StridedCyclic,
    /// As [`Self::StridedCyclic`], stretching each direction:
    /// `0 1, 0 1, 0 1, 2 3, 2 3`.
    StridedStretched,
    /// Both directions of a pair run the same real layer, wrapping around:
    /// `0 0, 1 1, 2 2, 3 3, 0 0`.
    SymmetricCyclic,
    /// Both directions of a pair run the same real layer, stretched:
    /// `0 0, 0 0, 1 1, 2 2, 3 3`.
    SymmetricStretched,
    /// Reads the index vector.
    Custom(Vec<usize>),
}

impl Clone for BidiSchedule {
    fn clone(&self) -> (copy: Self)
        ensures
            copy.same(*self),
    {
        match self {
            BidiSchedule::StridedCyclic => BidiSchedule::StridedCyclic,
            BidiSchedule::StridedStretched => BidiSchedule::StridedStretched,
            BidiSchedule::SymmetricCyclic => BidiSchedule::SymmetricCyclic,
            BidiSchedule::SymmetricStretched => BidiSchedule::SymmetricStretched,
            BidiSchedule::Custom(map) => BidiSchedule::Custom(map.clone()),
        }
    }
}

impl Default for BidiSchedule {
    fn default() -> (schedule: Self)
        ensures
            schedule is StridedCyclic,
    {
        BidiSchedule::StridedCyclic
    }
}

/// How many of `real_len` real layers belong to the direction of `virtual_idx`
/// when the two directions alternate: the straight one takes the odd one out.
pub open spec fn strided_len(virtual_idx: int, real_len: int) -> int {
    if virtual_idx % 2 == 0 {
        (real_len + 1) / 2
    } else {
        real_len / 2
    }
}

/// How many pairs a stack of `virtual_len` virtual layers is stretched over: the
/// whole ones. One virtual layer alone counts as a pair.
pub open spec fn pairs_of(virtual_len: int) -> int {
    if virtual_len < 2 {
        1
    } else {
        virtual_len / 2
    }
}

/// Where virtual layer `virtual_idx` falls when the pairs of the stack are
/// stretched over `over` layers. The odd layer out of an odd stack, which comes
/// behind the last whole pair, stays on the last of them.
pub open spec fn pair_stretch(virtual_idx: int, virtual_len: int, over: int) -> int {
    let at = (virtual_idx / 2 * over) / pairs_of(virtual_len);
    if virtual_idx < virtual_len && at >= over {
        over - 1
    } else {
        at
    }
}

/// A virtual layer of the stack falls on one of the layers.
pub proof fn lemma_pair_stretch(virtual_idx: int, virtual_len: int, over: int)
    requires
        0 <= virtual_idx,
        0 < over,
    ensures
        0 <= pair_stretch(virtual_idx, virtual_len, over),
        virtual_idx < virtual_len ==> pair_stretch(virtual_idx, virtual_len, over) < over,
{
    let product = virtual_idx / 2 * over;
    assert(0 <= product) by (nonlinear_arith)
        requires
            product == virtual_idx / 2 * over,
            0 <= virtual_idx,
            0 < over,
    ;
    div_mod::lemma_div_pos_is_pos(product, pairs_of(virtual_len));
}

impl BidiSchedule {
    /// Whether both map every virtual layer alike.
    pub open spec fn same(self, other: BidiSchedule) -> bool {
        match (self, other) {
            (BidiSchedule::Custom(map), BidiSchedule::Custom(its)) => map@ == its@,
            (BidiSchedule::Custom(_), _) => false,
            (_, BidiSchedule::Custom(_)) => false,
            _ => self == other,
        }
    }

    /// The real layer of virtual layer `virtual_idx`. The pair
    /// `virtual_idx / 2` is what the schedule cycles or stretches over.
    pub open spec fn spec_real_idx(self, virtual_idx: int, virtual_len: int, real_len: int) -> int {
        let pair = virtual_idx / 2;
        let side = strided_len(virtual_idx, real_len);
        match self {
            BidiSchedule::StridedCyclic => (pair % side) * 2 + virtual_idx % 2,
            BidiSchedule::StridedStretched => pair_stretch(virtual_idx, virtual_len, side) * 2
                + virtual_idx % 2,
            BidiSchedule::SymmetricCyclic => pair % real_len,
            BidiSchedule::SymmetricStretched => pair_stretch(virtual_idx, virtual_len, real_len),
            BidiSchedule::Custom(map) => map@[virtual_idx] as int,
        }
    }

    /// Whether the real layer of `virtual_idx` is defined: a real layer on its
    /// side, no division by an empty stack, no product past the machine
    /// integers, no index past the map.
    pub open spec fn admits(self, virtual_idx: int, virtual_len: int, real_len: int) -> bool {
        let pair = virtual_idx / 2;
        let side = strided_len(virtual_idx, real_len);
        let stretches = virtual_len >= 2 || virtual_idx < virtual_len;
        match self {
            BidiSchedule::StridedCyclic => side != 0,
            BidiSchedule::StridedStretched => side != 0 && stretches && pair * side
                <= usize::MAX && self.spec_real_idx(virtual_idx, virtual_len, real_len) <= usize::MAX,
            BidiSchedule::SymmetricCyclic => real_len != 0,
            BidiSchedule::SymmetricStretched => real_len != 0 && stretches && pair * real_len
                <= usize::MAX,
            BidiSchedule::Custom(map) => virtual_idx < map@.len(),
        }
    }

    /// Whether every virtual layer of the stack runs one of its real layers.
    pub open spec fn covers(self, virtual_len: int, real_len: int) -> bool {
        forall|v: int|
            0 <= v < virtual_len ==> #[trigger] self.lands(v, virtual_len, real_len)
    }

    /// Whether virtual layer `virtual_idx` runs one of the real layers.
    pub open spec fn lands(self, virtual_idx: int, virtual_len: int, real_len: int) -> bool {
        self.admits(virtual_idx, virtual_len, real_len) && 0 <= self.spec_real_idx(
            virtual_idx,
            virtual_len,
            real_len,
        ) < real_len
    }

    /// Whether every virtual layer of the stack runs one of its real layers.
    pub fn runs(&self, virtual_len: usize, real_len: usize) -> (ok: bool)
        ensures
            ok == self.covers(virtual_len as int, real_len as int),
    {
        let mut v: usize = 0;
        while v < virtual_len
            invariant
                v <= virtual_len,
                forall|w: int|
                    0 <= w < v ==> #[trigger] self.lands(w, virtual_len as int, real_len as int),
            decreases virtual_len - v,
        {
            let pair: usize = v / 2;
            let side: usize = if v % 2 == 0 {
                real_len / 2 + real_len % 2
            } else {
                real_len / 2
            };
            assert(side == strided_len(v as int, real_len as int));
            let admitted = match self {
                BidiSchedule::StridedCyclic => side != 0,
                BidiSchedule::StridedStretched => {
                    proof {
                        if side != 0 {
                            lemma_pair_stretch(v as int, virtual_len as int, side as int);
                        }
                    }
                    let product = pair.checked_mul(side);
                    side != 0 && product.is_some()
                },
                BidiSchedule::SymmetricCyclic => real_len != 0,
                BidiSchedule::SymmetricStretched => {
                    let product = pair.checked_mul(real_len);
                    real_len != 0 && product.is_some()
                },
                BidiSchedule::Custom(map) => v < map.len(),
            };
            assert(admitted == self.admits(v as int, virtual_len as int, real_len as int));
            if !admitted {
                assert(!self.lands(v as int, virtual_len as int, real_len as int));
                return false;
            }
            let layer: usize = self.real_idx(v, virtual_len, real_len);
            if layer >= real_len {
                assert(!self.lands(v as int, virtual_len as int, real_len as int));
                return false;
            }
            assert(self.lands(v as int, virtual_len as int, real_len as int));
            v = v + 1;
        }
        true
    }

    /// Map `virtual_idx` to a real layer index. Even/odd `virtual_idx` selects
    /// the straight/reverse direction; the outer index `virtual_idx / 2` is
    /// what the schedule cycles or stretches over. A virtual layer of the stack
    /// runs one of its real layers, unless a map says otherwise: stretched, the
    /// odd layer out of an odd stack stays on the last.
    pub fn real_idx(&self, virtual_idx: usize, virtual_len: usize, real_len: usize) -> (layer:
        usize)
        requires
            self.admits(virtual_idx as int, virtual_len as int, real_len as int),
        ensures
            layer == self.spec_real_idx(virtual_idx as int, virtual_len as int, real_len as int),
            virtual_idx < virtual_len && !(*self is Custom) ==> layer < real_len,
    {
        let virtual_outer_idx: usize = virtual_idx / 2;
        let virtual_outer_len: usize = if virtual_len < 2 {
            1
        } else {
            virtual_len / 2
        };
        let odd_len: usize = real_len / 2;
        let even_len: usize = odd_len + real_len % 2;
        let is_even = virtual_idx % 2 == 0;
        let side: usize = if is_even {
            even_len
        } else {
            odd_len
        };
        assert(side == strided_len(virtual_idx as int, real_len as int));
        proof {
            if *self is StridedStretched {
                lemma_pair_stretch(virtual_idx as int, virtual_len as int, side as int);
            }
            if *self is SymmetricStretched {
                lemma_pair_stretch(virtual_idx as int, virtual_len as int, real_len as int);
            }
        }
        match self {
            BidiSchedule::StridedCyclic => {
                let at: usize = virtual_outer_idx % side;
                assert(at < side);
                at * 2 + virtual_idx % 2
            },
            BidiSchedule::StridedStretched => {
                let at: usize = (virtual_outer_idx * side) / virtual_outer_len;
                if virtual_idx < virtual_len && at >= side {
                    (side - 1) * 2 + virtual_idx % 2
                } else {
                    at * 2 + virtual_idx % 2
                }
            },
            BidiSchedule::SymmetricCyclic => virtual_outer_idx % real_len,
            BidiSchedule::SymmetricStretched => {
                let at: usize = (virtual_outer_idx * real_len) / virtual_outer_len;
                if virtual_idx < virtual_len && at >= real_len {
                    real_len - 1
                } else {
                    at
                }
            },
            BidiSchedule::Custom(map) => map[virtual_idx],
        }
    }

    /// Which application of its real layer each virtual layer is.
    pub fn applications(&self, virtual_len: usize, real_len: usize) -> (apps: Applications)
        requires
            self.covers(virtual_len as int, real_len as int),
        ensures
            apps.counts(
                bidi_virtual_reals(Some(*self), virtual_len as int, real_len as int),
                real_len as int,
            ),
    {
        let mut reals: Vec<usize> = Vec::new();
        let ghost all = bidi_virtual_reals(Some(*self), virtual_len as int, real_len as int);
        let mut i: usize = 0;
        while i < virtual_len
            invariant
                i <= virtual_len,
                reals.len() == i,
                self.covers(virtual_len as int, real_len as int),
                all == bidi_virtual_reals(Some(*self), virtual_len as int, real_len as int),
                forall|j: int| 0 <= j < i ==> #[trigger] reals@[j] == all[j] && reals@[j] < real_len,
            decreases virtual_len - i,
        {
            assert(self.lands(i as int, virtual_len as int, real_len as int));
            reals.push(self.real_idx(i, virtual_len, real_len));
            i = i + 1;
        }
        assert(order::ints(reals@) =~= all);
        Applications::new(&reals, real_len)
    }
}

/// The real layer of each virtual layer of a bidirectional stack, in stack
/// order. Without a schedule, each real layer is applied once.
pub open spec fn bidi_virtual_reals(
    schedule: Option<BidiSchedule>,
    virtual_len: int,
    real_len: int,
) -> Seq<int> {
    Seq::new(
        virtual_len as nat,
        |i: int|
            match schedule {
                Some(s) => s.spec_real_idx(i, virtual_len, real_len),
                None => i,
            },
    )
}

} // verus!
