//! What every schedule and every gradient horizon keeps.
use crate::utils::order;
use crate::utils::schedule;
use crate::utils::schedule::{Applications, BidiSchedule, GradHorizon, Schedule};
use vstd::arithmetic::div_mod;
use vstd::prelude::*;

verus! {

/// A quotient is found from its bounds.
proof fn lemma_quotient(x: int, d: int, q: int)
    requires
        0 < d,
        q * d <= x < (q + 1) * d,
    ensures
        x / d == q,
{
    let r = x - q * d;
    assert(x == d * q + r && 0 <= r < d) by (nonlinear_arith)
        requires
            r == x - q * d,
            q * d <= x < (q + 1) * d,
    ;
    div_mod::lemma_fundamental_div_mod_converse(x, d, q, r);
}

/// A cyclic or stretched schedule maps every virtual layer of a stack to one
/// of its real layers.
pub proof fn schedule_stays_in_range(s: Schedule, v: int, virtual_len: int, real_len: int)
    requires
        !(s is Custom),
        0 <= v < virtual_len,
        0 < real_len,
    ensures
        0 <= s.spec_real_idx(v, virtual_len, real_len) < real_len,
{
    match s {
        Schedule::Cyclic => {},
        Schedule::Stretched => {
            schedule::lemma_stretched_in_range(v, virtual_len, real_len);
        },
        Schedule::Custom(_) => {},
    }
}

/// A cyclic or stretched schedule leaves no real layer unused, as long as
/// there are at least as many virtual layers as real ones.
pub proof fn schedule_runs_every_real_layer(
    s: Schedule,
    layer: int,
    virtual_len: int,
    real_len: int,
) -> (v: int)
    requires
        !(s is Custom),
        0 <= layer < real_len <= virtual_len,
    ensures
        0 <= v < virtual_len,
        s.spec_real_idx(v, virtual_len, real_len) == layer,
{
    match s {
        Schedule::Cyclic => {
            div_mod::lemma_small_mod(layer as nat, real_len as nat);
            layer
        },
        _ => {
            let x = layer * virtual_len;
            let v = (x + real_len - 1) / real_len;
            div_mod::lemma_fundamental_div_mod(x + real_len - 1, real_len);
            assert(0 <= x && x + real_len <= (layer + 1) * virtual_len && (layer + 1) * virtual_len
                <= real_len * virtual_len) by (nonlinear_arith)
                requires
                    x == layer * virtual_len,
                    0 <= layer < real_len <= virtual_len,
            ;
            let rest = (x + real_len - 1) % real_len;
            assert(v * real_len == x + real_len - 1 - rest) by (nonlinear_arith)
                requires
                    x + real_len - 1 == real_len * v + rest,
            ;
            lemma_quotient(v * real_len, virtual_len, layer);
            assert(0 <= v < virtual_len) by (nonlinear_arith)
                requires
                    0 <= v * real_len < real_len * virtual_len,
                    0 < real_len,
            ;
            v
        },
    }
}

/// A stretched schedule gives each real layer one contiguous run: later
/// virtual layers never return to an earlier real layer.
pub proof fn stretched_never_goes_back(a: int, b: int, virtual_len: int, real_len: int)
    requires
        0 <= a <= b < virtual_len,
        0 < real_len,
    ensures
        Schedule::Stretched.spec_real_idx(a, virtual_len, real_len)
            <= Schedule::Stretched.spec_real_idx(b, virtual_len, real_len),
{
    assert(a * real_len <= b * real_len) by (nonlinear_arith)
        requires
            a <= b,
            0 < real_len,
    ;
    div_mod::lemma_div_is_ordered(a * real_len, b * real_len, virtual_len);
}

/// Where a stretched schedule starts to run real layer `layer`.
pub open spec fn stretched_start(layer: int, virtual_len: int, real_len: int) -> int {
    (layer * virtual_len + real_len - 1) / real_len
}

/// The start of a run is the first virtual layer that reaches the real one.
proof fn lemma_stretched_start(v: int, layer: int, virtual_len: int, real_len: int)
    requires
        0 < real_len,
    ensures
        (stretched_start(layer, virtual_len, real_len) <= v) == (layer * virtual_len <= v
            * real_len),
{
    let x = layer * virtual_len;
    let up = x + real_len - 1;
    let q = up / real_len;
    let rest = up % real_len;
    div_mod::lemma_fundamental_div_mod(up, real_len);
    assert((q <= v) == (x <= v * real_len)) by (nonlinear_arith)
        requires
            x + real_len - 1 == real_len * q + rest,
            0 <= rest < real_len,
    ;
}

/// A run is `virtual_len / real_len` long, or one more.
proof fn lemma_stretched_run_len(layer: int, virtual_len: int, real_len: int)
    requires
        0 <= virtual_len,
        0 < real_len,
    ensures
        virtual_len / real_len <= stretched_start(layer + 1, virtual_len, real_len)
            - stretched_start(layer, virtual_len, real_len) <= virtual_len / real_len + 1,
{
    let x = layer * virtual_len;
    let y = (layer + 1) * virtual_len;
    let a = stretched_start(layer, virtual_len, real_len);
    let b = stretched_start(layer + 1, virtual_len, real_len);
    let q = virtual_len / real_len;
    let ra = (x + real_len - 1) % real_len;
    let rb = (y + real_len - 1) % real_len;
    let rest = virtual_len % real_len;
    div_mod::lemma_fundamental_div_mod(x + real_len - 1, real_len);
    div_mod::lemma_fundamental_div_mod(y + real_len - 1, real_len);
    div_mod::lemma_fundamental_div_mod(virtual_len, real_len);
    assert(y == x + virtual_len) by (nonlinear_arith)
        requires
            x == layer * virtual_len,
            y == (layer + 1) * virtual_len,
    ;
    assert(real_len * (b - a - q) == rest + ra - rb) by (nonlinear_arith)
        requires
            x + real_len - 1 == real_len * a + ra,
            x + virtual_len + real_len - 1 == real_len * b + rb,
            virtual_len == real_len * q + rest,
    ;
    assert(0 <= b - a - q <= 1) by (nonlinear_arith)
        requires
            real_len * (b - a - q) == rest + ra - rb,
            0 <= rest < real_len,
            0 <= ra < real_len,
            0 <= rb < real_len,
    ;
}

/// A stretched schedule runs each real layer in one contiguous run of virtual
/// layers. The runs fill the stack, and their lengths differ by at most one.
pub proof fn stretched_runs_are_even(
    v: int,
    layer: int,
    other: int,
    virtual_len: int,
    real_len: int,
)
    requires
        0 <= v < virtual_len,
        0 <= layer < real_len,
        0 <= other < real_len,
    ensures
        (Schedule::Stretched.spec_real_idx(v, virtual_len, real_len) == layer) == (
        stretched_start(layer, virtual_len, real_len) <= v < stretched_start(
            layer + 1,
            virtual_len,
            real_len,
        )),
        stretched_start(0, virtual_len, real_len) == 0,
        stretched_start(real_len, virtual_len, real_len) == virtual_len,
        ({
            let mine = stretched_start(layer + 1, virtual_len, real_len) - stretched_start(
                layer,
                virtual_len,
                real_len,
            );
            let its = stretched_start(other + 1, virtual_len, real_len) - stretched_start(
                other,
                virtual_len,
                real_len,
            );
            0 <= mine && -1 <= mine - its <= 1
        }),
{
    let x = v * real_len;
    let at = x / virtual_len;
    lemma_stretched_start(v, layer, virtual_len, real_len);
    lemma_stretched_start(v, layer + 1, virtual_len, real_len);
    div_mod::lemma_fundamental_div_mod(x, virtual_len);
    let rest = x % virtual_len;
    assert((at == layer) == (layer * virtual_len <= x < (layer + 1) * virtual_len)) by (nonlinear_arith)
        requires
            x == virtual_len * at + rest,
            0 <= rest < virtual_len,
    ;
    lemma_quotient(real_len - 1, real_len, 0);
    assert(0 * virtual_len == 0);
    assert(virtual_len * real_len <= real_len * virtual_len + real_len - 1 < (virtual_len + 1)
        * real_len) by (nonlinear_arith)
        requires
            0 < real_len,
    ;
    lemma_quotient(real_len * virtual_len + real_len - 1, real_len, virtual_len);
    lemma_stretched_run_len(layer, virtual_len, real_len);
    lemma_stretched_run_len(other, virtual_len, real_len);
    div_mod::lemma_div_pos_is_pos(virtual_len, real_len);
}

/// A cyclic schedule repeats every `real_len` virtual layers.
pub proof fn cyclic_repeats(v: int, virtual_len: int, real_len: int)
    requires
        0 < real_len,
    ensures
        Schedule::Cyclic.spec_real_idx(v + real_len, virtual_len, real_len)
            == Schedule::Cyclic.spec_real_idx(v, virtual_len, real_len),
{
    div_mod::lemma_mod_add_multiples_vanish(v, real_len);
}

/// Every bidirectional schedule but a custom one maps every virtual layer of
/// a stack to one of its real layers. The strided ones need a real layer
/// for the direction of the virtual one.
pub proof fn bidi_schedule_stays_in_range(
    s: BidiSchedule,
    v: int,
    virtual_len: int,
    real_len: int,
)
    requires
        !(s is Custom),
        0 <= v < virtual_len,
        0 < real_len,
        (s is StridedCyclic || s is StridedStretched) ==> schedule::strided_len(v, real_len) > 0,
    ensures
        0 <= s.spec_real_idx(v, virtual_len, real_len) < real_len,
{
    let side = schedule::strided_len(v, real_len);
    match s {
        BidiSchedule::StridedStretched => {
            schedule::lemma_pair_stretch(v, virtual_len, side);
        },
        BidiSchedule::SymmetricStretched => {
            schedule::lemma_pair_stretch(v, virtual_len, real_len);
        },
        _ => {},
    }
}

/// A strided schedule keeps the directions apart: straight (even) virtual
/// layers run even real layers, and reverse (odd) ones run odd real layers.
pub proof fn strided_keeps_directions_apart(
    s: BidiSchedule,
    v: int,
    virtual_len: int,
    real_len: int,
)
    requires
        s is StridedCyclic || s is StridedStretched,
    ensures
        s.spec_real_idx(v, virtual_len, real_len) % 2 == v % 2,
{
}

/// A symmetric schedule runs both directions of a pair on one real layer. The odd
/// layer out of an odd stack has no other direction.
pub proof fn symmetric_shares_the_pair(
    s: BidiSchedule,
    pair: int,
    virtual_len: int,
    real_len: int,
)
    requires
        s is SymmetricCyclic || s is SymmetricStretched,
        2 * pair + 1 != virtual_len,
    ensures
        s.spec_real_idx(2 * pair, virtual_len, real_len) == s.spec_real_idx(
            2 * pair + 1,
            virtual_len,
            real_len,
        ),
{
    assert((2 * pair) / 2 == (2 * pair + 1) / 2);
}

/// The application of a virtual layer is one of those its real layer has.
pub proof fn application_is_counted(apps: Applications, reals: Seq<int>, real_len: int, i: int)
    requires
        apps.counts(reals, real_len),
        0 <= i < reals.len(),
        0 <= reals[i] < real_len,
    ensures
        apps.index@[i] < apps.count@[reals[i]],
{
    let layer = reals[i];
    schedule::lemma_applied_up(reals, 0, i, layer);
    order::lemma_count_le(
        reals.len(),
        schedule::applies(reals, 0, i + 1, layer),
        schedule::applies(reals, 0, reals.len() as int, layer),
    );
}

/// Two virtual layers never share an application of one real layer, so each
/// reads its own untied copy.
pub proof fn applications_are_distinct(
    apps: Applications,
    reals: Seq<int>,
    real_len: int,
    a: int,
    b: int,
)
    requires
        apps.counts(reals, real_len),
        0 <= a < b < reals.len(),
        reals[a] == reals[b],
    ensures
        apps.index@[a] < apps.index@[b],
{
    let layer = reals[a];
    schedule::lemma_applied_up(reals, 0, a, layer);
    order::lemma_count_le(
        reals.len(),
        schedule::applies(reals, 0, a + 1, layer),
        schedule::applies(reals, 0, b, layer),
    );
}

/// The applications of real layer `layer` that a depth horizon tracks.
pub open spec fn tracked_applications(
    horizon: GradHorizon,
    reals: Seq<int>,
    lo: int,
    layer: int,
) -> spec_fn(int) -> bool {
    |j: int| lo <= j < reals.len() && reals[j] == layer && horizon.tracks(reals, j)
}

proof fn lemma_depth_tracks_from(k: usize, reals: Seq<int>, lo: int, layer: int)
    requires
        0 <= lo <= reals.len(),
    ensures
        order::count(
            reals.len(),
            tracked_applications(GradHorizon::Depth(k), reals, lo, layer),
        ) == schedule::least(
            schedule::applied(reals, lo, reals.len() as int, layer) as int,
            k as int,
        ),
    decreases reals.len() - lo,
{
    let n = reals.len();
    let h = GradHorizon::Depth(k);
    let here = tracked_applications(h, reals, lo, layer);
    if lo == n {
        order::lemma_count_none(n, here);
        order::lemma_count_none(n, schedule::applies(reals, lo, n as int, layer));
    } else {
        let above = tracked_applications(h, reals, lo + 1, layer);
        lemma_depth_tracks_from(k, reals, lo + 1, layer);
        schedule::lemma_applied_down(reals, lo, n as int, layer);
        if reals[lo] == layer && h.tracks(reals, lo) {
            order::lemma_count_add(n, above, here, lo);
        } else {
            order::lemma_count_ext(n, above, here);
        }
    }
}

/// A depth of `k` tracks exactly `k` applications of every real layer, or all
/// of them where there are fewer.
pub proof fn depth_tracks_k_of_every_real_layer(k: usize, reals: Seq<int>, layer: int)
    ensures
        order::count(
            reals.len(),
            tracked_applications(GradHorizon::Depth(k), reals, 0, layer),
        ) == schedule::least(
            schedule::applied(reals, 0, reals.len() as int, layer) as int,
            k as int,
        ),
{
    lemma_depth_tracks_from(k, reals, 0, layer);
}

/// The applications a depth leaves out come before those it keeps: a layer
/// tracked at one application is tracked at every later one.
pub proof fn depth_tracks_the_last_applications(k: usize, reals: Seq<int>, a: int, b: int)
    requires
        0 <= a <= b < reals.len(),
        reals[a] == reals[b],
        GradHorizon::Depth(k).tracks(reals, a),
    ensures
        GradHorizon::Depth(k).tracks(reals, b),
{
    let n = reals.len();
    order::lemma_count_le(
        n,
        schedule::applies(reals, b + 1, n as int, reals[b]),
        schedule::applies(reals, a + 1, n as int, reals[a]),
    );
}

/// A stack without weight sharing applies each real layer once, so any
/// `Depth(K >= 1)` tracks all of it.
pub proof fn depth_of_an_unshared_stack_tracks_all(k: usize, n: nat, i: int)
    requires
        k >= 1,
        0 <= i < n,
    ensures
        GradHorizon::Depth(k).tracks(schedule::virtual_reals(None, n as int, n as int), i),
{
    let reals = schedule::virtual_reals(None, n as int, n as int);
    order::lemma_count_none(n, schedule::applies(reals, i + 1, n as int, reals[i]));
}

/// The later applications of virtual layer `i`'s real layer, under a cyclic
/// schedule cut off at `hi`.
proof fn lemma_cyclic_applied(reals: Seq<int>, i: int, hi: int, real_len: int)
    requires
        0 < real_len,
        0 <= i < hi <= reals.len(),
        forall|j: int| 0 <= j < reals.len() ==> #[trigger] reals[j] == j % real_len,
    ensures
        schedule::applied(reals, i + 1, hi, reals[i]) == (hi - 1 - i) / real_len,
    decreases hi,
{
    if hi == i + 1 {
        order::lemma_count_none(reals.len(), schedule::applies(reals, i + 1, hi, reals[i]));
        div_mod::lemma_basic_div(0, real_len);
    } else {
        lemma_cyclic_applied(reals, i, hi - 1, real_len);
        schedule::lemma_applied_up(reals, i + 1, hi - 1, reals[i]);
        let d = hi - 1 - i;
        div_mod::lemma_fundamental_div_mod(d - 1, real_len);
        let q = (d - 1) / real_len;
        let r = (d - 1) % real_len;
        assert(q * real_len + r == d - 1) by (nonlinear_arith)
            requires
                d - 1 == real_len * q + r,
        ;
        assert((q + 1) * real_len == q * real_len + real_len) by (nonlinear_arith);
        assert((q + 2) * real_len == q * real_len + real_len + real_len) by (nonlinear_arith);
        div_mod::lemma_mod_equivalence(hi - 1, i, real_len);
        if r == real_len - 1 {
            lemma_quotient(d, real_len, q + 1);
            div_mod::lemma_mod_multiples_basic(q + 1, real_len);
        } else {
            lemma_quotient(d, real_len, q);
            div_mod::lemma_fundamental_div_mod_converse(d, real_len, q, r + 1);
        }
    }
}

/// Under a cyclic schedule, a depth of `k` is the plain suffix of
/// `k * real_len` virtual layers: the single cut [`GradHorizon::last`] states.
pub proof fn cyclic_depth_is_the_last_suffix(k: usize, i: int, virtual_len: int, real_len: int)
    requires
        0 <= i < virtual_len,
        0 < real_len,
    ensures
        GradHorizon::Depth(k).tracks(
            schedule::virtual_reals(Some(Schedule::Cyclic), virtual_len, real_len),
            i,
        ) == (i + k * real_len >= virtual_len),
{
    let reals = schedule::virtual_reals(Some(Schedule::Cyclic), virtual_len, real_len);
    lemma_cyclic_applied(reals, i, virtual_len, real_len);
    let d = virtual_len - 1 - i;
    div_mod::lemma_fundamental_div_mod(d, real_len);
    let q = d / real_len;
    assert((q < k) == (d < k * real_len)) by (nonlinear_arith)
        requires
            d == real_len * q + d % real_len,
            0 <= d % real_len < real_len,
            0 <= k,
    ;
}

/// A cyclic schedule runs the real layers in order, and then starts again. A
/// stretched one gives virtual layer `v` of `virtual_len` the real layer that is as
/// far into the real layers as `v` is into the stack. A custom one reads its map.
pub proof fn a_schedule_maps_as_it_says(s: Schedule, v: int, virtual_len: int, real_len: int)
    requires
        0 <= v,
        0 < virtual_len,
        0 < real_len,
    ensures
        ({
            let layer = s.spec_real_idx(v, virtual_len, real_len);
            match s {
                Schedule::Cyclic => {
                    &&& v < real_len ==> layer == v
                    &&& v >= real_len ==> layer == s.spec_real_idx(
                        v - real_len,
                        virtual_len,
                        real_len,
                    )
                },
                Schedule::Stretched => layer * virtual_len <= v * real_len < (layer + 1)
                    * virtual_len,
                Schedule::Custom(map) => layer == map@[v],
            }
        }),
{
    match s {
        Schedule::Cyclic => {
            if v < real_len {
                div_mod::lemma_small_mod(v as nat, real_len as nat);
            } else {
                cyclic_repeats(v - real_len, virtual_len, real_len);
            }
        },
        Schedule::Stretched => {
            lemma_quotient_bounds(v * real_len, virtual_len);
        },
        Schedule::Custom(_) => {},
    }
}

/// A quotient is between its bounds.
proof fn lemma_quotient_bounds(x: int, d: int)
    requires
        0 < d,
    ensures
        x / d * d <= x < (x / d + 1) * d,
{
    div_mod::lemma_fundamental_div_mod(x, d);
    let q = x / d;
    let r = x % d;
    assert(q * d <= x < (q + 1) * d) by (nonlinear_arith)
        requires
            x == d * q + r,
            0 <= r < d,
    ;
}

/// Which stacks a schedule can run. A cyclic one needs a real layer, a stretched
/// one also products that fit the machine integers, and a custom one a map that
/// names a real layer for every virtual one.
pub proof fn a_schedule_runs_the_stacks_it_can(s: Schedule, virtual_len: usize, real_len: usize)
    requires
        virtual_len > 0,
    ensures
        s.covers(virtual_len as int, real_len as int) == (match s {
            Schedule::Cyclic => real_len > 0,
            Schedule::Stretched => real_len > 0 && (virtual_len - 1) * real_len <= usize::MAX,
            Schedule::Custom(map) => virtual_len <= map@.len() && forall|v: int|
                0 <= v < virtual_len ==> #[trigger] map@[v] < real_len,
        }),
{
    let n = virtual_len as int;
    let r = real_len as int;
    assert(s.lands(n - 1, n, r) ==> s.admits(n - 1, n, r));
    assert(s.covers(n, r) ==> s.lands(n - 1, n, r));
    match s {
        Schedule::Custom(map) => {
            assert forall|v: int| 0 <= v < n && s.covers(n, r) implies #[trigger] map@[v] < r by {
                assert(s.lands(v, n, r));
            }
        },
        _ => {
            if r > 0 {
                assert forall|v: int|
                    0 <= v < n && (s is Stretched ==> (n - 1) * r <= usize::MAX) implies #[trigger] s.lands(
                    v, n, r) by {
                    schedule_stays_in_range(s, v, n, r);
                    assert(v * r <= (n - 1) * r) by (nonlinear_arith)
                        requires
                            v <= n - 1,
                            0 < r,
                    ;
                }
            }
        },
    }
}

/// Each virtual layer runs the real layer of its schedule, and without one the
/// real layer of its own index.
pub proof fn virtual_layers_follow_the_schedule(
    s: Option<Schedule>,
    v: int,
    virtual_len: int,
    real_len: int,
)
    requires
        0 <= v < virtual_len,
    ensures
        schedule::virtual_reals(s, virtual_len, real_len).len() == virtual_len,
        match s {
            Some(s) => schedule::virtual_reals(Some(s), virtual_len, real_len)[v]
                == s.spec_real_idx(v, virtual_len, real_len),
            None => schedule::virtual_reals(None, virtual_len, real_len)[v] == v,
        },
{
}

/// The applications of a real layer count up from zero, one for each virtual layer
/// that runs it.
pub proof fn applications_count_up(
    apps: Applications,
    reals: Seq<int>,
    real_len: int,
    a: int,
    b: int,
)
    requires
        apps.counts(reals, real_len),
        -1 <= a < b <= reals.len(),
        forall|j: int| a < j < b ==> reals[j] != (if b < reals.len() {
            reals[b]
        } else {
            reals[a]
        }),
        a >= 0 && b < reals.len() ==> reals[a] == reals[b],
        a >= 0 ==> 0 <= reals[a] < real_len,
        a >= 0 || b < reals.len(),
    ensures
        a < 0 ==> apps.index@[b] == 0,
        a >= 0 && b < reals.len() ==> apps.index@[b] == apps.index@[a] + 1,
        a >= 0 && b == reals.len() ==> apps.count@[reals[a]] == apps.index@[a] + 1,
{
    let layer = if b < reals.len() {
        reals[b]
    } else {
        reals[a]
    };
    if a < 0 {
        order::lemma_count_none(reals.len(), schedule::applies(reals, 0, b, layer));
    } else {
        schedule::lemma_applied_up(reals, 0, a, layer);
        order::lemma_count_ext(
            reals.len(),
            schedule::applies(reals, 0, a + 1, layer),
            schedule::applies(reals, 0, b, layer),
        );
    }
}

/// A real layer that no virtual layer runs has no application.
pub proof fn an_idle_layer_has_no_application(
    apps: Applications,
    reals: Seq<int>,
    real_len: int,
    layer: int,
)
    requires
        apps.counts(reals, real_len),
        0 <= layer < real_len,
        forall|j: int| 0 <= j < reals.len() ==> #[trigger] reals[j] != layer,
    ensures
        apps.count@[layer] == 0,
{
    order::lemma_count_none(
        reals.len(),
        schedule::applies(reals, 0, reals.len() as int, layer),
    );
}

/// A depth tracks a virtual layer by how many of its real layer's applications come
/// after it: fewer than the depth. A mask tracks what it says.
pub proof fn a_horizon_tracks_as_it_says(
    h: GradHorizon,
    apps: Applications,
    reals: Seq<int>,
    real_len: int,
    i: int,
)
    requires
        apps.counts(reals, real_len),
        0 <= i < reals.len(),
        0 <= reals[i] < real_len,
    ensures
        h.tracks(reals, i) == (match h {
            GradHorizon::Depth(k) => apps.count@[reals[i]] - 1 - apps.index@[i] < k,
            GradHorizon::Mask(mask) => mask@[i],
        }),
{
    let layer = reals[i];
    let n = reals.len();
    schedule::lemma_applied_up(reals, 0, i, layer);
    order::lemma_count_or(
        n,
        schedule::applies(reals, 0, i + 1, layer),
        schedule::applies(reals, i + 1, n as int, layer),
        schedule::applies(reals, 0, n as int, layer),
    );
}

/// A strided cyclic schedule runs every real layer in order, and then starts each
/// direction again: the straight one after its `(real_len + 1) / 2` layers, the
/// reversed one after its `real_len / 2`.
pub proof fn strided_cyclic_goes_round(v: int, virtual_len: int, real_len: int)
    requires
        0 <= v,
        0 < real_len,
        v % 2 == 1 ==> real_len >= 2,
    ensures
        ({
            let s = BidiSchedule::StridedCyclic;
            let round = if v % 2 == 0 {
                real_len + real_len % 2
            } else {
                real_len - real_len % 2
            };
            &&& v < real_len ==> s.spec_real_idx(v, virtual_len, real_len) == v
            &&& s.spec_real_idx(v + round, virtual_len, real_len) == s.spec_real_idx(
                v,
                virtual_len,
                real_len,
            )
        }),
{
    let side = schedule::strided_len(v, real_len);
    let round = 2 * side;
    if v < real_len {
        div_mod::lemma_small_mod((v / 2) as nat, side as nat);
    }
    assert((v + round) % 2 == v % 2);
    assert((v + round) / 2 == v / 2 + side);
    div_mod::lemma_mod_add_multiples_vanish(v / 2, side);
}

/// A symmetric cyclic schedule runs pair after pair on real layer after real layer,
/// and then starts again.
pub proof fn symmetric_cyclic_goes_round(v: int, virtual_len: int, real_len: int)
    requires
        0 <= v,
        0 < real_len,
    ensures
        ({
            let s = BidiSchedule::SymmetricCyclic;
            &&& v < 2 * real_len ==> s.spec_real_idx(v, virtual_len, real_len) == v / 2
            &&& s.spec_real_idx(v + 2 * real_len, virtual_len, real_len) == s.spec_real_idx(
                v,
                virtual_len,
                real_len,
            )
        }),
{
    if v < 2 * real_len {
        div_mod::lemma_small_mod((v / 2) as nat, real_len as nat);
    }
    assert((v + 2 * real_len) / 2 == v / 2 + real_len);
    div_mod::lemma_mod_add_multiples_vanish(v / 2, real_len);
}

/// A stretched bidirectional schedule gives a pair the real layer that is as far into
/// the layers it is stretched over as the pair is into the stack: all real layers
/// for a symmetric schedule, those of the direction for a strided one. The layer
/// behind the last whole pair of an odd stack stays on the last one. Past the stack the
/// shares go on.
pub proof fn stretched_pairs_keep_their_share(
    s: BidiSchedule,
    v: int,
    virtual_len: int,
    real_len: int,
)
    requires
        s is StridedStretched || s is SymmetricStretched,
        0 <= v,
        0 < virtual_len,
        v < virtual_len || 2 <= virtual_len,
        0 < real_len,
        s is StridedStretched && v % 2 == 1 ==> real_len >= 2,
    ensures
        ({
            let layer = s.spec_real_idx(v, virtual_len, real_len);
            let (at, over) = if s is SymmetricStretched {
                (layer, real_len)
            } else if v % 2 == 0 {
                (layer / 2, (real_len + 1) / 2)
            } else {
                (layer / 2, real_len / 2)
            };
            &&& v / 2 < virtual_len / 2 || v >= virtual_len ==> at * (virtual_len / 2) <= v / 2
                * over < (at + 1) * (virtual_len / 2)
            &&& v / 2 == virtual_len / 2 && 0 < v < virtual_len ==> at == over - 1
            &&& v == 0 ==> layer == 0
            &&& s is StridedStretched ==> layer % 2 == v % 2
        }),
{
    let over = if s is SymmetricStretched {
        real_len
    } else {
        schedule::strided_len(v, real_len)
    };
    let pairs = virtual_len / 2;
    let pair = v / 2;
    if pair < pairs {
        schedule::lemma_stretched_in_range(pair, pairs, over);
        lemma_quotient_bounds(pair * over, pairs);
    } else if v >= virtual_len {
        lemma_quotient_bounds(pair * over, pairs);
    } else if v > 0 {
        assert(pair * over == over * pairs) by (nonlinear_arith)
            requires
                pair == pairs,
        ;
        assert(over * pairs < (over + 1) * pairs) by (nonlinear_arith)
            requires
                pairs > 0,
        ;
        lemma_quotient(pair * over, pairs, over);
    }
    if v == 0 {
        assert(0int * over == 0);
        div_mod::lemma_basic_div(0, schedule::pairs_of(virtual_len));
    }
}

/// Stretching `pairs` pairs over `over` layers reaches every one of them, as long as
/// there are enough pairs.
proof fn lemma_stretch_reaches(at: int, pairs: int, over: int) -> (pair: int)
    requires
        0 <= at < over <= pairs,
    ensures
        0 <= pair < pairs,
        (pair * over) / pairs == at,
{
    let pair = schedule_runs_every_real_layer(Schedule::Stretched, at, pairs, over);
    pair
}

/// Every bidirectional schedule but a custom one runs every real layer, once there
/// are enough virtual layers: as many as real ones for a strided schedule, one pair
/// for each real layer for a symmetric one.
pub proof fn bidi_schedule_runs_every_real_layer(
    s: BidiSchedule,
    layer: int,
    virtual_len: int,
    real_len: int,
) -> (v: int)
    requires
        !(s is Custom),
        0 <= layer < real_len,
        s is StridedCyclic || s is StridedStretched ==> real_len <= virtual_len,
        s is SymmetricCyclic || s is SymmetricStretched ==> 2 * real_len <= virtual_len,
    ensures
        0 <= v < virtual_len,
        s.spec_real_idx(v, virtual_len, real_len) == layer,
{
    match s {
        BidiSchedule::StridedCyclic => {
            strided_cyclic_goes_round(layer, virtual_len, real_len);
            layer
        },
        BidiSchedule::SymmetricCyclic => {
            symmetric_cyclic_goes_round(2 * layer, virtual_len, real_len);
            2 * layer
        },
        BidiSchedule::SymmetricStretched => {
            let pair = lemma_stretch_reaches(layer, virtual_len / 2, real_len);
            schedule::lemma_stretched_in_range(pair, virtual_len / 2, real_len);
            assert((2 * pair) / 2 == pair);
            2 * pair
        },
        _ => {
            let at = layer / 2;
            let side = schedule::strided_len(layer, real_len);
            let pairs = virtual_len / 2;
            if side <= pairs {
                let pair = lemma_stretch_reaches(at, pairs, side);
                let v = 2 * pair + layer % 2;
                schedule::lemma_stretched_in_range(pair, pairs, side);
                assert(v / 2 == pair && v % 2 == layer % 2);
                v
            } else {
                let v = layer;
                assert(side == pairs + 1 && layer % 2 == 0);
                stretched_pairs_keep_their_share(s, v, virtual_len, real_len);
                if at < pairs {
                    let got = s.spec_real_idx(v, virtual_len, real_len) / 2;
                    assert(at * side == at * pairs + at) by (nonlinear_arith)
                        requires
                            side == pairs + 1,
                    ;
                    assert(got == at) by (nonlinear_arith)
                        requires
                            got * pairs <= at * pairs + at < (got + 1) * pairs,
                            0 <= at < pairs,
                    ;
                }
                v
            }
        },
    }
}

/// Which stacks a bidirectional schedule can run. A cyclic one needs a real layer for
/// every direction that the stack runs, a stretched one also products that fit the
/// machine integers, and a custom one a map that names a real layer for every
/// virtual one.
pub proof fn a_bidi_schedule_runs_the_stacks_it_can(
    s: BidiSchedule,
    virtual_len: usize,
    real_len: usize,
)
    requires
        virtual_len > 0,
        virtual_len * real_len <= usize::MAX,
    ensures
        s.covers(virtual_len as int, real_len as int) == (match s {
            BidiSchedule::Custom(map) => virtual_len <= map@.len() && forall|v: int|
                0 <= v < virtual_len ==> #[trigger] map@[v] < real_len,
            BidiSchedule::StridedCyclic | BidiSchedule::StridedStretched => real_len >= 1 && (
            real_len >= 2 || virtual_len == 1),
            _ => real_len >= 1,
        }),
{
    let n = virtual_len as int;
    let r = real_len as int;
    assert(s.covers(n, r) ==> s.lands(n - 1, n, r) && s.lands(0, n, r));
    if n >= 2 {
        assert(s.covers(n, r) ==> s.lands(1, n, r));
    }
    match s {
        BidiSchedule::Custom(map) => {
            assert forall|v: int| 0 <= v < n && s.covers(n, r) implies #[trigger] map@[v] < r by {
                assert(s.lands(v, n, r));
            }
        },
        _ => {
            assert forall|v: int|
                0 <= v < n && r >= 1 && (s is SymmetricCyclic || s is SymmetricStretched || r >= 2 || n
                    == 1) implies #[trigger] s.lands(v, n, r) by {
                let side = schedule::strided_len(v, r);
                bidi_schedule_stays_in_range(s, v, n, r);
                assert(v / 2 * r <= n * r && v / 2 * side <= n * r) by (nonlinear_arith)
                    requires
                        0 <= v / 2 <= n,
                        0 <= side <= r,
                ;
            }
        },
    }
}

/// Which horizons resolve against a stack. A mask needs a flag for each virtual layer, and
/// any flags will do. A depth needs a schedule that is no map, and without a schedule a
/// real layer for each virtual one.
pub proof fn a_horizon_resolves_where_it_is_defined(
    h: GradHorizon,
    s: Option<Schedule>,
    virtual_len: int,
    real_len: int,
)
    requires
        s matches Some(s) ==> s.covers(virtual_len, real_len),
    ensures
        h.fits(s, virtual_len, real_len) == (match (h, s) {
            (GradHorizon::Mask(mask), _) => mask@.len() == virtual_len,
            (GradHorizon::Depth(_), Some(Schedule::Custom(_))) => false,
            (GradHorizon::Depth(_), Some(_)) => true,
            (GradHorizon::Depth(_), None) => virtual_len <= real_len,
        }),
{
}

} // verus!
