//! Boundary refinement.
//!
//! The matcher reports a rough span: the first and last query frames of a run
//! of votes. Each edge of it is snapped to the sharpest energy transition in
//! the surrounding audio, so that the reported start and end land on clean cut
//! points. A start snaps to the steepest rise in level, an end to the steepest
//! fall; an edge with no clear transition near it stays where it is.

use vstd::prelude::*;

use crate::audio::{AudioRegion, RegionView};
use crate::time;

verus! {

/// How far to look on either side of a rough boundary.
pub const SEARCH_RADIUS_NS: i64 = 2_000_000_000;

/// Analysis windows in one second of audio.
pub const WINDOWS_PER_SECOND: u32 = 20;

/// Fewest analysis windows that hold a transition worth looking at.
pub const MIN_WINDOWS: usize = 3;

/// Smallest change in level taken for a transition, in millionths of a
/// decibel.
pub const MIN_TRANSITION: i64 = 3_000_000;

/// Which kind of transition to look for.
#[derive(Debug, Clone, Copy, PartialEq, Eq, Structural)]
pub enum Edge {
    /// A rise in level.
    Onset,
    /// A fall in level.
    Offset,
}

/// How strongly the level changes in the wanted direction at the start of
/// window `w`.
pub open spec fn score(levels: Seq<i32>, edge: Edge, w: int) -> int {
    match edge {
        Edge::Onset => levels[w] - levels[w - 1],
        Edge::Offset => levels[w - 1] - levels[w],
    }
}

/// `w` is the first of the strongest transitions from `lo` to `hi`.
pub open spec fn is_strongest(levels: Seq<i32>, edge: Edge, lo: int, hi: int, w: int) -> bool {
    &&& lo <= w <= hi
    &&& forall|v: int|
        lo <= v <= hi ==> #[trigger] score(levels, edge, v) <= score(levels, edge, w)
    &&& forall|v: int| lo <= v < w ==> #[trigger] score(levels, edge, v) < score(levels, edge, w)
}

/// The first window within `radius` of `center` that has one before it.
pub open spec fn reach_start(center: int, radius: int) -> int {
    if center - radius > 1 {
        center - radius
    } else {
        1
    }
}

/// The last window within `radius` of `center`.
pub open spec fn reach_end(levels: Seq<i32>, center: int, radius: int) -> int {
    if center + radius < levels.len() - 1 {
        center + radius
    } else {
        levels.len() - 1
    }
}

/// The window at which the strongest transition within `radius` windows of
/// `center` stands. There is none where fewer than two windows are in reach,
/// or where the strongest is below [`MIN_TRANSITION`].
pub open spec fn best_transition(
    levels: Seq<i32>,
    center: int,
    radius: int,
    edge: Edge,
) -> Option<int> {
    let lo = reach_start(center, radius);
    let hi = reach_end(levels, center, radius);
    let w = choose|w: int| is_strongest(levels, edge, lo, hi, w);
    if lo < hi && score(levels, edge, w) >= MIN_TRANSITION {
        Some(w)
    } else {
        None
    }
}

/// Two windows that are both first among the strongest are one.
proof fn lemma_strongest_is_unique(
    levels: Seq<i32>,
    edge: Edge,
    lo: int,
    hi: int,
    v: int,
    w: int,
)
    requires
        is_strongest(levels, edge, lo, hi, v),
        is_strongest(levels, edge, lo, hi, w),
    ensures
        v == w,
{
    assert(score(levels, edge, v) <= score(levels, edge, w));
    assert(score(levels, edge, w) <= score(levels, edge, v));
}

/// Finds the strongest transition of the wanted kind near a window.
pub fn find_best_transition(levels: &[i32], center: i128, radius: i128, edge: Edge) -> (best:
    Option<usize>)
    requires
        i128::MIN <= center - radius <= i128::MAX,
        i128::MIN <= center + radius <= i128::MAX,
    ensures
        match best {
            Some(w) => best_transition(levels@, center as int, radius as int, edge) == Some(
                w as int,
            ),
            None => best_transition(levels@, center as int, radius as int, edge) is None,
        },
{
    let lo: i128 = if center - radius > 1 {
        center - radius
    } else {
        1
    };
    let last: i128 = levels.len() as i128 - 1;
    let hi: i128 = if center + radius < last {
        center + radius
    } else {
        last
    };
    if lo >= hi {
        return None;
    }
    let mut best: i128 = lo;
    let mut best_score: i64 = level_change(levels, edge, lo as usize);
    let mut w: i128 = lo + 1;
    while w <= hi
        invariant
            1 <= lo <= best < w <= hi + 1,
            hi < levels@.len() <= usize::MAX,
            best_score == score(levels@, edge, best as int),
            forall|v: int| lo <= v < w ==> #[trigger] score(levels@, edge, v) <= best_score,
            forall|v: int| lo <= v < best ==> #[trigger] score(levels@, edge, v) < best_score,
        decreases hi + 1 - w,
    {
        let change: i64 = level_change(levels, edge, w as usize);
        if change > best_score {
            best_score = change;
            best = w;
        }
        w = w + 1;
    }
    proof {
        assert(is_strongest(levels@, edge, lo as int, hi as int, best as int));
        let chosen = choose|w: int| is_strongest(levels@, edge, lo as int, hi as int, w);
        lemma_strongest_is_unique(levels@, edge, lo as int, hi as int, chosen, best as int);
    }
    if best_score >= MIN_TRANSITION {
        Some(best as usize)
    } else {
        None
    }
}

/// Computes [`score`].
fn level_change(levels: &[i32], edge: Edge, w: usize) -> (change: i64)
    requires
        1 <= w < levels@.len(),
    ensures
        change == score(levels@, edge, w as int),
{
    match edge {
        Edge::Onset => levels[w] as i64 - levels[w - 1] as i64,
        Edge::Offset => levels[w - 1] as i64 - levels[w] as i64,
    }
}

/// Samples in one analysis window: a twentieth of a second, and at least one.
pub open spec fn window_samples(sample_rate: int) -> int {
    if sample_rate < WINDOWS_PER_SECOND {
        1
    } else {
        sample_rate / (WINDOWS_PER_SECOND as int)
    }
}

/// Computes [`window_samples`].
pub fn rms_window(sample_rate: u32) -> (samples: u32)
    ensures
        samples == window_samples(sample_rate as int),
        samples >= 1,
{
    if sample_rate < WINDOWS_PER_SECOND {
        1
    } else {
        sample_rate / WINDOWS_PER_SECOND
    }
}

/// The search radius in windows, rounded up.
pub open spec fn radius_windows(sample_rate: int) -> int {
    let window = window_samples(sample_rate);
    (2 * sample_rate + window - 1) / window
}

/// The window nearest to a point in time.
pub open spec fn window_at(region: RegionView, t: int) -> int {
    time::rounded(
        (t - region.offset_ns) * region.sample_rate,
        window_samples(region.sample_rate) * 1_000_000_000,
    )
}

/// The middle of a window.
pub open spec fn window_time(region: RegionView, w: int) -> int {
    time::clamped(
        region.offset_ns + ((2 * w + 1) * window_samples(region.sample_rate) * 1_000_000_000) / (2
            * region.sample_rate),
    )
}

/// `x` held between `lo` and `hi`.
pub open spec fn between(x: int, lo: int, hi: int) -> int {
    if x < lo {
        lo
    } else if x > hi {
        hi
    } else {
        x
    }
}

/// Where an edge snaps to: the middle of the window of the best transition
/// near it, or its own place.
pub open spec fn snapped(region: RegionView, rough: int, edge: Edge) -> int {
    match best_transition(
        region.levels,
        window_at(region, rough),
        radius_windows(region.sample_rate),
        edge,
    ) {
        Some(w) => window_time(region, w),
        None => rough,
    }
}

/// Whether a region holds enough audio to look for transitions.
pub open spec fn can_refine(region: RegionView) -> bool {
    region.sample_rate > 0 && region.levels.len() >= MIN_WINDOWS
}

/// The refined span of a rough one. The start stays inside the region and
/// does not pass the rough end; the end stays between the refined start and
/// the search radius past the rough end.
pub open spec fn refined(region: RegionView, rough_start: int, rough_end: int) -> (int, int) {
    if !can_refine(region) {
        (rough_start, rough_end)
    } else {
        let start = between(
            snapped(region, rough_start, Edge::Onset),
            region.offset_ns,
            rough_end,
        );
        let end = between(
            snapped(region, rough_end, Edge::Offset),
            start,
            time::clamped(rough_end + SEARCH_RADIUS_NS),
        );
        (start, end)
    }
}

/// Computes [`window_at`].
fn nearest_window(region: &AudioRegion, t: i64) -> (w: i128)
    requires
        region.sample_rate > 0,
    ensures
        w == window_at(region@, t as int),
        -0x2_0000_0000_0000_0000_0000_0000_0000 <= w <= 0x2_0000_0000_0000_0000_0000_0000_0000,
{
    let distance: i128 = t as i128 - region.offset_ns as i128;
    let rate: i128 = region.sample_rate as i128;
    proof {
        let x = distance as int;
        let r = rate as int;
        assert(-0x1_0000_0000_0000_0000_0000_0000 <= x * r <= 0x1_0000_0000_0000_0000_0000_0000)
            by (nonlinear_arith)
            requires
                -0x1_0000_0000_0000_0000 <= x <= 0x1_0000_0000_0000_0000,
                0 <= r <= 0x1_0000_0000,
        ;
    }
    let window: i128 = rms_window(region.sample_rate) as i128;
    time::round_div(distance * rate, window * 1_000_000_000)
}

/// Computes [`window_time`].
fn window_middle(region: &AudioRegion, w: usize) -> (t: i64)
    requires
        region.sample_rate > 0,
    ensures
        t == window_time(region@, w as int),
{
    let window: i128 = rms_window(region.sample_rate) as i128;
    let halves: i128 = 2 * (w as i128) + 1;
    proof {
        let h = halves as int;
        let s = window as int;
        assert(0 <= h * s <= 0x2000_0000_0000_0000_0000_0000) by (nonlinear_arith)
            requires
                0 <= h <= 0x2_0000_0000_0000_0000,
                0 <= s <= 0x1000_0000,
        ;
    }
    let span: i128 = halves * window * 1_000_000_000;
    let rate: i128 = region.sample_rate as i128;
    let from_start: i128 = span / (2 * rate);
    proof {
        let s = span as int;
        let d = 2 * rate as int;
        assert(0 <= s / d <= s) by (nonlinear_arith)
            requires
                s >= 0,
                d >= 1,
        ;
    }
    time::clamp(region.offset_ns as i128 + from_start)
}

/// Computes [`snapped`].
fn snap(region: &AudioRegion, rough: i64, edge: Edge) -> (t: i64)
    requires
        region.sample_rate > 0,
    ensures
        t == snapped(region@, rough as int, edge),
{
    let window: i128 = rms_window(region.sample_rate) as i128;
    let rate: i128 = region.sample_rate as i128;
    let radius: i128 = (2 * rate + window - 1) / window;
    proof {
        let a = 2 * rate as int + window as int - 1;
        let b = window as int;
        assert(0 <= a / b <= a) by (nonlinear_arith)
            requires
                a >= 0,
                b >= 1,
        ;
    }
    let center: i128 = nearest_window(region, rough);
    match find_best_transition(region.levels.as_slice(), center, radius, edge) {
        Some(w) => window_middle(region, w),
        None => rough,
    }
}

/// Computes [`between`].
fn hold_between(x: i64, lo: i64, hi: i64) -> (held: i64)
    ensures
        held == between(x as int, lo as int, hi as int),
{
    if x < lo {
        lo
    } else if x > hi {
        hi
    } else {
        x
    }
}

/// Refines the bounds of a matched span by snapping its start to the
/// strongest rise in level near it and its end to the strongest fall.
///
/// The bounds are points in time within the source file; the region's offset
/// says where its audio begins.
pub fn refine(region: &AudioRegion, rough_start: i64, rough_end: i64) -> (span: (i64, i64))
    requires
        can_refine(region@) ==> region.offset_ns <= rough_end,
    ensures
        (span.0 as int, span.1 as int) == refined(region@, rough_start as int, rough_end as int),
{
    if region.sample_rate == 0 || region.levels.len() < MIN_WINDOWS {
        return (rough_start, rough_end);
    }
    let start: i64 = hold_between(
        snap(region, rough_start, Edge::Onset),
        region.offset_ns,
        rough_end,
    );
    let latest: i64 = time::clamp(rough_end as i128 + SEARCH_RADIUS_NS as i128);
    let end: i64 = hold_between(snap(region, rough_end, Edge::Offset), start, latest);
    (start, end)
}

/// A refined span is in order, begins inside the region and no later than the
/// rough end, and ends at most the search radius past the rough end.
pub proof fn law_refined_span_is_ordered(region: RegionView, rough_start: i64, rough_end: i64)
    requires
        can_refine(region),
        region.offset_ns <= rough_end,
    ensures
        ({
            let (start, end) = refined(region, rough_start as int, rough_end as int);
            &&& region.offset_ns <= start <= rough_end
            &&& start <= end <= rough_end + SEARCH_RADIUS_NS
        }),
{
}

/// Where no two neighbouring windows differ by [`MIN_TRANSITION`], a span
/// inside the region is left as it is.
pub proof fn law_even_levels_leave_the_span(region: RegionView, rough_start: i64, rough_end: i64)
    requires
        region.offset_ns <= rough_start <= rough_end,
        forall|w: int|
            1 <= w < region.levels.len() ==> -MIN_TRANSITION < #[trigger] region.levels[w]
                - region.levels[w - 1] < MIN_TRANSITION,
    ensures
        refined(region, rough_start as int, rough_end as int) == (
            rough_start as int,
            rough_end as int,
        ),
{
    if can_refine(region) {
        lemma_no_transition(region, rough_start as int, Edge::Onset);
        lemma_no_transition(region, rough_end as int, Edge::Offset);
    }
}

/// Without a transition in the region an edge stays in place.
proof fn lemma_no_transition(region: RegionView, rough: int, edge: Edge)
    requires
        forall|w: int|
            1 <= w < region.levels.len() ==> -MIN_TRANSITION < #[trigger] region.levels[w]
                - region.levels[w - 1] < MIN_TRANSITION,
    ensures
        snapped(region, rough, edge) == rough,
{
    let center = window_at(region, rough);
    let radius = radius_windows(region.sample_rate);
    let lo = reach_start(center, radius);
    let hi = reach_end(region.levels, center, radius);
    if lo < hi {
        lemma_strongest_exists(region.levels, edge, lo, hi);
        let w = choose|w: int| is_strongest(region.levels, edge, lo, hi, w);
        assert(region.levels[w] - region.levels[w - 1] < MIN_TRANSITION);
    }
}

/// Some window of a range that is not empty has the strongest transition.
proof fn lemma_strongest_exists(levels: Seq<i32>, edge: Edge, lo: int, hi: int)
    requires
        lo <= hi,
    ensures
        exists|w: int| is_strongest(levels, edge, lo, hi, w),
    decreases hi - lo,
{
    if lo == hi {
        assert(is_strongest(levels, edge, lo, hi, lo));
    } else {
        let end = hi - 1;
        lemma_strongest_exists(levels, edge, lo, end);
        let w = choose|w: int| is_strongest(levels, edge, lo, end, w);
        if score(levels, edge, hi) > score(levels, edge, w) {
            assert(is_strongest(levels, edge, lo, hi, hi));
        } else {
            assert(is_strongest(levels, edge, lo, hi, w));
        }
    }
}

/// Snapping moves an edge by no more than the search radius, two analysis
/// windows and a nanosecond. (Both sides are multiplied by the sample rate, to
/// state the length of a window exactly.)
pub proof fn law_edge_moves_within_reach(region: RegionView, rough: i64, edge: Edge)
    requires
        can_refine(region),
    ensures
        ({
            let moved = snapped(region, rough as int, edge) - rough;
            let reach = SEARCH_RADIUS_NS * region.sample_rate + 2 * window_samples(
                region.sample_rate,
            ) * 1_000_000_000 + region.sample_rate;
            -reach <= moved * region.sample_rate <= reach
        }),
{
    let r = region.sample_rate;
    let s = window_samples(r);
    let t = rough as int;
    let center = window_at(region, t);
    let radius = radius_windows(r);
    let found = best_transition(region.levels, center, radius, edge);
    if found is Some {
        let w = found->0;
        let lo = reach_start(center, radius);
        let hi = reach_end(region.levels, center, radius);
        lemma_strongest_exists(region.levels, edge, lo, hi);
        assert(center - radius <= w <= center + radius);
        let n = 1_000_000_000int;
        let d = t - region.offset_ns;
        time::lemma_rounded(d * r, s * n);
        let a = (2 * w + 1) * s * n;
        let m = a / (2 * r);
        lemma_ceiling(2 * r, s);
        lemma_reach(d, r, s, n, center, radius, w, m);
        let raw = region.offset_ns + m;
        let reach = 2 * n * r + 2 * s * n + r;
        assert(-reach <= (raw - t) * r <= reach);
        let moved = time::clamped(raw) - t;
        lemma_clamping_moves_closer(raw - t, moved, r, reach);
    } else {
        assert(0 * r == 0);
    }
}

/// A quotient rounded up overshoots by less than the divisor.
proof fn lemma_ceiling(n: int, d: int)
    requires
        d > 0,
        n >= 0,
    ensures
        0 <= ((n + d - 1) / d) * d <= n + d,
{
    let q = (n + d - 1) / d;
    assert(0 <= q * d <= n + d) by (nonlinear_arith)
        requires
            d > 0,
            n >= 0,
            q == (n + d - 1) / d,
    ;
}

/// How far the middle of a window near `center` lies from the point that
/// `center` stands for.
proof fn lemma_reach(d: int, r: int, s: int, n: int, center: int, radius: int, w: int, m: int)
    requires
        r > 0,
        s > 0,
        n > 0,
        -(s * n) <= 2 * (center * (s * n) - d * r) <= s * n,
        0 <= radius * s <= 2 * r + s,
        center - radius <= w <= center + radius,
        m == ((2 * w + 1) * s * n) / (2 * r),
    ensures
        ({
            let reach = 2 * n * r + 2 * s * n + r;
            -reach <= (m - d) * r <= reach
        }),
{
    let sn = s * n;
    let a = (2 * w + 1) * s * n;
    assert(a == 2 * (w * sn) + sn) by (nonlinear_arith)
        requires
            a == (2 * w + 1) * s * n,
            sn == s * n,
    ;
    assert(2 * r * m <= a < 2 * r * m + 2 * r) by (nonlinear_arith)
        requires
            m == a / (2 * r),
            r > 0,
    ;
    let k = w - center;
    assert(-(radius * sn) <= k * sn <= radius * sn) by (nonlinear_arith)
        requires
            -radius <= k <= radius,
            sn >= 0,
    ;
    assert(radius * sn <= 2 * r * n + sn) by (nonlinear_arith)
        requires
            sn == s * n,
            n > 0,
            radius * s <= 2 * r + s,
    ;
    assert(w * sn == k * sn + center * sn) by (nonlinear_arith)
        requires
            k == w - center,
    ;
    assert((m - d) * r == m * r - d * r) by (nonlinear_arith);
    assert(2 * r * m == 2 * (m * r)) by (nonlinear_arith);
    assert(2 * r * n == 2 * n * r) by (nonlinear_arith);
    assert(2 * s * n == 2 * sn) by (nonlinear_arith)
        requires
            sn == s * n,
    ;
}

/// A smaller move of the same kind keeps within reach.
proof fn lemma_clamping_moves_closer(raw: int, moved: int, r: int, reach: int)
    requires
        r > 0,
        -reach <= raw * r <= reach,
        (0 <= moved <= raw) || (raw <= moved <= 0),
    ensures
        -reach <= moved * r <= reach,
{
    assert(-reach <= moved * r <= reach) by (nonlinear_arith)
        requires
            r > 0,
            -reach <= raw * r <= reach,
            (0 <= moved <= raw) || (raw <= moved <= 0),
    ;
}

/// How far the level rises (or, for an end, falls) from the window before `w`
/// to `w`.
pub open spec fn change_at(levels: Seq<i32>, edge: Edge, w: int) -> int {
    if edge is Onset {
        levels[w] - levels[w - 1]
    } else {
        levels[w - 1] - levels[w]
    }
}

/// Windows are a twentieth of a second long, and at least one sample: `samples`
/// is the number of samples in one.
pub open spec fn is_window_length(sample_rate: int, samples: int) -> bool {
    samples == (if sample_rate < 20 {
        1
    } else {
        sample_rate / 20
    })
}

/// `c` is the number of windows, to the nearest, from the beginning of a region
/// to a point in time; halves count away from the beginning.
pub open spec fn is_nearest(region: RegionView, t: int, samples: int, c: int) -> bool {
    let span = samples * 1_000_000_000;
    let distance = (t - region.offset_ns) * region.sample_rate;
    &&& -span <= 2 * (c * span - distance) <= span
    &&& 2 * (c * span - distance) == -span ==> distance < 0
    &&& 2 * (c * span - distance) == span ==> distance >= 0
}

/// `reach` is the number of windows that two seconds take, rounded up.
pub open spec fn is_reach(sample_rate: int, samples: int, reach: int) -> bool {
    (reach - 1) * samples < 2 * sample_rate <= reach * samples
}

/// Window `w` has one before it, and lies within reach of `c`.
pub open spec fn in_search(levels: Seq<i32>, c: int, reach: int, w: int) -> bool {
    1 <= w < levels.len() && c - reach <= w <= c + reach
}

/// The middle of window `w` of a region.
pub open spec fn middle_of(region: RegionView, samples: int, w: int) -> int {
    region.offset_ns + ((2 * w + 1) * samples * 1_000_000_000) / (2 * region.sample_rate)
}

/// A quotient is known by its bounds.
proof fn lemma_quotient_is(n: int, d: int, q: int)
    requires
        d > 0,
        q * d <= n < (q + 1) * d,
    ensures
        n / d == q,
{
    let p = n / d;
    assert(p * d <= n < (p + 1) * d) by (nonlinear_arith)
        requires
            d > 0,
            p == n / d,
    ;
    assert(p == q) by (nonlinear_arith)
        requires
            d > 0,
            p * d <= n < (p + 1) * d,
            q * d <= n < (q + 1) * d,
    ;
}

/// The search goes around the nearest window, as far as two seconds take.
proof fn lemma_search(region: RegionView, t: int, samples: int, c: int, reach: int)
    requires
        region.sample_rate > 0,
        is_window_length(region.sample_rate, samples),
        is_nearest(region, t, samples, c),
        is_reach(region.sample_rate, samples, reach),
    ensures
        samples >= 1,
        window_samples(region.sample_rate) == samples,
        window_at(region, t) == c,
        radius_windows(region.sample_rate) == reach,
{
    let n = (t - region.offset_ns) * region.sample_rate;
    let d = samples * 1_000_000_000;
    assert((c + 1) * (2 * d) == 2 * (c * d) + 2 * d && c * (2 * d) == 2 * (c * d))
        by (nonlinear_arith);
    if n >= 0 {
        lemma_quotient_is(2 * n + d, 2 * d, c);
    } else {
        let m = -c;
        assert(m * (2 * d) == -(2 * (c * d)) && (m + 1) * (2 * d) == 2 * d - 2 * (c * d))
            by (nonlinear_arith)
            requires
                m == -c,
        ;
        lemma_quotient_is(2 * (-n) + d, 2 * d, m);
    }
    let r = 2 * region.sample_rate + samples - 1;
    assert((reach - 1) * samples == reach * samples - samples && (reach + 1) * samples == reach
        * samples + samples) by (nonlinear_arith);
    lemma_quotient_is(r, samples, reach);
}

/// An edge snaps to the transition that is there: to the middle of the window of
/// the strongest change of the wanted kind within two seconds of it, the first of
/// several, where that change is at least three decibels and there is more than
/// one window to choose from. Where the region begins does not matter.
pub proof fn law_edge_snaps_to_the_strongest_change(
    region: RegionView,
    rough: i64,
    edge: Edge,
    samples: int,
    c: int,
    reach: int,
    w: int,
    other: int,
)
    requires
        region.sample_rate > 0,
        is_window_length(region.sample_rate, samples),
        is_nearest(region, rough as int, samples, c),
        is_reach(region.sample_rate, samples, reach),
        in_search(region.levels, c, reach, w),
        in_search(region.levels, c, reach, other),
        other != w,
        forall|v: int| #[trigger]
            in_search(region.levels, c, reach, v) ==> change_at(region.levels, edge, v)
                <= change_at(region.levels, edge, w),
        forall|v: int| #[trigger]
            in_search(region.levels, c, reach, v) && v < w ==> change_at(region.levels, edge, v)
                < change_at(region.levels, edge, w),
        change_at(region.levels, edge, w) >= 3_000_000,
        i64::MIN <= middle_of(region, samples, w) <= i64::MAX,
    ensures
        snapped(region, rough as int, edge) == middle_of(region, samples, w),
{
    lemma_search(region, rough as int, samples, c, reach);
    let lo = reach_start(c, reach);
    let hi = reach_end(region.levels, c, reach);
    assert forall|v: int| lo <= v <= hi implies in_search(region.levels, c, reach, v) by {}
    assert forall|v: int| lo <= v <= hi implies #[trigger] score(region.levels, edge, v)
        == change_at(region.levels, edge, v) && score(region.levels, edge, v) <= score(
        region.levels,
        edge,
        w,
    ) by {
        assert(in_search(region.levels, c, reach, v));
    }
    assert forall|v: int| lo <= v < w implies #[trigger] score(region.levels, edge, v) < score(
        region.levels,
        edge,
        w,
    ) by {
        assert(in_search(region.levels, c, reach, v));
    }
    assert(is_strongest(region.levels, edge, lo, hi, w));
    let u = choose|u: int| is_strongest(region.levels, edge, lo, hi, u);
    lemma_strongest_is_unique(region.levels, edge, lo, hi, u, w);
}

/// An edge stays where it is if no change of the wanted kind within two seconds
/// of it is at least three decibels.
pub proof fn law_edge_without_a_change_stays(
    region: RegionView,
    rough: i64,
    edge: Edge,
    samples: int,
    c: int,
    reach: int,
)
    requires
        region.sample_rate > 0,
        is_window_length(region.sample_rate, samples),
        is_nearest(region, rough as int, samples, c),
        is_reach(region.sample_rate, samples, reach),
        forall|v: int| #[trigger]
            in_search(region.levels, c, reach, v) ==> change_at(region.levels, edge, v)
                < 3_000_000,
    ensures
        snapped(region, rough as int, edge) == rough,
{
    lemma_search(region, rough as int, samples, c, reach);
    let lo = reach_start(c, reach);
    let hi = reach_end(region.levels, c, reach);
    if lo < hi {
        lemma_strongest_exists(region.levels, edge, lo, hi);
        let u = choose|u: int| is_strongest(region.levels, edge, lo, hi, u);
        assert(in_search(region.levels, c, reach, u));
    }
}

/// A span is refined edge by edge: the start is where it snaps to, but not before
/// the region and not after the rough end; the end is where it snaps to, but not
/// before the start and at most two seconds after the rough end. A region of
/// fewer than three windows leaves the span as it is.
pub proof fn law_span_is_refined_edge_by_edge(
    region: RegionView,
    rough_start: i64,
    rough_end: i64,
)
    requires
        region.offset_ns <= rough_end <= i64::MAX - 2_000_000_000,
    ensures
        ({
            let (start, end) = refined(region, rough_start as int, rough_end as int);
            if region.sample_rate > 0 && region.levels.len() >= 3 {
                let s = snapped(region, rough_start as int, Edge::Onset);
                let e = snapped(region, rough_end as int, Edge::Offset);
                &&& region.offset_ns <= s <= rough_end ==> start == s
                &&& s < region.offset_ns ==> start == region.offset_ns
                &&& s > rough_end ==> start == rough_end
                &&& start <= e <= rough_end + 2_000_000_000 ==> end == e
                &&& e < start ==> end == start
                &&& e > rough_end + 2_000_000_000 ==> end == rough_end + 2_000_000_000
            } else {
                start == rough_start && end == rough_end
            }
        }),
{
}

/// The same region, `k` nanoseconds later in its file.
pub open spec fn moved_region(region: RegionView, k: int) -> RegionView {
    RegionView { offset_ns: region.offset_ns + k, ..region }
}

/// Times in the file and times in the region go together: where the region and
/// the rough span lie `k` nanoseconds later, so does the refined span.
pub proof fn law_refined_span_moves_with_the_region(
    region: RegionView,
    rough_start: i64,
    rough_end: i64,
    k: int,
)
    requires
        region.sample_rate >= 0,
        i64::MIN <= rough_start + k <= i64::MAX,
        rough_end <= i64::MAX - 2_000_000_000,
        i64::MIN <= rough_end + k <= i64::MAX - 2_000_000_000,
        forall|w: int|
            0 <= w < region.levels.len() ==> i64::MIN <= #[trigger] middle_of(
                region,
                window_samples(region.sample_rate),
                w,
            ) <= i64::MAX && i64::MIN <= middle_of(
                region,
                window_samples(region.sample_rate),
                w,
            ) + k <= i64::MAX,
    ensures
        refined(moved_region(region, k), rough_start + k, rough_end + k) == (
            refined(region, rough_start as int, rough_end as int).0 + k,
            refined(region, rough_start as int, rough_end as int).1 + k,
        ),
{
    let there = moved_region(region, k);
    if can_refine(region) {
        lemma_snap_moves(region, rough_start as int, Edge::Onset, k);
        lemma_snap_moves(region, rough_end as int, Edge::Offset, k);
    }
}

/// As [`law_refined_span_moves_with_the_region`], for one edge.
proof fn lemma_snap_moves(region: RegionView, rough: int, edge: Edge, k: int)
    requires
        region.sample_rate > 0,
        forall|w: int|
            0 <= w < region.levels.len() ==> i64::MIN <= #[trigger] middle_of(
                region,
                window_samples(region.sample_rate),
                w,
            ) <= i64::MAX && i64::MIN <= middle_of(
                region,
                window_samples(region.sample_rate),
                w,
            ) + k <= i64::MAX,
    ensures
        snapped(moved_region(region, k), rough + k, edge) == snapped(region, rough, edge) + k,
{
    let there = moved_region(region, k);
    assert((rough + k) - there.offset_ns == rough - region.offset_ns);
    let center = window_at(region, rough);
    assert(window_at(there, rough + k) == center);
    let radius = radius_windows(region.sample_rate);
    let found = best_transition(region.levels, center, radius, edge);
    if found is Some {
        let w = found->0;
        let lo = reach_start(center, radius);
        let hi = reach_end(region.levels, center, radius);
        lemma_strongest_exists(region.levels, edge, lo, hi);
        assert(0 <= w < region.levels.len());
        let m = middle_of(region, window_samples(region.sample_rate), w);
        assert(i64::MIN <= m <= i64::MAX);
    }
}

/// An edge stays where it is if fewer than two windows are within reach of it:
/// there is nothing to choose from.
pub proof fn law_edge_without_a_choice_stays(
    region: RegionView,
    rough: i64,
    edge: Edge,
    samples: int,
    c: int,
    reach: int,
)
    requires
        region.sample_rate > 0,
        is_window_length(region.sample_rate, samples),
        is_nearest(region, rough as int, samples, c),
        is_reach(region.sample_rate, samples, reach),
        forall|v: int, w: int|
            #![trigger in_search(region.levels, c, reach, v), in_search(region.levels, c, reach, w)]
            in_search(region.levels, c, reach, v) && in_search(region.levels, c, reach, w)
                ==> v == w,
    ensures
        snapped(region, rough as int, edge) == rough,
{
    lemma_search(region, rough as int, samples, c, reach);
    let lo = reach_start(c, reach);
    let hi = reach_end(region.levels, c, reach);
    if lo < hi {
        assert(in_search(region.levels, c, reach, lo) && in_search(region.levels, c, reach, hi));
    }
}

} // verus!
