//! A query that is moved in time is matched at the place it was moved to.

use vstd::prelude::*;
use vstd::relations::sorted_by;

use super::alignment;
use super::order;
use super::run;
use super::voting;
use super::MatchResult;
use crate::fingerprint::constellation::FingerprintView;
use crate::fingerprint::FpHash;
use crate::{time, Config};

verus! {

/// Frames that lie `k` later.
pub open spec fn moved_frames(frames: Seq<u32>, k: int) -> Seq<u32> {
    frames.map_values(|f: u32| (f + k) as u32)
}

/// A query whose hashes all lie `k` frames later.
pub open spec fn moved_query(query: FingerprintView, k: int) -> FingerprintView {
    FingerprintView {
        hashes: query.hashes.map_values(
            |h: FpHash| FpHash { hash: h.hash, frame: (h.frame + k) as u32 },
        ),
        ..query
    }
}

/// All frames stay within half the frame range, moved or not.
pub open spec fn frames_fit(frames: Seq<u32>, k: int) -> bool {
    forall|i: int|
        0 <= i < frames.len() ==> (#[trigger] frames[i]) <= i32::MAX && 0 <= frames[i] + k
            <= i32::MAX
}

/// All frames of a query stay within half the frame range, moved or not.
pub open spec fn query_fits(query: FingerprintView, k: int) -> bool {
    forall|i: int|
        0 <= i < query.hashes.len() ==> (#[trigger] query.hashes[i]).frame <= i32::MAX && 0
            <= query.hashes[i].frame + k <= i32::MAX
}

/// `k` frames of a query last a whole number of nanoseconds, and no time within
/// half the frame range has to be held at a bound.
pub open spec fn times_fit(query: FingerprintView, k: int) -> bool {
    &&& query.sample_rate > 0
    &&& (k * query.frame_samples * time::NANOS_PER_SECOND) % query.sample_rate == 0
    &&& forall|frame: u32|
        frame <= i32::MAX ==> #[trigger] query.frame_time(frame) == query.time_offset_ns
            + query.frame_nanos(frame as int)
}

/// All frames of a reference lie within half the frame range.
pub open spec fn reference_fits(reference: Map<u32, u32>) -> bool {
    forall|hash: u32| #[trigger] reference.contains_key(hash) ==> reference[hash] <= i32::MAX
}

/// A match that lies `k` frames later.
pub open spec fn moved_match(m: MatchResult, query: FingerprintView, k: int) -> MatchResult {
    MatchResult {
        start_ns: (m.start_ns + query.frame_nanos(k)) as i64,
        end_ns: (m.end_ns + query.frame_nanos(k)) as i64,
        confidence: m.confidence,
        offset_frames: (m.offset_frames + k) as i32,
    }
}

/// Moving the query moves the votes by as much.
proof fn lemma_votes_move(reference: Map<u32, u32>, query: FingerprintView, k: int, delta: int)
    requires
        query_fits(query, k),
        reference_fits(reference),
    ensures
        voting::voters(reference, moved_query(query, k).hashes, delta + k) == voting::voters(
            reference,
            query.hashes,
            delta,
        ),
{
    let there = moved_query(query, k).hashes;
    let here = query.hashes;
    assert forall|i: int| 0 <= i < here.len() implies voting::votes_for(
        reference,
        #[trigger] there[i],
        delta + k,
    ) == voting::votes_for(reference, here[i], delta) by {
        if reference.contains_key(here[i].hash) {
            assert(reference[here[i].hash] <= i32::MAX);
        }
    }
    let a = voting::voters(reference, there, delta + k);
    let b = voting::voters(reference, here, delta);
    assert forall|hash: u32| #[trigger] a.contains(hash) == b.contains(hash) by {
        if a.contains(hash) {
            let i = choose|i: int|
                0 <= i < there.len() && (#[trigger] there[i]).hash == hash && voting::votes_for(
                    reference,
                    there[i],
                    delta + k,
                );
            assert(here[i].hash == hash);
        }
        if b.contains(hash) {
            let i = choose|i: int|
                0 <= i < here.len() && (#[trigger] here[i]).hash == hash && voting::votes_for(
                    reference,
                    here[i],
                    delta,
                );
            assert(there[i].hash == hash);
        }
    }
    assert(a =~= b);
}

/// Moving the query moves the frames that vote.
proof fn lemma_voting_frames_move(
    reference: Map<u32, u32>,
    query: FingerprintView,
    k: int,
    delta: int,
)
    requires
        query_fits(query, k),
        reference_fits(reference),
    ensures
        voting::voting_frames(reference, moved_query(query, k).hashes, delta + k)
            == moved_frames(voting::voting_frames(reference, query.hashes, delta), k),
        frames_fit(voting::voting_frames(reference, query.hashes, delta), k),
    decreases query.hashes.len(),
{
    let there = moved_query(query, k).hashes;
    let here = query.hashes;
    if here.len() == 0 {
        assert(voting::voting_frames(reference, there, delta + k) =~= moved_frames(
            voting::voting_frames(reference, here, delta),
            k,
        ));
    } else {
        let less = FingerprintView { hashes: here.drop_last(), ..query };
        assert forall|i: int| 0 <= i < less.hashes.len() implies (#[trigger] less.hashes[i]).frame
            <= i32::MAX && 0 <= less.hashes[i].frame + k <= i32::MAX by {
            assert(less.hashes[i] == here[i]);
        }
        lemma_voting_frames_move(reference, less, k, delta);
        assert(moved_query(less, k).hashes =~= there.drop_last());
        let last = here.last();
        assert(here[here.len() - 1] == last);
        assert(there.last() == (FpHash { hash: last.hash, frame: (last.frame + k) as u32 }));
        if reference.contains_key(last.hash) {
            assert(reference[last.hash] <= i32::MAX);
        }
        let rest = voting::voting_frames(reference, here.drop_last(), delta);
        assert(moved_frames(rest.push(last.frame), k) =~= moved_frames(rest, k).push(
            (last.frame + k) as u32,
        ));
    }
}

/// Lists with the same frames still have the same ones after a move.
proof fn lemma_moved_multisets(one: Seq<u32>, other: Seq<u32>, k: int)
    requires
        one.to_multiset() == other.to_multiset(),
    ensures
        moved_frames(one, k).to_multiset() == moved_frames(other, k).to_multiset(),
    decreases one.len(),
{
    broadcast use vstd::seq_lib::group_to_multiset_ensures;

    if one.len() == 0 {
        assert(other.to_multiset().len() == 0);
        assert(one =~= other);
    } else {
        let n = one.len() - 1;
        let a = one[n];
        assert(one.contains(a));
        assert(other.to_multiset().count(a) > 0);
        assert(other.contains(a));
        let i = choose|i: int| 0 <= i < other.len() && other[i] == a;
        let (fewer, rest) = (one.remove(n), other.remove(i));
        assert(fewer.to_multiset() =~= rest.to_multiset());
        lemma_moved_multisets(fewer, rest, k);
        let (x, y) = (moved_frames(one, k), moved_frames(other, k));
        assert(x.remove(n) =~= moved_frames(fewer, k));
        assert(y.remove(i) =~= moved_frames(rest, k));
        assert(x[n] == y[i]);
        assert(x.remove(n).to_multiset() == x.to_multiset().remove(x[n]));
        assert(y.remove(i).to_multiset() == y.to_multiset().remove(y[i]));
        assert(x.to_multiset().count(x[n]) > 0);
        assert(y.to_multiset().count(y[i]) > 0);
        assert(x.to_multiset() =~= x.to_multiset().remove(x[n]).insert(x[n]));
        assert(y.to_multiset() =~= y.to_multiset().remove(y[i]).insert(y[i]));
    }
}

/// Moving frames does not change their order.
proof fn lemma_order_moves(frames: Seq<u32>, k: int)
    requires
        frames_fit(frames, k),
    ensures
        order::in_order(moved_frames(frames, k)) == moved_frames(order::in_order(frames), k),
        frames_fit(order::in_order(frames), k),
{
    broadcast use vstd::seq_lib::group_to_multiset_ensures;

    let sorted = order::in_order(frames);
    order::lemma_in_order(frames);
    assert forall|i: int| 0 <= i < sorted.len() implies (#[trigger] sorted[i]) <= i32::MAX && 0
        <= sorted[i] + k <= i32::MAX by {
        assert(sorted.contains(sorted[i]));
        assert(frames.to_multiset().count(sorted[i]) > 0);
        assert(frames.contains(sorted[i]));
    }
    let moved = moved_frames(sorted, k);
    assert(sorted_by(moved, order::ascending())) by {
        assert forall|i: int, j: int| 0 <= i < j < moved.len() implies #[trigger]
            order::ascending()(moved[i], moved[j]) by {
            assert(sorted[i] <= sorted[j]);
        }
    }
    lemma_moved_multisets(sorted, frames, k);
    order::lemma_in_order_is(moved_frames(frames, k), moved);
}

/// Moving frames moves their longest run.
proof fn lemma_run_moves(frames: Seq<u32>, max_gap: u32, k: int)
    requires
        frames_fit(frames, k),
        frames.len() > 0,
    ensures
        ({
            let (first, last) = run::longest_run_bounds(frames, max_gap);
            let (first_moved, last_moved) = run::longest_run_bounds(
                moved_frames(frames, k),
                max_gap,
            );
            &&& first <= i32::MAX && last <= i32::MAX
            &&& 0 <= first + k <= i32::MAX && 0 <= last + k <= i32::MAX
            &&& first_moved == first + k && last_moved == last + k
        }),
{
    let (i, j) = run::lemma_longest_run_exists(frames, max_gap);
    let moved = moved_frames(frames, k);
    assert forall|a: int, b: int| #[trigger]
        run::is_run(moved, max_gap, a, b) == run::is_run(frames, max_gap, a, b) by {
        if 0 <= a <= b < frames.len() {
            assert forall|n: int| a < n <= b implies (#[trigger] moved[n]) - moved[n - 1]
                == frames[n] - frames[n - 1] by {
                assert(frames[n - 1] + k <= i32::MAX);
            }
            if run::is_run(moved, max_gap, a, b) {
                assert forall|n: int| a < n <= b implies (#[trigger] frames[n]) - frames[n - 1]
                    <= max_gap by {
                    assert(moved[n] - moved[n - 1] <= max_gap);
                }
            }
        }
    }
    assert(run::is_run(frames, max_gap, i, j));
    assert(run::is_longest_run(moved, max_gap, i, j));
    run::lemma_longest_run_is(frames, max_gap, i, j);
    run::lemma_longest_run_is(moved, max_gap, i, j);
}

/// Moving the query moves the mode of its histogram.
proof fn lemma_mode_moves(reference: Map<u32, u32>, query: FingerprintView, k: int)
    requires
        query_fits(query, k),
        reference_fits(reference),
    ensures
        alignment::mode(voting::vote_weight(reference, moved_query(query, k).hashes)) == (
        match alignment::mode(voting::vote_weight(reference, query.hashes)) {
            Some(delta) => Some(delta + k),
            None => None,
        }),
{
    let here = voting::vote_weight(reference, query.hashes);
    let there = voting::vote_weight(reference, moved_query(query, k).hashes);
    assert forall|e: int| #[trigger] there(e) == here(e - k) by {
        lemma_votes_move(reference, query, k, e - k);
    }
    alignment::lemma_mode_moves(here, there, k);
}

/// The same audio, found later: a query whose hashes all lie `k` frames later
/// lines up `k` frames later, with the votes of the same hashes, and the
/// longest run of these votes lies `k` frames later too.
pub proof fn law_alignment_moves_with_the_query(
    reference: Map<u32, u32>,
    query: FingerprintView,
    k: int,
)
    requires
        query_fits(query, k),
        reference_fits(reference),
    ensures
        match alignment::mode(voting::vote_weight(reference, query.hashes)) {
            Some(delta) => {
                let there = moved_query(query, k);
                let (first, last) = super::matched_frames(reference, query, delta);
                let (first_moved, last_moved) = super::matched_frames(reference, there, delta + k);
                &&& alignment::mode(voting::vote_weight(reference, there.hashes)) == Some(delta + k)
                &&& voting::voters(reference, there.hashes, delta + k) == voting::voters(
                    reference,
                    query.hashes,
                    delta,
                )
                &&& first_moved == first + k && last_moved == last + k
                &&& first <= i32::MAX && last <= i32::MAX
                &&& first_moved <= i32::MAX && last_moved <= i32::MAX
            },
            None => alignment::mode(voting::vote_weight(reference, moved_query(query, k).hashes))
                is None,
        },
{
    lemma_mode_moves(reference, query, k);
    let weight = voting::vote_weight(reference, query.hashes);
    if alignment::mode(weight) is Some {
        let delta = alignment::mode(weight)->0;
        assert(alignment::is_mode(weight, delta));
        lemma_votes_move(reference, query, k, delta);
        lemma_voting_frames_move(reference, query, k, delta);
        voting::lemma_voting_frames_nonempty(reference, query.hashes, delta);
        let frames = voting::voting_frames(reference, query.hashes, delta);
        lemma_order_moves(frames, k);
        order::lemma_in_order(frames);
        lemma_run_moves(order::in_order(frames), run::MAX_GAP_FRAMES, k);
    }
}

/// Where `k` frames last a whole number of nanoseconds, the time of a frame
/// moves by exactly as much.
proof fn lemma_time_moves(query: FingerprintView, frame: int, k: int)
    requires
        query.sample_rate > 0,
        (k * query.frame_samples * time::NANOS_PER_SECOND) % query.sample_rate == 0,
    ensures
        query.frame_nanos(frame + k) == query.frame_nanos(frame) + query.frame_nanos(k),
{
    let (samples, rate) = (query.frame_samples, query.sample_rate);
    let whole = k * samples * 1_000_000_000;
    let part = frame * samples * 1_000_000_000;
    assert((frame + k) * samples * 1_000_000_000 == part + whole) by (nonlinear_arith)
        requires
            whole == k * samples * 1_000_000_000,
            part == frame * samples * 1_000_000_000,
    ;
    let q = whole / rate;
    vstd::arithmetic::div_mod::lemma_fundamental_div_mod(whole, rate);
    vstd::arithmetic::div_mod::lemma_hoist_over_denominator(part, q, rate as nat);
    assert(q * rate == rate * q) by (nonlinear_arith);
}

/// A match moves with the query, times included: a query whose hashes all lie
/// `k` frames later matches exactly where the query did, `k` frames later, with
/// the same confidence. Neither match is affected by where in the scan window
/// the theme begins.
pub proof fn law_match_moves_with_the_query(
    reference: Map<u32, u32>,
    query: FingerprintView,
    k: int,
    config: Config,
)
    requires
        query_fits(query, k),
        times_fit(query, k),
        reference_fits(reference),
    ensures
        super::reference_match(reference, moved_query(query, k), config) == (
        match super::reference_match(reference, query, config) {
            Some(m) => Some(moved_match(m, query, k)),
            None => None,
        }),
{
    let there = moved_query(query, k);
    law_alignment_moves_with_the_query(reference, query, k);
    let weight = voting::vote_weight(reference, query.hashes);
    if alignment::mode(weight) is Some {
        let delta = alignment::mode(weight)->0;
        assert(alignment::is_mode(weight, delta));
        let (first, last) = super::matched_frames(reference, query, delta);
        let (first_moved, last_moved) = super::matched_frames(reference, there, delta + k);
        lemma_time_moves(query, first as int, k);
        lemma_time_moves(query, last as int, k);
        assert(there.frame_time(first_moved) == query.frame_time(first_moved));
        assert(there.frame_time(last_moved) == query.frame_time(last_moved));
        assert(query.frame_time(first_moved) == query.frame_time(first) + query.frame_nanos(k));
        assert(query.frame_time(last_moved) == query.frame_time(last) + query.frame_nanos(k));
        lemma_shift_fits(reference, query, k, delta);
    }
}

/// The shift of a vote, moved or not, is a signed number of 32 bits.
proof fn lemma_shift_fits(reference: Map<u32, u32>, query: FingerprintView, k: int, delta: int)
    requires
        query_fits(query, k),
        reference_fits(reference),
        voting::voters(reference, query.hashes, delta).len() > 0,
    ensures
        i32::MIN <= delta <= i32::MAX,
        i32::MIN <= delta + k <= i32::MAX,
{
    let some = voting::voters(reference, query.hashes, delta);
    voting::lemma_voters_bounded(reference, query.hashes, delta);
    let hash = some.choose();
    assert(some.contains(hash));
    let i = choose|i: int|
        0 <= i < query.hashes.len() && (#[trigger] query.hashes[i]).hash == hash
            && voting::votes_for(reference, query.hashes[i], delta);
    assert(reference[hash] <= i32::MAX);
}

} // verus!
