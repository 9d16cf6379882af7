//! What a match is: the longest stretch of the query that agrees with the
//! reference at the shift on which most of the reference agrees.

use vstd::prelude::*;
use vstd::relations::sorted_by;

use super::alignment;
use super::order;
use super::run;
use super::voting;
use super::MatchResult;
use crate::fingerprint::constellation::FingerprintView;
use crate::fingerprint::FpHash;
use crate::{Config, Ratio};

verus! {

/// The reference holds the same hash, `delta` frames earlier.
pub open spec fn agrees(reference: Map<u32, u32>, h: FpHash, delta: int) -> bool {
    reference.contains_key(h.hash) && h.frame - reference[h.hash] == delta
}

/// The hashes of the reference that recur in the query `delta` frames later.
pub open spec fn recurring(reference: Map<u32, u32>, hashes: Seq<FpHash>, delta: int) -> Set<u32> {
    Set::new(
        |hash: u32|
            exists|i: int|
                0 <= i < hashes.len() && (#[trigger] hashes[i]).hash == hash && agrees(
                    reference,
                    hashes[i],
                    delta,
                ),
    )
}

/// The frames of the query at which the reference recurs, `delta` frames later.
pub open spec fn recurring_frames(
    reference: Map<u32, u32>,
    hashes: Seq<FpHash>,
    delta: int,
) -> Seq<u32> {
    hashes.filter(|h: FpHash| agrees(reference, h, delta)).map_values(|h: FpHash| h.frame)
}

/// From place `a` to place `b` no two neighbouring frames are more than ten
/// apart.
pub open spec fn unbroken(frames: Seq<u32>, a: int, b: int) -> bool {
    &&& 0 <= a <= b < frames.len()
    &&& forall|k: int| a < k <= b ==> (#[trigger] frames[k]) - frames[k - 1] <= 10
}

/// The frame numbers of a reference and of a query lie within half the range of
/// their type.
pub open spec fn frames_are_small(reference: Map<u32, u32>, hashes: Seq<FpHash>) -> bool {
    &&& forall|hash: u32| #[trigger]
        reference.contains_key(hash) ==> reference[hash] <= 0x7fff_ffff
    &&& forall|i: int| 0 <= i < hashes.len() ==> (#[trigger] hashes[i]).frame <= 0x7fff_ffff
}

/// Where frame numbers are small, agreeing at a shift is voting for it.
proof fn lemma_votes_are_agreements(reference: Map<u32, u32>, hashes: Seq<FpHash>, delta: int)
    requires
        frames_are_small(reference, hashes),
    ensures
        voting::voters(reference, hashes, delta) == recurring(reference, hashes, delta),
        voting::voting_frames(reference, hashes, delta) == recurring_frames(
            reference,
            hashes,
            delta,
        ),
    decreases hashes.len(),
{
    let agreeing = |h: FpHash| agrees(reference, h, delta);
    assert forall|i: int| 0 <= i < hashes.len() implies agrees(
        reference,
        #[trigger] hashes[i],
        delta,
    ) == voting::votes_for(reference, hashes[i], delta) by {
        if reference.contains_key(hashes[i].hash) {
            assert(reference[hashes[i].hash] <= 0x7fff_ffff);
        }
    }
    let (a, b) = (voting::voters(reference, hashes, delta), recurring(reference, hashes, delta));
    assert forall|hash: u32| #[trigger] a.contains(hash) == b.contains(hash) by {
        if a.contains(hash) {
            let i = choose|i: int|
                0 <= i < hashes.len() && (#[trigger] hashes[i]).hash == hash && voting::votes_for(
                    reference,
                    hashes[i],
                    delta,
                );
            assert(agrees(reference, hashes[i], delta));
        }
        if b.contains(hash) {
            let i = choose|i: int|
                0 <= i < hashes.len() && (#[trigger] hashes[i]).hash == hash && agrees(
                    reference,
                    hashes[i],
                    delta,
                );
            assert(voting::votes_for(reference, hashes[i], delta));
        }
    }
    assert(a =~= b);
    let frame = |h: FpHash| h.frame;
    if hashes.len() == 0 {
        assert(hashes.filter(agreeing) =~= hashes) by {
            reveal(Seq::filter);
        }
        assert(voting::voting_frames(reference, hashes, delta) =~= recurring_frames(
            reference,
            hashes,
            delta,
        ));
    } else {
        let rest = hashes.drop_last();
        let last = hashes.last();
        assert forall|i: int| 0 <= i < rest.len() implies (#[trigger] rest[i]).frame
            <= 0x7fff_ffff by {
            assert(rest[i] == hashes[i]);
        }
        lemma_votes_are_agreements(reference, rest, delta);
        assert(hashes =~= rest.push(last));
        rest.lemma_filter_push(last, agreeing);
        assert(hashes[hashes.len() - 1] == last);
        if agreeing(last) {
            let kept = rest.filter(agreeing);
            assert(kept.push(last).map_values(frame) =~= kept.map_values(frame).push(last.frame));
        }
    }
}

/// Which span of a query is matched, and whether any is. Let `delta` be the
/// shift at which most hashes of the reference recur in the query, the smallest
/// of several; let `frames` be the frames at which they do, in ascending order;
/// and let `i` to `j` be the first of the longest stretches of these without a
/// gap of more than ten frames. The match is that stretch, with the share of the
/// reference that recurs as its confidence, unless the share is below the
/// configured threshold or the stretch is shorter than the configured length.
/// Nothing else keeps it from being reported.
#[verifier::rlimit(40)]
pub proof fn law_match_is_the_longest_agreement(
    reference: Map<u32, u32>,
    query: FingerprintView,
    delta: i32,
    frames: Seq<u32>,
    i: int,
    j: int,
    config: Config,
)
    requires
        reference.dom().finite(),
        reference.len() <= u64::MAX,
        frames_are_small(reference, query.hashes),
        0 < recurring(reference, query.hashes, delta as int).len(),
        forall|e: int|
            (#[trigger] recurring(reference, query.hashes, e)).len() <= recurring(
                reference,
                query.hashes,
                delta as int,
            ).len(),
        forall|e: int|
            e < delta ==> (#[trigger] recurring(reference, query.hashes, e)).len() < recurring(
                reference,
                query.hashes,
                delta as int,
            ).len(),
        frames.to_multiset() == recurring_frames(
            reference,
            query.hashes,
            delta as int,
        ).to_multiset(),
        forall|a: int, b: int| 0 <= a <= b < frames.len() ==> frames[a] <= frames[b],
        unbroken(frames, i, j),
        forall|a: int, b: int| #[trigger] unbroken(frames, a, b) ==> b - a <= j - i,
        forall|a: int, b: int| #[trigger]
            unbroken(frames, a, b) && b - a == j - i ==> i <= a,
        query.sample_rate > 0,
        i64::MIN <= query.time_offset_ns + (frames[i] * query.frame_samples * 1_000_000_000)
            / query.sample_rate <= i64::MAX,
        i64::MIN <= query.time_offset_ns + (frames[j] * query.frame_samples * 1_000_000_000)
            / query.sample_rate <= i64::MAX,
    ensures
        ({
            let votes = recurring(reference, query.hashes, delta as int).len();
            let start = query.time_offset_ns + (frames[i] * query.frame_samples * 1_000_000_000)
                / query.sample_rate;
            let end = query.time_offset_ns + (frames[j] * query.frame_samples * 1_000_000_000)
                / query.sample_rate;
            let enough = votes * config.match_threshold.den >= config.match_threshold.num
                * reference.len();
            let long = end - start >= config.min_segment_ns;
            super::reference_match(reference, query, config) == (if enough && long {
                Some(
                    MatchResult {
                        start_ns: start as i64,
                        end_ns: end as i64,
                        confidence: Ratio { num: votes as u64, den: reference.len() as u64 },
                        offset_frames: delta,
                    },
                )
            } else {
                None
            })
        }),
{
    let d = delta as int;
    let hashes = query.hashes;
    let weight = voting::vote_weight(reference, hashes);
    assert forall|e: int| #[trigger] weight(e) == recurring(reference, hashes, e).len() by {
        lemma_votes_are_agreements(reference, hashes, e);
    }
    assert(alignment::is_mode(weight, d)) by {
        assert forall|e: int| #[trigger] weight(e) <= weight(d) by {
            assert(recurring(reference, hashes, e).len() <= recurring(reference, hashes, d).len());
        }
        assert forall|e: int| #[trigger] weight(e) == weight(d) implies d <= e by {
            if e < d {
                assert(recurring(reference, hashes, e).len() < recurring(
                    reference,
                    hashes,
                    d,
                ).len());
            }
        }
    }
    alignment::lemma_mode_is(weight, d);
    lemma_votes_are_agreements(reference, hashes, d);
    voting::lemma_voters_bounded(reference, hashes, d);
    assert(sorted_by(frames, order::ascending()));
    order::lemma_in_order_is(voting::voting_frames(reference, hashes, d), frames);
    assert forall|a: int, b: int| #[trigger]
        run::is_run(frames, run::MAX_GAP_FRAMES, a, b) == unbroken(frames, a, b) by {
        if run::is_run(frames, run::MAX_GAP_FRAMES, a, b) {
            assert(unbroken(frames, a, b));
        }
    }
    assert(unbroken(frames, i, j));
    assert(run::is_run(frames, run::MAX_GAP_FRAMES, i, j));
    assert(run::is_longest_run(frames, run::MAX_GAP_FRAMES, i, j));
    run::lemma_longest_run_is(frames, run::MAX_GAP_FRAMES, i, j);
}

/// A query that shares no hash with the reference matches nothing.
pub proof fn law_nothing_shared_nothing_matched(
    reference: Map<u32, u32>,
    query: FingerprintView,
    config: Config,
)
    requires
        forall|i: int|
            0 <= i < query.hashes.len() ==> !reference.contains_key(
                (#[trigger] query.hashes[i]).hash,
            ),
    ensures
        super::reference_match(reference, query, config) is None,
{
    let weight = voting::vote_weight(reference, query.hashes);
    assert forall|e: int| #[trigger] weight(e) == 0 by {
        assert(voting::voters(reference, query.hashes, e) =~= Set::empty());
    }
    alignment::lemma_no_mode(weight);
}

/// Every match is of this kind: at its shift the most hashes of the reference
/// recur in the query, its confidence is their share, and the share and the
/// length of the span reach what is configured.
pub proof fn law_match_is_backed_by_agreement(
    reference: Map<u32, u32>,
    query: FingerprintView,
    config: Config,
    m: MatchResult,
)
    requires
        reference.dom().finite(),
        reference.len() <= u64::MAX,
        frames_are_small(reference, query.hashes),
        super::reference_match(reference, query, config) == Some(m),
    ensures
        ({
            let d = m.offset_frames as int;
            let votes = recurring(reference, query.hashes, d).len();
            &&& 0 < votes
            &&& forall|e: int|
                (#[trigger] recurring(reference, query.hashes, e)).len() <= votes
            &&& m.confidence.num == votes
            &&& m.confidence.den == reference.len()
            &&& votes * config.match_threshold.den >= config.match_threshold.num * reference.len()
            &&& m.end_ns - m.start_ns >= config.min_segment_ns
        }),
{
    let hashes = query.hashes;
    let weight = voting::vote_weight(reference, hashes);
    let d = alignment::mode(weight)->0;
    assert(alignment::is_mode(weight, d));
    assert forall|e: int| #[trigger] weight(e) == recurring(reference, hashes, e).len() by {
        lemma_votes_are_agreements(reference, hashes, e);
    }
    assert(weight(d) > 0);
    lemma_votes_are_agreements(reference, hashes, d);
    voting::lemma_voters_bounded(reference, hashes, d);
    let some = recurring(reference, hashes, d);
    let hash = some.choose();
    assert(some.contains(hash));
    let n = choose|n: int|
        0 <= n < hashes.len() && (#[trigger] hashes[n]).hash == hash && agrees(
            reference,
            hashes[n],
            d,
        );
    assert(reference[hash] <= 0x7fff_ffff);
    assert(hashes[n].frame <= 0x7fff_ffff);
    assert forall|e: int| (#[trigger] recurring(reference, hashes, e)).len() <= some.len() by {
        assert(weight(e) <= weight(d));
    }
}

} // verus!
