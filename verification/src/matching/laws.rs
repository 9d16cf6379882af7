//! What matching guarantees as a whole.

use vstd::prelude::*;

use super::alignment;
use super::order;
use super::reference;
use super::run;
use super::voting;
use super::{MatchResult, ReferenceView};
use crate::fingerprint::constellation::FingerprintView;
use crate::fingerprint::FpHash;
use crate::{Config, Ratio};

verus! {

/// Whether a query hash occurs in the reference at all.
pub open spec fn known_to(reference: Map<u32, u32>) -> spec_fn(FpHash) -> bool {
    |h: FpHash| reference.contains_key(h.hash)
}

/// A query without the hashes that the reference does not know.
pub open spec fn relevant_part(
    reference: Map<u32, u32>,
    query: FingerprintView,
) -> FingerprintView {
    FingerprintView { hashes: query.hashes.filter(known_to(reference)), ..query }
}

proof fn lemma_relevant_hashes(reference: Map<u32, u32>, query: Seq<FpHash>, delta: int)
    ensures
        voting::voters(reference, query.filter(known_to(reference)), delta) == voting::voters(
            reference,
            query,
            delta,
        ),
        voting::voting_frames(reference, query.filter(known_to(reference)), delta)
            == voting::voting_frames(reference, query, delta),
    decreases query.len(),
{
    let known = known_to(reference);
    if query.len() == 0 {
        assert(query.filter(known) =~= query) by {
            reveal(Seq::filter);
        }
    } else {
        let rest = query.drop_last();
        let last = query.last();
        lemma_relevant_hashes(reference, rest, delta);
        assert(query =~= rest.push(last));
        rest.lemma_filter_push(last, known);
        voting::lemma_voters_push(reference, rest, last, delta);
        if known(last) {
            let kept = rest.filter(known);
            voting::lemma_voters_push(reference, kept, last, delta);
            assert(kept.push(last).drop_last() =~= kept);
        }
    }
}

/// Hashes that the reference does not know change nothing: a query matches
/// exactly as its relevant part does, however much other audio the scan
/// window covers.
pub proof fn law_unknown_hashes_do_not_matter(
    reference: Map<u32, u32>,
    query: FingerprintView,
    config: Config,
)
    ensures
        super::reference_match(reference, relevant_part(reference, query), config)
            == super::reference_match(reference, query, config),
{
    let part = relevant_part(reference, query);
    assert forall|delta: int|
        voting::voters(reference, part.hashes, delta) == voting::voters(
            reference,
            query.hashes,
            delta,
        ) && voting::voting_frames(reference, part.hashes, delta) == voting::voting_frames(
            reference,
            query.hashes,
            delta,
        ) by {
        lemma_relevant_hashes(reference, query.hashes, delta);
    }
    assert(voting::vote_weight(reference, part.hashes) =~= voting::vote_weight(
        reference,
        query.hashes,
    ));
}

/// A query that holds every hash of the reference, and holds each only at the
/// same shift `delta`, is aligned at `delta` with full confidence.
pub proof fn law_shifted_copy_is_found(
    reference: Map<u32, u32>,
    query: FingerprintView,
    delta: int,
    config: Config,
)
    requires
        reference.dom().finite(),
        reference.len() > 0,
        forall|i: int|
            0 <= i < query.hashes.len() && reference.contains_key(
                (#[trigger] query.hashes[i]).hash,
            ) ==> voting::votes_for(reference, query.hashes[i], delta),
        forall|hash: u32| #[trigger]
            reference.contains_key(hash) ==> exists|i: int|
                0 <= i < query.hashes.len() && (#[trigger] query.hashes[i]).hash == hash,
    ensures
        alignment::mode(voting::vote_weight(reference, query.hashes)) == Some(delta),
        voting::voters(reference, query.hashes, delta) == reference.dom(),
        super::reference_match(reference, query, config) == super::aligned_match(
            reference,
            query,
            delta,
            config,
        ),
{
    let weight = voting::vote_weight(reference, query.hashes);
    assert forall|hash: u32| #[trigger]
        voting::voters(reference, query.hashes, delta).contains(hash) == reference.dom().contains(
            hash,
        ) by {
        if reference.contains_key(hash) {
            let i = choose|i: int|
                0 <= i < query.hashes.len() && (#[trigger] query.hashes[i]).hash == hash;
            assert(voting::votes_for(reference, query.hashes[i], delta));
        }
    }
    assert(voting::voters(reference, query.hashes, delta) =~= reference.dom());
    assert forall|e: int| e != delta implies #[trigger] weight(e) == 0 by {
        let none = voting::voters(reference, query.hashes, e);
        assert forall|hash: u32| !none.contains(hash) by {
            if none.contains(hash) {
                let i = choose|i: int|
                    0 <= i < query.hashes.len() && (#[trigger] query.hashes[i]).hash == hash
                        && voting::votes_for(reference, query.hashes[i], e);
                assert(voting::votes_for(reference, query.hashes[i], delta));
            }
        }
        assert(none =~= Set::empty());
    }
    assert(weight(delta) == reference.len());
    assert(alignment::is_mode(weight, delta));
    alignment::lemma_mode_is(weight, delta);
}

/// A theme that is repeated whole is found: where the query holds every hash of
/// the reference, each only at the shift `delta`, without a gap in between and
/// for long enough, the match runs from the first of these hashes to the last,
/// with full confidence. What else the query holds does not matter.
pub proof fn law_repeated_theme_is_matched(
    reference: Map<u32, u32>,
    query: FingerprintView,
    delta: i32,
    config: Config,
)
    requires
        reference.dom().finite(),
        0 < reference.len() <= u64::MAX,
        config.match_threshold.num <= config.match_threshold.den,
        forall|i: int|
            0 <= i < query.hashes.len() && reference.contains_key(
                (#[trigger] query.hashes[i]).hash,
            ) ==> voting::votes_for(reference, query.hashes[i], delta as int),
        forall|hash: u32| #[trigger]
            reference.contains_key(hash) ==> exists|i: int|
                0 <= i < query.hashes.len() && (#[trigger] query.hashes[i]).hash == hash,
        ({
            let frames = order::in_order(
                voting::voting_frames(reference, query.hashes, delta as int),
            );
            &&& run::is_run(frames, run::MAX_GAP_FRAMES, 0, frames.len() - 1)
            &&& query.frame_time(frames.last()) - query.frame_time(frames[0])
                >= config.min_segment_ns
        }),
    ensures
        ({
            let frames = order::in_order(
                voting::voting_frames(reference, query.hashes, delta as int),
            );
            super::reference_match(reference, query, config) == Some(
                MatchResult {
                    start_ns: query.frame_time(frames[0]) as i64,
                    end_ns: query.frame_time(frames.last()) as i64,
                    confidence: Ratio { num: reference.len() as u64, den: reference.len() as u64 },
                    offset_frames: delta,
                },
            )
        }),
{
    law_shifted_copy_is_found(reference, query, delta as int, config);
    let frames = order::in_order(voting::voting_frames(reference, query.hashes, delta as int));
    let last = frames.len() - 1;
    assert(run::is_longest_run(frames, run::MAX_GAP_FRAMES, 0, last));
    run::lemma_longest_run_is(frames, run::MAX_GAP_FRAMES, 0, last);
    let n = reference.len() as int;
    let (tn, td) = (config.match_threshold.num as int, config.match_threshold.den as int);
    assert(n * td >= tn * n) by (nonlinear_arith)
        requires
            n >= 0,
            td >= tn,
    ;
}

/// `a <= b` and `b <= c` for fractions of positive denominators give `a <= c`.
proof fn lemma_not_below_transitive(a: Ratio, b: Ratio, c: Ratio)
    requires
        a.den > 0,
        b.den > 0,
        c.den > 0,
        !b.spec_below(a),
        !c.spec_below(b),
    ensures
        !c.spec_below(a),
{
    let (an, ad, bn, bd, cn, cd) = (
        a.num as int,
        a.den as int,
        b.num as int,
        b.den as int,
        c.num as int,
        c.den as int,
    );
    assert(an * cd <= cn * ad) by (nonlinear_arith)
        requires
            ad > 0,
            bd > 0,
            cd > 0,
            an >= 0,
            bn >= 0,
            cn >= 0,
            an * bd <= bn * ad,
            bn * cd <= cn * bd,
    {
        assert((an * bd) * cd <= (bn * ad) * cd);
        assert((bn * cd) * ad <= (cn * bd) * ad);
        assert((an * cd) * bd == (an * bd) * cd);
        assert((cn * ad) * bd == (cn * bd) * ad);
        assert((bn * ad) * cd == (bn * cd) * ad);
    }
}

/// A match is backed by at least one hash of the reference and by no more than
/// all of them, by enough of them, and for long enough. How many hashes the
/// query holds does not enter into its confidence.
pub proof fn law_confidence_is_a_share(
    reference: Map<u32, u32>,
    query: FingerprintView,
    config: Config,
)
    requires
        reference.dom().finite(),
        reference.len() <= u64::MAX,
    ensures
        super::reference_match(reference, query, config) matches Some(m) ==> {
            &&& 0 < m.confidence.num <= m.confidence.den
            &&& m.confidence.den == reference.len()
            &&& !m.confidence.spec_below(config.match_threshold)
            &&& m.end_ns - m.start_ns >= config.min_segment_ns
        },
{
    let weight = voting::vote_weight(reference, query.hashes);
    match alignment::mode(weight) {
        Some(delta) => {
            assert(alignment::is_mode(weight, delta));
            assert(weight(delta) > 0);
            voting::lemma_voters_bounded(reference, query.hashes, delta);
        },
        None => {},
    }
}

/// The best match is one reference's match, and no reference matches with a
/// higher confidence. There is none only if no reference matches.
pub proof fn law_best_match_is_best(
    references: Seq<ReferenceView>,
    query: FingerprintView,
    config: Config,
)
    requires
        forall|i: int|
            0 <= i < references.len() ==> (#[trigger] references[i]).frames.dom().finite()
                && references[i].frames.len() <= u64::MAX,
    ensures
        match super::best_match(references, query, config) {
            Some(best) => {
                &&& exists|i: int|
                    0 <= i < references.len() && super::reference_match(
                        (#[trigger] references[i]).frames,
                        query,
                        config,
                    ) == Some(best)
                &&& forall|i: int|
                    0 <= i < references.len() ==> (super::reference_match(
                        (#[trigger] references[i]).frames,
                        query,
                        config,
                    ) matches Some(m) ==> !best.confidence.spec_below(m.confidence))
            },
            None => forall|i: int|
                0 <= i < references.len() ==> super::reference_match(
                    (#[trigger] references[i]).frames,
                    query,
                    config,
                ) is None,
        },
    decreases references.len(),
{
    if references.len() > 0 {
        let rest = references.drop_last();
        let last = references.last();
        assert forall|i: int| 0 <= i < rest.len() implies (#[trigger] rest[i])
            == references[i] by {}
        law_best_match_is_best(rest, query, config);
        law_confidence_is_a_share(last.frames, query, config);
        let earlier = super::best_match(rest, query, config);
        let later = super::reference_match(last.frames, query, config);
        let n = references.len() - 1;
        match earlier {
            Some(a) => {
                let k = choose|k: int|
                    0 <= k < rest.len() && super::reference_match(
                        (#[trigger] rest[k]).frames,
                        query,
                        config,
                    ) == Some(a);
                assert(references[k] == rest[k]);
                law_confidence_is_a_share(rest[k].frames, query, config);
                assert forall|i: int| 0 <= i < references.len() implies (super::reference_match(
                    (#[trigger] references[i]).frames,
                    query,
                    config,
                ) matches Some(m) ==> !(super::best_match(references, query, config)->0)
                    .confidence.spec_below(m.confidence)) by {
                    if i < n {
                        assert(rest[i] == references[i]);
                        law_confidence_is_a_share(references[i].frames, query, config);
                        let m = super::reference_match(references[i].frames, query, config);
                        if m is Some && later is Some {
                            if !(later->0).confidence.spec_below(a.confidence) {
                                lemma_not_below_transitive(
                                    (m->0).confidence,
                                    a.confidence,
                                    (later->0).confidence,
                                );
                            }
                        }
                    }
                }
            },
            None => {
                assert forall|i: int| 0 <= i < n implies super::reference_match(
                    (#[trigger] references[i]).frames,
                    query,
                    config,
                ) is None by {
                    assert(rest[i] == references[i]);
                }
            },
        }
        if later is Some {
            assert(references[n] == last);
        }
    }
}

/// Every hash of a bootstrapped reference comes from the first recording, at
/// the earliest frame at which enough recordings hold it.
pub proof fn law_reference_comes_from_the_first_recording(fps: Seq<FingerprintView>, hash: u32)
    requires
        fps.len() > 0,
        reference::bootstrapped(fps).frames.contains_key(hash),
    ensures
        fps[0].hashes.contains(
            (FpHash { hash, frame: reference::bootstrapped(fps).frames[hash] }),
        ),
        reference::is_earliest(
            reference::hash_lists(fps),
            hash,
            reference::bootstrapped(fps).frames[hash],
        ),
{
    let lists = reference::hash_lists(fps);
    let some = choose|frame: u32| reference::survives(lists, FpHash { hash, frame });
    lemma_earliest_exists(lists, hash, some);
}

/// A hash that survives at all has an earliest surviving frame.
pub proof fn lemma_earliest_exists(lists: Seq<Seq<FpHash>>, hash: u32, frame: u32)
    requires
        reference::survives(lists, FpHash { hash, frame }),
    ensures
        exists|f: u32| reference::is_earliest(lists, hash, f),
    decreases frame,
{
    if !reference::is_earliest(lists, hash, frame) {
        let other = choose|other: u32| #[trigger]
            reference::survives(lists, FpHash { hash, frame: other }) && other < frame;
        lemma_earliest_exists(lists, hash, other);
    }
}

/// A single recording is used as it is: each of its hashes is in the
/// reference, at the earliest frame at which it occurs.
pub proof fn law_single_recording_passes_through(fp: FingerprintView, hash: u32)
    ensures
        ({
            let r = reference::bootstrapped(seq![fp]);
            &&& r.support == 1
            &&& r.frame_samples == fp.frame_samples && r.sample_rate == fp.sample_rate
            &&& r.frames.contains_key(hash) == exists|frame: u32|
                fp.hashes.contains(FpHash { hash, frame })
            &&& r.frames.contains_key(hash) ==> fp.hashes.contains(
                FpHash { hash, frame: r.frames[hash] },
            ) && forall|frame: u32| #[trigger]
                fp.hashes.contains(FpHash { hash, frame }) ==> r.frames[hash] <= frame
        }),
{
    let fps = seq![fp];
    let lists = reference::hash_lists(fps);
    assert(lists.drop_first() =~= Seq::empty());
    assert(lists[0] == fp.hashes);
    assert forall|entry: FpHash| #[trigger]
        reference::survives(lists, entry) == fp.hashes.contains(entry) by {}
    if reference::bootstrapped(fps).frames.contains_key(hash) {
        law_reference_comes_from_the_first_recording(fps, hash);
        assert forall|frame: u32| #[trigger]
            fp.hashes.contains(FpHash { hash, frame }) implies reference::bootstrapped(
            fps,
        ).frames[hash] <= frame by {
            assert(reference::survives(lists, FpHash { hash, frame }));
        }
    }
    if exists|frame: u32| fp.hashes.contains(FpHash { hash, frame }) {
        let frame = choose|frame: u32| fp.hashes.contains(FpHash { hash, frame });
        assert(reference::survives(lists, FpHash { hash, frame }));
    }
}

/// With three recordings or more, a hash that the first one alone holds is not
/// in the reference.
pub proof fn law_hash_of_one_recording_is_dropped(fps: Seq<FingerprintView>, hash: u32)
    requires
        fps.len() >= 3,
        forall|k: int, j: int|
            1 <= k < fps.len() && 0 <= j < fps[k].hashes.len() ==> (
            #[trigger] fps[k].hashes[j]).hash != hash,
    ensures
        !reference::bootstrapped(fps).frames.contains_key(hash),
{
    let lists = reference::hash_lists(fps);
    let others = lists.drop_first();
    assert forall|frame: u32| !reference::survives(lists, FpHash { hash, frame }) by {
        let entry = FpHash { hash, frame };
        assert forall|k: int| 0 <= k < others.len() implies !reference::confirms(
            lists[0],
            #[trigger] others[k],
            entry,
        ) by {
            assert(others[k] == fps[k + 1].hashes);
        }
        lemma_unconfirmed(lists[0], others, entry);
    }
}

/// A hash of the first recording that every other recording holds, at its
/// dominant shift, is in the reference, at that frame or an earlier one.
pub proof fn law_hash_of_all_recordings_is_kept(fps: Seq<FingerprintView>, entry: FpHash)
    requires
        fps.len() > 0,
        fps[0].hashes.contains(entry),
        forall|k: int|
            1 <= k < fps.len() ==> reference::confirms(
                fps[0].hashes,
                #[trigger] fps[k].hashes,
                entry,
            ),
    ensures
        reference::bootstrapped(fps).frames.contains_key(entry.hash),
        reference::bootstrapped(fps).frames[entry.hash] <= entry.frame,
{
    let lists = reference::hash_lists(fps);
    let others = lists.drop_first();
    assert forall|k: int| 0 <= k < others.len() implies reference::confirms(
        lists[0],
        #[trigger] others[k],
        entry,
    ) by {
        assert(others[k] == fps[k + 1].hashes);
    }
    lemma_confirmed(lists[0], others, entry);
    assert(reference::survives(lists, FpHash { hash: entry.hash, frame: entry.frame }));
    law_reference_comes_from_the_first_recording(fps, entry.hash);
}

/// An entry that no other recording confirms counts once.
proof fn lemma_unconfirmed(anchor: Seq<FpHash>, others: Seq<Seq<FpHash>>, entry: FpHash)
    requires
        forall|k: int|
            0 <= k < others.len() ==> !reference::confirms(anchor, #[trigger] others[k], entry),
    ensures
        reference::confirmations(anchor, others, entry) == 1,
    decreases others.len(),
{
    if others.len() > 0 {
        let less = others.drop_last();
        assert forall|k: int| 0 <= k < less.len() implies !reference::confirms(
            anchor,
            #[trigger] less[k],
            entry,
        ) by {
            assert(less[k] == others[k]);
        }
        lemma_unconfirmed(anchor, less, entry);
        assert(others.last() == others[others.len() - 1]);
    }
}

/// An entry that every other recording confirms counts once for each.
proof fn lemma_confirmed(anchor: Seq<FpHash>, others: Seq<Seq<FpHash>>, entry: FpHash)
    requires
        forall|k: int|
            0 <= k < others.len() ==> reference::confirms(anchor, #[trigger] others[k], entry),
    ensures
        reference::confirmations(anchor, others, entry) == 1 + others.len(),
    decreases others.len(),
{
    if others.len() > 0 {
        let less = others.drop_last();
        assert forall|k: int| 0 <= k < less.len() implies reference::confirms(
            anchor,
            #[trigger] less[k],
            entry,
        ) by {
            assert(less[k] == others[k]);
        }
        lemma_confirmed(anchor, less, entry);
        assert(others.last() == others[others.len() - 1]);
    }
}

} // verus!
