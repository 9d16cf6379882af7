//! Reference-based fingerprint matching.
//!
//! A *reference* fingerprint is bootstrapped from the first few episodes of a
//! season; every other episode is then a single linear lookup against it. The
//! match works by offset-histogram alignment: each hash shared between
//! reference and query votes for `query frame - reference frame`, and the mode
//! of that distribution is the true alignment.

pub mod alignment;
pub mod completeness;
pub mod histogram;
pub mod laws;
pub mod motion;
pub mod offsets;
pub mod order;
pub mod reference;
pub mod run;
pub mod sharing;
pub mod voting;

pub use reference::{build_reference, intersect_bootstrap};

use std::collections::HashMap;

use vstd::prelude::*;

use crate::fingerprint::constellation::FingerprintView;
use crate::fingerprint::{Fingerprint, FrameLength};
use crate::{Config, Ratio};

verus! {

broadcast use vstd::std_specs::hash::group_hash_axioms;

/// Compact reference fingerprint: each hash maps to its frame in the
/// canonical timeline. A hash that recurs at several frames is kept at the
/// earliest.
#[derive(Debug, Clone)]
pub struct ReferenceFingerprint {
    pub hash_to_frame: HashMap<u32, u32>,
    /// Length of one frame.
    pub frame_duration: FrameLength,
    /// Number of source fingerprints that contributed to this reference.
    pub support: usize,
}

/// The mathematical content of a [`ReferenceFingerprint`].
#[verifier::ext_equal]
pub struct ReferenceView {
    pub frames: Map<u32, u32>,
    pub frame_samples: int,
    pub sample_rate: int,
    pub support: nat,
}

impl View for ReferenceFingerprint {
    type V = ReferenceView;

    open spec fn view(&self) -> ReferenceView {
        ReferenceView {
            frames: self.hash_to_frame@,
            frame_samples: self.frame_duration.spec_samples(),
            sample_rate: self.frame_duration.spec_rate(),
            support: self.support as nat,
        }
    }
}

impl ReferenceFingerprint {
    /// Whether the reference holds no hash.
    pub fn is_empty(&self) -> (empty: bool)
        ensures
            empty == (self@.frames.len() == 0),
    {
        proof {
            vstd::set_lib::axiom_is_empty_len0(self.hash_to_frame@.dom());
        }
        self.hash_to_frame.is_empty()
    }

    /// Number of hashes in the reference.
    pub fn len(&self) -> (n: usize)
        ensures
            n == self@.frames.len(),
    {
        self.hash_to_frame.len()
    }
}

/// A match between a reference and a query fingerprint.
#[derive(Debug, Clone, Copy, PartialEq, Eq, Structural)]
pub struct MatchResult {
    /// Start of the matched span in the query's file.
    pub start_ns: i64,
    /// End of the matched span in the query's file.
    pub end_ns: i64,
    /// Share of the reference's hashes that agreed with the dominant alignment.
    pub confidence: Ratio,
    /// Frame offset (query minus reference) of the dominant alignment.
    pub offset_frames: i32,
}

/// The first and the last frame of the longest contiguous run of votes at
/// `delta`.
pub open spec fn matched_frames(
    reference: Map<u32, u32>,
    query: FingerprintView,
    delta: int,
) -> (u32, u32) {
    run::longest_run_bounds(
        order::in_order(voting::voting_frames(reference, query.hashes, delta)),
        run::MAX_GAP_FRAMES,
    )
}

/// What a query that aligns at `delta` matches, if anything: nothing when too
/// small a share of the reference votes there, or when the longest contiguous
/// run of votes is too short; otherwise that run.
pub open spec fn aligned_match(
    reference: Map<u32, u32>,
    query: FingerprintView,
    delta: int,
    config: Config,
) -> Option<MatchResult> {
    let confidence = Ratio {
        num: voting::voters(reference, query.hashes, delta).len() as u64,
        den: reference.len() as u64,
    };
    let (first, last) = matched_frames(reference, query, delta);
    let start = query.frame_time(first);
    let end = query.frame_time(last);
    if confidence.spec_below(config.match_threshold) || end - start < config.min_segment_ns {
        None
    } else {
        Some(
            MatchResult {
                start_ns: start as i64,
                end_ns: end as i64,
                confidence,
                offset_frames: delta as i32,
            },
        )
    }
}

/// The match of a query against a reference: the one at the dominant shift.
/// An empty reference or query has no dominant shift and no match.
pub open spec fn reference_match(
    reference: Map<u32, u32>,
    query: FingerprintView,
    config: Config,
) -> Option<MatchResult> {
    match alignment::mode(voting::vote_weight(reference, query.hashes)) {
        Some(delta) => aligned_match(reference, query, delta, config),
        None => None,
    }
}

/// Matches a query fingerprint against a reference.
///
/// Returns `None` if no alignment reaches `config.match_threshold` or the
/// resulting span is shorter than `config.min_segment_ns`.
///
/// Confidence is the share of *reference* hashes that voted at the dominant
/// alignment, so it does not depend on how long the query's scan window is.
///
/// The matched span is the longest contiguous run of votes at the dominant
/// shift; one stray late vote does not stretch it.
pub fn match_against_reference(
    reference: &ReferenceFingerprint,
    query: &Fingerprint,
    config: &Config,
) -> (result: Option<MatchResult>)
    ensures
        result == reference_match(reference@.frames, query@, *config),
        result matches Some(m) ==> 0 < m.confidence.num <= m.confidence.den,
{
    if reference.is_empty() || query.is_empty() {
        proof {
            lemma_nothing_to_match(reference@.frames, query@.hashes);
        }
        return None;
    }
    let (delta, votes) = match voting::dominant_alignment(&reference.hash_to_frame, &query.hashes) {
        Some(best) => best,
        None => return None,
    };
    let confidence: Ratio = Ratio { num: votes as u64, den: reference.len() as u64 };
    if confidence.below(&config.match_threshold) {
        return None;
    }
    let frames: Vec<u32> = voting::frames_at(&reference.hash_to_frame, &query.hashes, delta);
    proof {
        voting::lemma_voting_frames_nonempty(reference@.frames, query@.hashes, delta as int);
        order::lemma_in_order(frames@);
    }
    let frames: Vec<u32> = order::sort_frames(frames);
    let (first, last) = run::longest_run(frames.as_slice(), run::MAX_GAP_FRAMES);
    let start: i64 = query.frame_to_seconds(first);
    let end: i64 = query.frame_to_seconds(last);
    if (end as i128) - (start as i128) < config.min_segment_ns as i128 {
        return None;
    }
    proof {
        voting::lemma_voters_bounded(reference@.frames, query@.hashes, delta as int);
    }
    Some(MatchResult { start_ns: start, end_ns: end, confidence, offset_frames: delta })
}

/// Neither an empty reference nor an empty query yields a vote.
pub proof fn lemma_nothing_to_match(reference: Map<u32, u32>, query: Seq<crate::fingerprint::FpHash>)
    requires
        (reference.dom().finite() && reference.len() == 0) || query.len() == 0,
    ensures
        alignment::mode(voting::vote_weight(reference, query)) is None,
{
    let weight = voting::vote_weight(reference, query);
    assert forall|delta: int| #[trigger] weight(delta) == 0 by {
        voting::lemma_voters_bounded(reference, query, delta);
    }
    alignment::lemma_no_mode(weight);
}

/// The better of two matches: the one with the higher confidence, the later
/// one where they are equal.
pub open spec fn better_match(
    earlier: Option<MatchResult>,
    later: Option<MatchResult>,
) -> Option<MatchResult> {
    match (earlier, later) {
        (Some(a), Some(b)) => if b.confidence.spec_below(a.confidence) {
            Some(a)
        } else {
            Some(b)
        },
        (Some(a), None) => Some(a),
        (None, b) => b,
    }
}

/// The best match of a query against several references.
pub open spec fn best_match(
    references: Seq<ReferenceView>,
    query: FingerprintView,
    config: Config,
) -> Option<MatchResult>
    decreases references.len(),
{
    if references.len() == 0 {
        None
    } else {
        better_match(
            best_match(references.drop_last(), query, config),
            reference_match(references.last().frames, query, config),
        )
    }
}

/// The contents of a list of references.
pub open spec fn reference_views(references: Seq<ReferenceFingerprint>) -> Seq<ReferenceView> {
    references.map_values(|r: ReferenceFingerprint| r@)
}

/// Matches a query against several references and returns the best match, if
/// any.
///
/// A season whose intro or credits audio changes has one reference per
/// cluster of episodes; the one that matches with the highest confidence wins.
pub fn match_against_references(
    references: &[ReferenceFingerprint],
    query: &Fingerprint,
    config: &Config,
) -> (result: Option<MatchResult>)
    ensures
        result == best_match(reference_views(references@), query@, *config),
        result matches Some(m) ==> 0 < m.confidence.num <= m.confidence.den,
{
    let mut best: Option<MatchResult> = None;
    let mut i: usize = 0;
    let ghost views = reference_views(references@);
    while i < references.len()
        invariant
            i <= references@.len(),
            views == reference_views(references@),
            best == best_match(views.take(i as int), query@, *config),
            best matches Some(m) ==> 0 < m.confidence.num <= m.confidence.den,
        decreases references@.len() - i,
    {
        let found: Option<MatchResult> = match_against_reference(&references[i], query, config);
        proof {
            assert(views.take(i + 1).drop_last() =~= views.take(i as int));
            assert(views.take(i + 1).last() == references@[i as int]@);
        }
        best = match (best, found) {
            (Some(a), Some(b)) => if b.confidence.below(&a.confidence) {
                Some(a)
            } else {
                Some(b)
            },
            (Some(a), None) => Some(a),
            (None, b) => b,
        };
        i = i + 1;
    }
    proof {
        assert(views.take(i as int) =~= views);
    }
    best
}

} // verus!
