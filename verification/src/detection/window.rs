//! One analyzed window of an episode, and the segment it matches.

use vstd::prelude::*;

use crate::audio::{AudioRegion, RegionView};
use crate::boundary;
use crate::fingerprint::constellation::{self, FingerprintView};
use crate::fingerprint::{self, peaks, Fingerprint, FingerprintKind};
use crate::matching::{self, MatchResult, ReferenceFingerprint, ReferenceView};
use crate::{Config, Segment, SegmentSource};

verus! {

/// A decoded window together with its fingerprint.
#[derive(Debug, Clone)]
pub struct AnalyzedWindow {
    pub region: AudioRegion,
    pub fp: Fingerprint,
}

/// The mathematical content of an [`AnalyzedWindow`].
#[verifier::ext_equal]
pub struct WindowView {
    pub region: RegionView,
    pub fp: FingerprintView,
}

impl View for AnalyzedWindow {
    type V = WindowView;

    open spec fn view(&self) -> WindowView {
        WindowView { region: self.region@, fp: self.fp@ }
    }
}

impl WindowView {
    /// The fingerprint belongs to the region: its first frame does not lie
    /// before the region, and frames go forward in time.
    pub open spec fn wf(self) -> bool {
        &&& i64::MIN <= self.region.offset_ns <= self.fp.time_offset_ns <= i64::MAX
        &&& 0 <= self.fp.frame_samples
        &&& 0 < self.fp.sample_rate
    }
}

/// Fingerprints a decoded region.
///
/// `spectrogram` holds the bit patterns of the magnitudes of the region's
/// samples, and `edges` the raw logarithmic band edges.
pub fn decode_and_fingerprint(
    region: AudioRegion,
    spectrogram: &[Vec<u32>],
    edges: &[(usize, usize)],
    config: &Config,
) -> (window: AnalyzedWindow)
    requires
        region.sample_rate > 0,
        forall|i: int|
            0 <= i < spectrogram@.len() ==> (#[trigger] spectrogram@[i])@.len()
                >= spectrogram@[0]@.len(),
    ensures
        window.region == region,
        window@.fp == constellation::peaks_fingerprint(
            peaks::spectrogram_peaks(peaks::spectrogram_view(spectrogram@), edges@),
            *config,
            region.offset_ns as int,
            region.sample_rate as int,
        ),
        window@.wf(),
{
    let fp: Fingerprint = fingerprint::fingerprint(&region, spectrogram, edges, config);
    AnalyzedWindow { region, fp }
}

/// Whether a credits span can be credits: long enough, and close enough to the
/// end of the file where that is known.
pub open spec fn credible_credits(
    start: int,
    end: int,
    total_duration_ns: Option<i64>,
    config: Config,
) -> bool {
    &&& end - start >= config.min_credits_ns
    &&& total_duration_ns matches Some(total) ==> total - end <= config.max_credits_tail_gap_ns
}

/// The segment that a match in a window stands for, after its edges are
/// refined: none if it became too short, nor if it is meant to be the credits
/// and cannot be.
pub open spec fn match_segment(
    m: MatchResult,
    region: RegionView,
    config: Config,
    kind: FingerprintKind,
) -> Option<Segment> {
    let (start, end) = boundary::refined(region, m.start_ns as int, m.end_ns as int);
    if end - start < config.min_segment_ns {
        None
    } else if kind == FingerprintKind::Credits && !credible_credits(
        start,
        end,
        region.total_duration_ns,
        config,
    ) {
        None
    } else {
        Some(
            Segment {
                start_ns: start as i64,
                end_ns: end as i64,
                confidence: m.confidence,
                source: SegmentSource::AudioFingerprint,
            },
        )
    }
}

/// The segment that a window matches in a set of references.
pub open spec fn window_segment(
    references: Seq<ReferenceView>,
    window: WindowView,
    config: Config,
    kind: FingerprintKind,
) -> Option<Segment> {
    match matching::best_match(references, window.fp, config) {
        Some(m) => match_segment(m, window.region, config, kind),
        None => None,
    }
}

/// A match in a well-formed window does not end before the window begins.
pub proof fn lemma_match_is_inside(references: Seq<ReferenceView>, window: WindowView, config: Config)
    requires
        window.wf(),
    ensures
        matching::best_match(references, window.fp, config) matches Some(m) ==> {
            &&& window.region.offset_ns <= m.start_ns
            &&& window.region.offset_ns <= m.end_ns
        },
    decreases references.len(),
{
    if references.len() > 0 {
        lemma_match_is_inside(references.drop_last(), window, config);
        lemma_reference_match_is_inside(references.last().frames, window, config);
    }
}

/// As [`lemma_match_is_inside`], for one reference.
proof fn lemma_reference_match_is_inside(
    reference: Map<u32, u32>,
    window: WindowView,
    config: Config,
)
    requires
        window.wf(),
    ensures
        matching::reference_match(reference, window.fp, config) matches Some(m) ==> {
            &&& window.region.offset_ns <= m.start_ns
            &&& window.region.offset_ns <= m.end_ns
        },
{
    assert forall|frame: u32| window.region.offset_ns <= #[trigger] window.fp.frame_time(
        frame,
    ) <= i64::MAX by {
        let (n, samples, rate) = (frame as int, window.fp.frame_samples, window.fp.sample_rate);
        assert(n * samples * 1_000_000_000 / rate >= 0) by (nonlinear_arith)
            requires
                n >= 0,
                samples >= 0,
                rate > 0,
        ;
    }
}

/// Matches a window against a set of references and snaps the bounds of the
/// match. An empty set means that nothing was bootstrapped yet.
pub fn match_to_segment(
    references: &[ReferenceFingerprint],
    window: &AnalyzedWindow,
    config: &Config,
    kind: FingerprintKind,
) -> (segment: Option<Segment>)
    requires
        window@.wf(),
    ensures
        segment == window_segment(
            matching::reference_views(references@),
            window@,
            *config,
            kind,
        ),
{
    proof {
        lemma_match_is_inside(matching::reference_views(references@), window@, *config);
    }
    let m: MatchResult = match matching::match_against_references(references, &window.fp, config) {
        Some(m) => m,
        None => return None,
    };
    let (start, end) = boundary::refine(&window.region, m.start_ns, m.end_ns);
    let length: i128 = end as i128 - start as i128;
    if length < config.min_segment_ns as i128 {
        return None;
    }
    if kind == FingerprintKind::Credits {
        // Too short for end credits, or somewhere in the middle of the scan
        // window instead of at the tail of the file.
        if length < config.min_credits_ns as i128 {
            return None;
        }
        if let Some(total) = window.region.total_duration_ns {
            if total as i128 - end as i128 > config.max_credits_tail_gap_ns as i128 {
                return None;
            }
        }
    }
    Some(
        Segment {
            start_ns: start,
            end_ns: end,
            confidence: m.confidence,
            source: SegmentSource::AudioFingerprint,
        },
    )
}

} // verus!
