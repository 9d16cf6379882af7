//! What a detection run leaves in the store.
//!
//! The fingerprints of every window are written first, so that a later run can
//! skip decoding. A season that is too small to bootstrap a reference stops
//! there; otherwise the markers follow, and then the references.

use vstd::prelude::*;

use super::{DetectionResult, EpisodeAnalysis, Season, SeasonMatch, BOOTSTRAP_SIZE};
use crate::fingerprint::FingerprintKind;
use crate::{Config, SegmentMarkers};

verus! {

/// One write to the store.
#[derive(Debug, Clone, Copy, PartialEq, Eq, Structural)]
pub enum StoreStep {
    /// The fingerprint of one window of the episode at an index.
    Fingerprint { episode: usize, episode_number: u32, kind: FingerprintKind },
    /// The markers at an index.
    Markers { index: usize },
    /// All references of a kind.
    References { kind: FingerprintKind },
}

/// How a run over a season goes on once its fingerprints are written.
#[derive(Debug, Clone)]
pub enum PersistPlan {
    /// There are too few episodes for a reference: nothing more is written.
    FingerprintsOnly(DetectionResult),
    /// The season was matched; the scans that it asks for come next.
    Matched(SeasonMatch),
}

/// The fingerprints to write for one episode: the intro window first.
pub open spec fn episode_steps<P>(print: EpisodeAnalysis<P>, episode: int) -> Seq<StoreStep> {
    let intro = StoreStep::Fingerprint {
        episode: episode as usize,
        episode_number: print.episode_number,
        kind: FingerprintKind::Intro,
    };
    let credits = StoreStep::Fingerprint {
        episode: episode as usize,
        episode_number: print.episode_number,
        kind: FingerprintKind::Credits,
    };
    match (print.intro, print.credits) {
        (Some(_), Some(_)) => seq![intro, credits],
        (Some(_), None) => seq![intro],
        (None, Some(_)) => seq![credits],
        (None, None) => Seq::empty(),
    }
}

/// The fingerprints to write for a season, episode by episode.
pub open spec fn fingerprint_steps<P>(prints: Seq<EpisodeAnalysis<P>>) -> Seq<StoreStep>
    decreases prints.len(),
{
    if prints.len() == 0 {
        Seq::empty()
    } else {
        fingerprint_steps(prints.drop_last()) + episode_steps(prints.last(), prints.len() - 1)
    }
}

/// Lists the fingerprints to write for a season: one per window that was
/// decoded.
pub fn persist_episode_fingerprints<P>(prints: &[EpisodeAnalysis<P>]) -> (steps: Vec<StoreStep>)
    ensures
        steps@ == fingerprint_steps(prints@),
{
    let mut steps: Vec<StoreStep> = Vec::new();
    let mut i: usize = 0;
    while i < prints.len()
        invariant
            i <= prints@.len(),
            steps@ == fingerprint_steps(prints@.take(i as int)),
        decreases prints@.len() - i,
    {
        let print: &EpisodeAnalysis<P> = &prints[i];
        let ghost before = steps@;
        proof {
            assert(prints@.take(i + 1).drop_last() =~= prints@.take(i as int));
            assert(prints@.take(i + 1).last() == prints@[i as int]);
        }
        if print.intro.is_some() {
            steps.push(
                StoreStep::Fingerprint {
                    episode: i,
                    episode_number: print.episode_number,
                    kind: FingerprintKind::Intro,
                },
            );
        }
        if print.credits.is_some() {
            steps.push(
                StoreStep::Fingerprint {
                    episode: i,
                    episode_number: print.episode_number,
                    kind: FingerprintKind::Credits,
                },
            );
        }
        assert(steps@ =~= before + episode_steps(prints@[i as int], i as int));
        i = i + 1;
    }
    assert(prints@.take(i as int) =~= prints@);
    steps
}

/// `result` holds empty markers for every episode, and no references.
pub open spec fn nothing_found<P>(
    result: DetectionResult,
    prints: Seq<EpisodeAnalysis<P>>,
) -> bool {
    &&& result.intro_references@.len() == 0
    &&& result.credits_references@.len() == 0
    &&& result.markers@.len() == prints.len()
    &&& forall|i: int|
        #![trigger result.markers@[i]]
        0 <= i < prints.len() ==> {
            &&& result.markers@[i].episode_id@ == prints[i].episode_id@
            &&& result.markers@[i].intro is None
            &&& result.markers@[i].credits is None
        }
}

/// Decides how a run that keeps its results goes on after the fingerprints of
/// the season are written.
///
/// A season with fewer episodes than a bootstrap needs gets empty markers and
/// no references, neither of which is written: a missing reference means that
/// the season is not yet ready.
pub fn detect_and_persist<P>(
    season: &Season<P>,
    prints: &[EpisodeAnalysis<P>],
    config: &Config,
) -> (plan: PersistPlan)
    requires
        prints@.len() == season.episodes@.len(),
        forall|i: int| 0 <= i < prints@.len() ==> (#[trigger] prints@[i]).wf(),
    ensures
        match plan {
            PersistPlan::FingerprintsOnly(result) => {
                &&& season.episodes@.len() < BOOTSTRAP_SIZE
                &&& nothing_found(result, prints@)
            },
            PersistPlan::Matched(matched) => {
                &&& season.episodes@.len() >= BOOTSTRAP_SIZE
                &&& super::is_season_match(matched, prints@, *config)
            },
        },
{
    if season.episodes.len() >= BOOTSTRAP_SIZE {
        return PersistPlan::Matched(super::match_analyses(prints, config));
    }
    let mut markers: Vec<SegmentMarkers> = Vec::new();
    let mut i: usize = 0;
    while i < prints.len()
        invariant
            i <= prints@.len(),
            markers@.len() == i,
            forall|j: int|
                #![trigger markers@[j]]
                0 <= j < i ==> {
                    &&& markers@[j].episode_id@ == prints@[j].episode_id@
                    &&& markers@[j].intro is None
                    &&& markers@[j].credits is None
                },
        decreases prints@.len() - i,
    {
        markers.push(
            SegmentMarkers {
                episode_id: prints[i].episode_id.clone(),
                intro: None,
                credits: None,
            },
        );
        i = i + 1;
    }
    PersistPlan::FingerprintsOnly(
        DetectionResult {
            markers,
            intro_references: Vec::new(),
            credits_references: Vec::new(),
        },
    )
}

/// The writes that follow a matched season: every marker, then the intro
/// references, then the credits references.
pub open spec fn result_steps(markers: nat) -> Seq<StoreStep> {
    Seq::new(markers, |i: int| StoreStep::Markers { index: i as usize }) + seq![
        StoreStep::References { kind: FingerprintKind::Intro },
        StoreStep::References { kind: FingerprintKind::Credits },
    ]
}

/// Lists the writes that follow a matched season.
pub fn persist_result(result: &DetectionResult) -> (steps: Vec<StoreStep>)
    ensures
        steps@ == result_steps(result.markers@.len()),
{
    let mut steps: Vec<StoreStep> = Vec::new();
    let mut i: usize = 0;
    while i < result.markers.len()
        invariant
            i <= result.markers@.len(),
            steps@ == Seq::new(i as nat, |j: int| StoreStep::Markers { index: j as usize }),
        decreases result.markers@.len() - i,
    {
        steps.push(StoreStep::Markers { index: i });
        i = i + 1;
        assert(steps@ =~= Seq::new(i as nat, |j: int| StoreStep::Markers { index: j as usize }));
    }
    steps.push(StoreStep::References { kind: FingerprintKind::Intro });
    steps.push(StoreStep::References { kind: FingerprintKind::Credits });
    assert(steps@ =~= result_steps(result.markers@.len()));
    steps
}

/// The writes that follow the scan of a whole season: every marker, and the
/// references too if there are enough episodes for any. References of an
/// earlier scan are not replaced by none.
pub open spec fn scan_steps(episodes: nat, markers: nat) -> Seq<StoreStep> {
    if episodes < BOOTSTRAP_SIZE {
        Seq::new(markers, |i: int| StoreStep::Markers { index: i as usize })
    } else {
        result_steps(markers)
    }
}

/// Lists the writes that follow the scan of a whole season.
pub fn persist_scan<P>(season: &Season<P>, result: &DetectionResult) -> (steps: Vec<StoreStep>)
    ensures
        steps@ == scan_steps(season.episodes@.len(), result.markers@.len()),
{
    let mut steps: Vec<StoreStep> = persist_result(result);
    if season.episodes.len() < BOOTSTRAP_SIZE {
        steps.truncate(result.markers.len());
        assert(steps@ =~= scan_steps(season.episodes@.len(), result.markers@.len()));
    }
    steps
}

} // verus!
