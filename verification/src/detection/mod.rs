//! Detection over episodes and seasons.
//!
//! A season runs through four steps. The caller decodes and transforms the
//! intro and credits windows of every episode; [`match_analyses`] bootstraps
//! references from them and matches every window; the caller runs the
//! black-frame scans that the result asks for; [`SeasonMatch::finish`] puts the
//! markers together. A single new episode goes through
//! [`detect_single_episode`] instead, with references from an earlier run.

pub mod bootstrap;
pub mod fallback;
pub mod laws;
pub mod persist;
pub mod reporting;
pub mod themes;
pub mod window;

pub use bootstrap::{adaptive_bootstrap, BOOTSTRAP_SIZE, MIN_REFERENCE_HASHES};
pub use fallback::{credits_blackframe_fallback, Fallback, FallbackStep};
pub use persist::{detect_and_persist, PersistPlan, StoreStep};
pub use window::{match_to_segment, AnalyzedWindow};

use vstd::prelude::*;
use vstd::string::StringExecFns;

use crate::decimal;
use crate::fingerprint::constellation::FingerprintView;
use crate::fingerprint::{Fingerprint, FingerprintKind};
use crate::matching::{self, reference, ReferenceFingerprint, ReferenceView};
use crate::{Config, Segment, SegmentMarkers};
use window::WindowView;

verus! {

/// One episode on disk, addressable by a stable id and a number within its
/// season.
#[derive(Debug, Clone)]
pub struct EpisodeFile<P> {
    pub id: String,
    pub path: P,
    pub episode_number: u32,
}

/// A season's worth of episodes to scan together.
#[derive(Debug, Clone)]
pub struct Season<P> {
    pub series_id: String,
    pub season_number: u32,
    pub episodes: Vec<EpisodeFile<P>>,
}

/// What decoding and fingerprinting an episode gave.
#[derive(Debug, Clone)]
pub struct EpisodeAnalysis<P> {
    pub episode_id: String,
    pub episode_number: u32,
    pub path: P,
    /// The window at the head of the file, if it could be decoded.
    pub intro: Option<AnalyzedWindow>,
    /// The window at the tail of the file, if it could be decoded.
    pub credits: Option<AnalyzedWindow>,
}

/// The result of a detection.
#[derive(Debug, Clone)]
pub struct DetectionResult {
    pub markers: Vec<SegmentMarkers>,
    pub intro_references: Vec<ReferenceFingerprint>,
    pub credits_references: Vec<ReferenceFingerprint>,
}

/// The references of a season, for callers that keep them and match single
/// files later on.
#[derive(Debug, Clone)]
pub struct SeasonReferences {
    pub intro: Vec<ReferenceFingerprint>,
    pub credits: Vec<ReferenceFingerprint>,
}

/// What the audio of an episode matched, and the scan to run for its credits.
#[derive(Debug, Clone)]
pub struct AudioMatch {
    pub intro: Option<Segment>,
    pub credits: Option<Segment>,
    /// The scan to run, if the credits were not found and there is one.
    pub fallback: Option<Fallback>,
}

/// The matches of one episode of a season.
#[derive(Debug, Clone)]
pub struct EpisodeMatch {
    pub episode_id: String,
    pub audio: AudioMatch,
}

/// The matches of a whole season.
#[derive(Debug, Clone)]
pub struct SeasonMatch {
    pub episodes: Vec<EpisodeMatch>,
    pub intro_references: Vec<ReferenceFingerprint>,
    pub credits_references: Vec<ReferenceFingerprint>,
}

/// A window that is missing, or well-formed.
pub open spec fn window_wf(window: Option<WindowView>) -> bool {
    window matches Some(w) ==> w.wf()
}

impl<P> EpisodeAnalysis<P> {
    /// Both windows are well-formed.
    pub open spec fn wf(self) -> bool {
        &&& window_wf(fallback::window_view(self.intro))
        &&& window_wf(fallback::window_view(self.credits))
    }
}

/// The segment that a window, if there is one, matches.
pub open spec fn found_segment(
    references: Seq<ReferenceView>,
    window: Option<WindowView>,
    config: Config,
    kind: FingerprintKind,
) -> Option<Segment> {
    match window {
        Some(w) => window::window_segment(references, w, config, kind),
        None => None,
    }
}

/// `plan` is the scan to run for credits that the audio did (or did not) find.
pub open spec fn planned(
    plan: Option<Fallback>,
    found: Option<Segment>,
    window: Option<WindowView>,
    config: Config,
) -> bool {
    match plan {
        Some(p) => {
            &&& found is None
            &&& fallback::scannable(window, config) == Some(p.total_duration_ns)
            &&& fallback::configured(
                p.options,
                config,
                fallback::accelerator(config.blackframe_hwaccel),
            )
        },
        None => found is Some || fallback::scannable(window, config) is None,
    }
}

/// `audio` is what two windows match in two sets of references.
pub open spec fn is_audio_match(
    audio: AudioMatch,
    intro_references: Seq<ReferenceView>,
    credits_references: Seq<ReferenceView>,
    intro: Option<WindowView>,
    credits: Option<WindowView>,
    config: Config,
) -> bool {
    &&& audio.intro == found_segment(intro_references, intro, config, FingerprintKind::Intro)
    &&& audio.credits == found_segment(
        credits_references,
        credits,
        config,
        FingerprintKind::Credits,
    )
    &&& planned(audio.fallback, audio.credits, credits, config)
}

/// Matches the windows of one episode.
fn match_windows(
    intro_references: &[ReferenceFingerprint],
    credits_references: &[ReferenceFingerprint],
    intro: &Option<AnalyzedWindow>,
    credits: &Option<AnalyzedWindow>,
    config: &Config,
) -> (audio: AudioMatch)
    requires
        window_wf(fallback::window_view(*intro)),
        window_wf(fallback::window_view(*credits)),
    ensures
        is_audio_match(
            audio,
            matching::reference_views(intro_references@),
            matching::reference_views(credits_references@),
            fallback::window_view(*intro),
            fallback::window_view(*credits),
            *config,
        ),
{
    let intro_found: Option<Segment> = match intro {
        Some(w) => match_to_segment(intro_references, w, config, FingerprintKind::Intro),
        None => None,
    };
    let credits_found: Option<Segment> = match credits {
        Some(w) => match_to_segment(credits_references, w, config, FingerprintKind::Credits),
        None => None,
    };
    let plan: Option<Fallback> = if credits_found.is_some() {
        None
    } else {
        credits_blackframe_fallback(credits, config)
    };
    AudioMatch { intro: intro_found, credits: credits_found, fallback: plan }
}

/// The credits of an episode: those of the audio, or those that the scan found
/// if one was to be run.
pub open spec fn final_credits(audio: AudioMatch, scanned: Option<Segment>) -> Option<Segment> {
    if audio.credits is Some {
        audio.credits
    } else if audio.fallback is Some {
        scanned
    } else {
        None
    }
}

impl AudioMatch {
    /// Computes [`final_credits`].
    fn settled_credits(&self, scanned: Option<Segment>) -> (credits: Option<Segment>)
        ensures
            credits == final_credits(*self, scanned),
    {
        if self.credits.is_some() {
            self.credits
        } else if self.fallback.is_some() {
            scanned
        } else {
            None
        }
    }

    /// Puts the markers of an episode together. `scanned` is what the scan
    /// that was asked for found.
    pub fn finish(self, episode_id: String, scanned: Option<Segment>) -> (markers: SegmentMarkers)
        ensures
            markers.episode_id@ == episode_id@,
            markers.intro == self.intro,
            markers.credits == final_credits(self, scanned),
    {
        let credits: Option<Segment> = self.settled_credits(scanned);
        SegmentMarkers { episode_id, intro: self.intro, credits }
    }
}

/// The content of a window, if there are references to match it against.
pub open spec fn wanted(
    references: Seq<ReferenceView>,
    window: Option<AnalyzedWindow>,
) -> Option<WindowView> {
    if references.len() == 0 {
        None
    } else {
        fallback::window_view(window)
    }
}

/// Matches a single episode against references from an earlier run.
///
/// Each window can have several references, as in an anime that changes its
/// opening on the way; the one that matches with the highest confidence counts.
/// No references mean that nothing was bootstrapped yet: the window is then
/// reported as not found, and a caller need not decode it.
pub fn detect_single_episode(
    intro_references: &[ReferenceFingerprint],
    credits_references: &[ReferenceFingerprint],
    intro: Option<AnalyzedWindow>,
    credits: Option<AnalyzedWindow>,
    config: &Config,
) -> (audio: AudioMatch)
    requires
        window_wf(fallback::window_view(intro)),
        window_wf(fallback::window_view(credits)),
    ensures
        is_audio_match(
            audio,
            matching::reference_views(intro_references@),
            matching::reference_views(credits_references@),
            wanted(matching::reference_views(intro_references@), intro),
            wanted(matching::reference_views(credits_references@), credits),
            *config,
        ),
{
    let intro_window: Option<AnalyzedWindow> = if intro_references.len() == 0 {
        None
    } else {
        intro
    };
    let credits_window: Option<AnalyzedWindow> = if credits_references.len() == 0 {
        None
    } else {
        credits
    };
    match_windows(intro_references, credits_references, &intro_window, &credits_window, config)
}

/// The window of an episode that covers the given part of it.
pub open spec fn window_of<P>(print: EpisodeAnalysis<P>, kind: FingerprintKind) -> Option<
    WindowView,
> {
    match kind {
        FingerprintKind::Intro => fallback::window_view(print.intro),
        FingerprintKind::Credits => fallback::window_view(print.credits),
    }
}

/// The fingerprints of one kind of window, of the episodes that have one.
pub open spec fn window_prints<P>(prints: Seq<EpisodeAnalysis<P>>, kind: FingerprintKind) -> Seq<
    FingerprintView,
>
    decreases prints.len(),
{
    if prints.len() == 0 {
        Seq::empty()
    } else {
        let front = window_prints(prints.drop_last(), kind);
        match window_of(prints.last(), kind) {
            Some(w) => front.push(w.fp),
            None => front,
        }
    }
}

/// Computes [`window_prints`].
fn collect_prints<P>(prints: &[EpisodeAnalysis<P>], kind: FingerprintKind) -> (fps: Vec<
    &Fingerprint,
>)
    ensures
        reference::fingerprint_views(fps@) == window_prints(prints@, kind),
{
    let mut fps: Vec<&Fingerprint> = Vec::new();
    let mut i: usize = 0;
    assert(reference::fingerprint_views(fps@) =~= Seq::empty());
    while i < prints.len()
        invariant
            i <= prints@.len(),
            reference::fingerprint_views(fps@) == window_prints(prints@.take(i as int), kind),
        decreases prints@.len() - i,
    {
        proof {
            assert(prints@.take(i + 1).drop_last() =~= prints@.take(i as int));
            assert(prints@.take(i + 1).last() == prints@[i as int]);
        }
        let window: &Option<AnalyzedWindow> = match kind {
            FingerprintKind::Intro => &prints[i].intro,
            FingerprintKind::Credits => &prints[i].credits,
        };
        match window {
            Some(w) => {
                let ghost before = fps@;
                fps.push(&w.fp);
                assert(reference::fingerprint_views(fps@) =~= reference::fingerprint_views(
                    before,
                ).push(w@.fp));
            },
            None => {},
        }
        i = i + 1;
    }
    assert(prints@.take(i as int) =~= prints@);
    fps
}

/// The references that the windows of a season bootstrap.
pub open spec fn season_references<P>(
    prints: Seq<EpisodeAnalysis<P>>,
    kind: FingerprintKind,
    config: Config,
) -> Seq<ReferenceView> {
    bootstrap::adaptive_references(window_prints(prints, kind), config)
}

/// `matched` is what the episodes of a season match in the references that
/// they bootstrap themselves.
pub open spec fn is_season_match<P>(
    matched: SeasonMatch,
    prints: Seq<EpisodeAnalysis<P>>,
    config: Config,
) -> bool {
    let intro = season_references(prints, FingerprintKind::Intro, config);
    let credits = season_references(prints, FingerprintKind::Credits, config);
    &&& matching::reference_views(matched.intro_references@) == intro
    &&& matching::reference_views(matched.credits_references@) == credits
    &&& matched.episodes@.len() == prints.len()
    &&& forall|i: int|
        #![trigger matched.episodes@[i]]
        0 <= i < prints.len() ==> {
            &&& matched.episodes@[i].episode_id@ == prints[i].episode_id@
            &&& is_audio_match(
                matched.episodes@[i].audio,
                intro,
                credits,
                window_of(prints[i], FingerprintKind::Intro),
                window_of(prints[i], FingerprintKind::Credits),
                config,
            )
        }
}

/// Bootstraps the references of a season from its windows and matches every
/// window against them.
pub fn match_analyses<P>(prints: &[EpisodeAnalysis<P>], config: &Config) -> (matched: SeasonMatch)
    requires
        forall|i: int| 0 <= i < prints@.len() ==> (#[trigger] prints@[i]).wf(),
    ensures
        is_season_match(matched, prints@, *config),
{
    let intro_fps: Vec<&Fingerprint> = collect_prints(prints, FingerprintKind::Intro);
    let credits_fps: Vec<&Fingerprint> = collect_prints(prints, FingerprintKind::Credits);
    let intro_references: Vec<ReferenceFingerprint> = adaptive_bootstrap(
        intro_fps.as_slice(),
        config,
    );
    let credits_references: Vec<ReferenceFingerprint> = adaptive_bootstrap(
        credits_fps.as_slice(),
        config,
    );
    let mut episodes: Vec<EpisodeMatch> = Vec::new();
    let mut i: usize = 0;
    while i < prints.len()
        invariant
            i <= prints@.len(),
            episodes@.len() == i,
            forall|j: int| 0 <= j < prints@.len() ==> (#[trigger] prints@[j]).wf(),
            forall|j: int|
                #![trigger episodes@[j]]
                0 <= j < i ==> {
                    &&& episodes@[j].episode_id@ == prints@[j].episode_id@
                    &&& is_audio_match(
                        episodes@[j].audio,
                        matching::reference_views(intro_references@),
                        matching::reference_views(credits_references@),
                        window_of(prints@[j], FingerprintKind::Intro),
                        window_of(prints@[j], FingerprintKind::Credits),
                        *config,
                    )
                },
        decreases prints@.len() - i,
    {
        let print: &EpisodeAnalysis<P> = &prints[i];
        assert(prints@[i as int].wf());
        let audio: AudioMatch = match_windows(
            intro_references.as_slice(),
            credits_references.as_slice(),
            &print.intro,
            &print.credits,
            config,
        );
        episodes.push(EpisodeMatch { episode_id: print.episode_id.clone(), audio });
        i = i + 1;
    }
    SeasonMatch { episodes, intro_references, credits_references }
}

/// `result` holds the markers of a matched season, given what the scans found.
pub open spec fn is_finished(
    result: DetectionResult,
    matched: SeasonMatch,
    scanned: Seq<Option<Segment>>,
) -> bool {
    &&& result.intro_references == matched.intro_references
    &&& result.credits_references == matched.credits_references
    &&& result.markers@.len() == matched.episodes@.len()
    &&& forall|i: int|
        #![trigger result.markers@[i]]
        0 <= i < matched.episodes@.len() ==> {
            &&& result.markers@[i].episode_id@ == matched.episodes@[i].episode_id@
            &&& result.markers@[i].intro == matched.episodes@[i].audio.intro
            &&& result.markers@[i].credits == final_credits(
                matched.episodes@[i].audio,
                scanned[i],
            )
        }
}

impl SeasonMatch {
    /// Puts the markers of a season together. `scanned` holds, per episode,
    /// what the scan that was asked for found.
    pub fn finish(self, scanned: &[Option<Segment>]) -> (result: DetectionResult)
        requires
            scanned@.len() == self.episodes@.len(),
        ensures
            is_finished(result, self, scanned@),
    {
        let mut markers: Vec<SegmentMarkers> = Vec::new();
        let mut i: usize = 0;
        while i < self.episodes.len()
            invariant
                i <= self.episodes@.len() == scanned@.len(),
                markers@.len() == i,
                forall|j: int|
                    #![trigger markers@[j]]
                    0 <= j < i ==> {
                        &&& markers@[j].episode_id@ == self.episodes@[j].episode_id@
                        &&& markers@[j].intro == self.episodes@[j].audio.intro
                        &&& markers@[j].credits == final_credits(
                            self.episodes@[j].audio,
                            scanned@[j],
                        )
                    },
            decreases self.episodes@.len() - i,
        {
            let audio: &AudioMatch = &self.episodes[i].audio;
            markers.push(
                SegmentMarkers {
                    episode_id: self.episodes[i].episode_id.clone(),
                    intro: audio.intro,
                    credits: audio.settled_credits(scanned[i]),
                },
            );
            i = i + 1;
        }
        DetectionResult {
            markers,
            intro_references: self.intro_references,
            credits_references: self.credits_references,
        }
    }
}

/// Detects intros and credits across a season.
///
/// `prints` are the analyses of the season's episodes, in order. The references
/// are bootstrapped from groups of episodes that share content, again and again
/// to catch a change of theme on the way, and every episode is matched against
/// the whole set. A season without episodes gives nothing.
pub fn detect_season<P>(season: &Season<P>, prints: &[EpisodeAnalysis<P>], config: &Config) -> (matched:
    SeasonMatch)
    requires
        prints@.len() == season.episodes@.len(),
        forall|i: int| 0 <= i < prints@.len() ==> (#[trigger] prints@[i]).wf(),
    ensures
        is_season_match(matched, prints@, *config),
        season.episodes@.len() == 0 ==> matched.episodes@.len() == 0
            && matched.intro_references@.len() == 0 && matched.credits_references@.len() == 0,
{
    if season.episodes.len() == 0 {
        let none: SeasonMatch = SeasonMatch {
            episodes: Vec::new(),
            intro_references: Vec::new(),
            credits_references: Vec::new(),
        };
        proof {
            assert(matching::reference_views(none.intro_references@) =~= Seq::empty());
        }
        return none;
    }
    match_analyses(prints, config)
}

/// Records what decoding an episode gave. A window that failed to decode is
/// left out; it does not fail the episode, let alone the season.
pub fn analyze_episode<P: Clone, E>(
    episode: &EpisodeFile<P>,
    intro: Result<AnalyzedWindow, E>,
    credits: Result<AnalyzedWindow, E>,
) -> (analysis: EpisodeAnalysis<P>)
    ensures
        analysis.episode_id@ == episode.id@,
        analysis.episode_number == episode.episode_number,
        cloned(episode.path, analysis.path),
        analysis.intro == (match intro {
            Ok(w) => Some(w),
            Err(_) => None,
        }),
        analysis.credits == (match credits {
            Ok(w) => Some(w),
            Err(_) => None,
        }),
{
    EpisodeAnalysis {
        episode_id: episode.id.clone(),
        episode_number: episode.episode_number,
        path: episode.path.clone(),
        intro: match intro {
            Ok(w) => Some(w),
            Err(_) => None,
        },
        credits: match credits {
            Ok(w) => Some(w),
            Err(_) => None,
        },
    }
}

/// Gives the files of a bootstrap run ids and numbers.
pub fn bootstrap_episodes<P>(paths: Vec<P>) -> (episodes: Vec<EpisodeFile<P>>)
    requires
        paths@.len() <= u32::MAX,
    ensures
        episodes@.len() == paths@.len(),
        forall|i: int|
            #![trigger episodes@[i]]
            0 <= i < paths@.len() ==> {
                &&& episodes@[i].id@ == "bootstrap-"@ + decimal::decimal(i as nat)
                &&& episodes@[i].episode_number == i + 1
                &&& episodes@[i].path == paths@[i]
            },
{
    let mut episodes: Vec<EpisodeFile<P>> = Vec::new();
    let mut i: u32 = 0;
    for path in iter: paths
        invariant
            iter.seq() == paths@,
            paths@.len() <= u32::MAX,
            i == iter.index(),
            episodes@.len() == i,
            forall|j: int|
                #![trigger episodes@[j]]
                0 <= j < i ==> {
                    &&& episodes@[j].id@ == "bootstrap-"@ + decimal::decimal(j as nat)
                    &&& episodes@[j].episode_number == j + 1
                    &&& episodes@[j].path == paths@[j]
                },
    {
        let mut id: String = String::new();
        id.append("bootstrap-");
        decimal::push_decimal(&mut id, i as u64);
        assert(id@ =~= "bootstrap-"@ + decimal::decimal(i as nat));
        i = i + 1;
        episodes.push(EpisodeFile { id, path, episode_number: i });
    }
    episodes
}

/// Builds the references of a season without matching any episode. The caller
/// keeps them and matches files one by one as they arrive.
///
/// There are none where fewer than three files were given, nor for a window
/// that fewer than three of them could decode: not yet ready is the same as no
/// references.
pub fn bootstrap_season<P>(prints: &[EpisodeAnalysis<P>], config: &Config) -> (references:
    SeasonReferences)
    ensures
        matching::reference_views(references.intro@) == season_references(
            prints@,
            FingerprintKind::Intro,
            *config,
        ),
        matching::reference_views(references.credits@) == season_references(
            prints@,
            FingerprintKind::Credits,
            *config,
        ),
{
    let intro_fps: Vec<&Fingerprint> = collect_prints(prints, FingerprintKind::Intro);
    let credits_fps: Vec<&Fingerprint> = collect_prints(prints, FingerprintKind::Credits);
    SeasonReferences {
        intro: adaptive_bootstrap(intro_fps.as_slice(), config),
        credits: adaptive_bootstrap(credits_fps.as_slice(), config),
    }
}

} // verus!
