//! Decisions of the HTTP service.
//!
//! - `GET  /api/v1/health`
//! - `POST /api/v1/detect`, with `{"episode_id","file_path","series","season"}`
//! - `GET  /api/v1/series/{series}/season/{season}/markers`
//! - `GET  /api/v1/episodes/{episode_id}/markers`

use vstd::prelude::*;

use crate::detection::{self, AnalyzedWindow, AudioMatch};
use crate::matching::ReferenceFingerprint;
use crate::{Config, Segment, SegmentMarkers};

verus! {

/// What went wrong with a request, in words. Every failure is the server's.
#[derive(Debug, Clone)]
pub struct ApiError {
    pub message: String,
}

impl ApiError {
    /// The status code of the response.
    pub fn status(&self) -> (code: u16)
        ensures
            code == 500,
    {
        500
    }
}

/// How a request to detect the markers of an episode is served.
#[derive(Debug, Clone, Copy, PartialEq, Eq, Structural)]
pub struct DetectPlan {
    /// Whether the season has been bootstrapped. If not, the episode is not
    /// looked at and its markers are empty.
    pub reference_available: bool,
    /// Whether to decode the intro window.
    pub decode_intro: bool,
    /// Whether to decode the credits window.
    pub decode_credits: bool,
}

/// Decides how a request is served, given the references of the season.
pub fn detect_episode(
    intro_references: &[ReferenceFingerprint],
    credits_references: &[ReferenceFingerprint],
) -> (plan: DetectPlan)
    ensures
        plan.reference_available == (intro_references@.len() > 0 || credits_references@.len() > 0),
        plan.decode_intro == (intro_references@.len() > 0),
        plan.decode_credits == (credits_references@.len() > 0),
{
    let decode_intro: bool = intro_references.len() > 0;
    let decode_credits: bool = credits_references.len() > 0;
    DetectPlan { reference_available: decode_intro || decode_credits, decode_intro, decode_credits }
}

/// The markers of an episode whose season has not been bootstrapped.
pub fn no_markers(episode_id: &str) -> (markers: SegmentMarkers)
    ensures
        markers.episode_id@ == episode_id@,
        markers.intro is None,
        markers.credits is None,
{
    SegmentMarkers { episode_id: episode_id.to_owned(), intro: None, credits: None }
}

/// Answering a request for a season that has not been bootstrapped with empty
/// markers is no shortcut: matching the episode would find nothing either.
pub proof fn law_unready_season_finds_nothing(
    audio: AudioMatch,
    intro: Option<AnalyzedWindow>,
    credits: Option<AnalyzedWindow>,
    scanned: Option<Segment>,
    config: Config,
)
    requires
        detection::is_audio_match(
            audio,
            Seq::empty(),
            Seq::empty(),
            detection::wanted(Seq::empty(), intro),
            detection::wanted(Seq::empty(), credits),
            config,
        ),
    ensures
        audio.intro is None,
        detection::final_credits(audio, scanned) is None,
{
}

} // verus!
