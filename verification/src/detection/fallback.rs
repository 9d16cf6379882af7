//! Credits by black frames, for windows in which no credits audio matched.
//!
//! The scan itself is run by the caller. It asks for a plan, runs the scan that
//! the plan describes, and reports what the tool did; a failed scan with a
//! hardware accelerator is run once more without it.

use vstd::prelude::*;

use super::window::{AnalyzedWindow, WindowView};
use crate::blackframe::{self, BlackSegment, ScanOptions, ScanOutcome};
use crate::{Config, Ratio, Segment, SegmentSource};

verus! {

/// A scan for credits that is to be run.
#[derive(Debug, Clone)]
pub struct Fallback {
    /// Length of the file to scan.
    pub total_duration_ns: i64,
    /// Settings of the scan.
    pub options: ScanOptions,
}

/// What follows the report of a scan.
#[derive(Debug, Clone)]
pub enum FallbackStep {
    /// Run this scan.
    Scan(Fallback),
    /// The search is over, with these credits.
    Done(Option<Segment>),
}

/// The settings of a scan are those of the configuration, with the given
/// accelerator.
pub open spec fn configured(
    options: ScanOptions,
    config: Config,
    hwaccel: Option<Seq<char>>,
) -> bool {
    &&& options.scan_ns == config.blackframe_scan_ns
    &&& options.min_black_ns == config.blackframe_min_ns
    &&& options.pix_threshold_billionths == config.blackframe_pix_threshold_billionths
    &&& options.sample_fps_billionths == config.blackframe_fps_billionths
    &&& options.timeout_seconds == config.blackframe_timeout_seconds
    &&& accelerator(options.hwaccel) == hwaccel
}

/// The name of an accelerator, if there is one.
pub open spec fn accelerator(hwaccel: Option<String>) -> Option<Seq<char>> {
    match hwaccel {
        Some(name) => Some(name@),
        None => None,
    }
}

/// The length of the file that a credits window belongs to, if the fallback is
/// enabled and the length is known.
pub open spec fn scannable(window: Option<WindowView>, config: Config) -> Option<i64> {
    if !config.blackframe_fallback {
        None
    } else {
        match window {
            Some(w) => w.region.total_duration_ns,
            None => None,
        }
    }
}

/// The content of a window that may be missing.
pub open spec fn window_view(window: Option<AnalyzedWindow>) -> Option<WindowView> {
    match window {
        Some(w) => Some(w@),
        None => None,
    }
}

/// Plans the search for the credits of a file in which no credits audio
/// matched. There is nothing to scan where the fallback is disabled, where the
/// window could not be decoded, or where the length of the file is unknown.
pub fn credits_blackframe_fallback(window: &Option<AnalyzedWindow>, config: &Config) -> (plan:
    Option<Fallback>)
    ensures
        match plan {
            Some(p) => {
                &&& scannable(window_view(*window), *config) == Some(p.total_duration_ns)
                &&& configured(p.options, *config, accelerator(config.blackframe_hwaccel))
            },
            None => scannable(window_view(*window), *config) is None,
        },
{
    if !config.blackframe_fallback {
        return None;
    }
    let total: i64 = match window {
        Some(w) => match w.region.total_duration_ns {
            Some(total) => total,
            None => return None,
        },
        None => return None,
    };
    Some(
        Fallback {
            total_duration_ns: total,
            options: ScanOptions {
                scan_ns: config.blackframe_scan_ns,
                min_black_ns: config.blackframe_min_ns,
                pix_threshold_billionths: config.blackframe_pix_threshold_billionths,
                sample_fps_billionths: config.blackframe_fps_billionths,
                hwaccel: match &config.blackframe_hwaccel {
                    Some(name) => Some(name.clone()),
                    None => None,
                },
                timeout_seconds: config.blackframe_timeout_seconds,
            },
        },
    )
}

/// The credits that black stretches mark: from the start of the longest one
/// that counts to the end of the file, if that is long enough. A heuristic has
/// no measure of its own confidence, so the score is fixed.
pub open spec fn blackframe_segment(
    segments: Seq<BlackSegment>,
    total_duration_ns: i64,
    config: Config,
) -> Option<Segment> {
    match blackframe::credits_start(segments, config.blackframe_min_ns as int) {
        Some(start) => if total_duration_ns - start < config.min_credits_ns {
            None
        } else {
            Some(
                Segment {
                    start_ns: start,
                    end_ns: total_duration_ns,
                    confidence: Ratio { num: 1, den: 2 },
                    source: SegmentSource::Blackframe,
                },
            )
        },
        None => None,
    }
}

/// Computes [`blackframe_segment`].
pub fn credits_segment(segments: &[BlackSegment], total_duration_ns: i64, config: &Config) -> (found:
    Option<Segment>)
    ensures
        found == blackframe_segment(segments@, total_duration_ns, *config),
{
    match blackframe::pick_credits_start(segments, config.blackframe_min_ns) {
        Some(start) => {
            if (total_duration_ns as i128) - (start as i128) < config.min_credits_ns as i128 {
                None
            } else {
                Some(
                    Segment {
                        start_ns: start,
                        end_ns: total_duration_ns,
                        confidence: Ratio { num: 1, den: 2 },
                        source: SegmentSource::Blackframe,
                    },
                )
            }
        },
        None => None,
    }
}

/// What the log of a successful scan says of the credits.
pub open spec fn scanned_segment(plan: Fallback, log: Seq<char>, config: Config) -> Option<
    Segment,
> {
    blackframe_segment(
        blackframe::log::log_segments(
            log,
            blackframe::tail_start(plan.total_duration_ns as int, plan.options.scan_ns as int),
        ),
        plan.total_duration_ns,
        config,
    )
}

/// What follows the report of a scan. A scan that succeeded ends the search.
/// One that failed is run again in software if it named an accelerator, and
/// ends the search without credits if not.
pub open spec fn next_step(plan: Fallback, outcome: ScanOutcome, config: Config) -> FallbackStep {
    if blackframe::succeeded(outcome) {
        FallbackStep::Done(scanned_segment(plan, outcome->log@, config))
    } else if plan.options.hwaccel is Some {
        FallbackStep::Scan(
            Fallback { options: ScanOptions { hwaccel: None, ..plan.options }, ..plan },
        )
    } else {
        FallbackStep::Done(None)
    }
}

impl Fallback {
    /// Decides what follows the scan that this plan describes.
    pub fn after_scan(self, outcome: &ScanOutcome, config: &Config) -> (step: FallbackStep)
        ensures
            step == next_step(self, *outcome, *config),
    {
        match blackframe::scan_tail(self.total_duration_ns, &self.options, outcome) {
            Ok(segments) => FallbackStep::Done(
                credits_segment(segments.as_slice(), self.total_duration_ns, config),
            ),
            Err(_error) => {
                if self.options.hwaccel.is_some() {
                    let mut next: Fallback = self;
                    next.options.hwaccel = None;
                    FallbackStep::Scan(next)
                } else {
                    FallbackStep::Done(None)
                }
            },
        }
    }
}

} // verus!
