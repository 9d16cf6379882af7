//! What is reported of an episode, and what is kept of a season.

use vstd::prelude::*;

use super::fallback::{self, Fallback, FallbackStep};
use super::persist::{self, StoreStep};
use super::window::{self, WindowView};
use super::{AnalyzedWindow, AudioMatch, DetectionResult, EpisodeAnalysis, SeasonMatch};
use crate::blackframe::{self, log, BlackSegment, ScanOutcome};
use crate::boundary;
use crate::fingerprint::constellation::FingerprintView;
use crate::fingerprint::FingerprintKind;
use crate::matching::{self, MatchResult, ReferenceView};
use crate::{Config, Ratio, Segment, SegmentSource};

verus! {

/// A match is reported as the segment that it becomes with its edges refined,
/// unless that is too short, or is meant to be the credits and is too short for
/// credits or ends too far from the end of the file. Nothing else keeps it from
/// being reported.
pub proof fn law_match_is_reported(
    references: Seq<ReferenceView>,
    window: WindowView,
    config: Config,
    kind: FingerprintKind,
    m: MatchResult,
)
    requires
        matching::best_match(references, window.fp, config) == Some(m),
    ensures
        ({
            let (start, end) = boundary::refined(
                window.region,
                m.start_ns as int,
                m.end_ns as int,
            );
            let long_enough = end - start >= config.min_segment_ns && (kind
                == FingerprintKind::Credits ==> end - start >= config.min_credits_ns);
            let late_enough = match window.region.total_duration_ns {
                Some(total) => kind == FingerprintKind::Credits ==> total - end
                    <= config.max_credits_tail_gap_ns,
                None => true,
            };
            window::window_segment(references, window, config, kind) == (if long_enough
                && late_enough {
                Some(
                    Segment {
                        start_ns: start as i64,
                        end_ns: end as i64,
                        confidence: m.confidence,
                        source: SegmentSource::AudioFingerprint,
                    },
                )
            } else {
                None
            })
        }),
{
}

/// Without a match nothing is reported.
pub proof fn law_no_match_is_not_reported(
    references: Seq<ReferenceView>,
    window: WindowView,
    config: Config,
    kind: FingerprintKind,
)
    requires
        matching::best_match(references, window.fp, config) is None,
    ensures
        window::window_segment(references, window, config, kind) is None,
{
}

/// One more reference is preferred where it matches with at least the confidence
/// of the best so far, and changes nothing where it does not match.
pub proof fn law_more_confident_reference_wins(
    references: Seq<ReferenceView>,
    more: ReferenceView,
    query: FingerprintView,
    config: Config,
)
    ensures
        ({
            let before = matching::best_match(references, query, config);
            let after = matching::best_match(references.push(more), query, config);
            match (before, matching::reference_match(more.frames, query, config)) {
                (None, found) => after == found,
                (Some(best), None) => after == Some(best),
                (Some(best), Some(found)) => after == Some(
                    if found.confidence.num * best.confidence.den >= best.confidence.num
                        * found.confidence.den {
                        found
                    } else {
                        best
                    },
                ),
            }
        }),
        matching::best_match(Seq::empty(), query, config) is None,
{
    assert(references.push(more).drop_last() =~= references);
    assert(references.push(more).last() == more);
}

/// Credits by black frames run from the start of the longest black stretch that
/// counts, the last of several, to the end of the file, and are reported where
/// that is long enough for credits.
pub proof fn law_fade_marks_the_credits(
    segments: Seq<BlackSegment>,
    total_duration_ns: i64,
    config: Config,
    i: int,
)
    requires
        0 <= i < segments.len(),
        segments[i].duration_ns >= config.blackframe_min_ns,
        forall|j: int|
            0 <= j < segments.len() ==> (#[trigger] segments[j]).duration_ns
                <= segments[i].duration_ns,
        forall|j: int|
            i < j < segments.len() ==> (#[trigger] segments[j]).duration_ns
                < segments[i].duration_ns,
    ensures
        fallback::blackframe_segment(segments, total_duration_ns, config) == (if total_duration_ns
            - segments[i].start_ns >= config.min_credits_ns {
            Some(
                Segment {
                    start_ns: segments[i].start_ns,
                    end_ns: total_duration_ns,
                    confidence: Ratio { num: 1, den: 2 },
                    source: SegmentSource::Blackframe,
                },
            )
        } else {
            None
        }),
{
    blackframe::law_longest_stretch_marks_the_credits(segments, config.blackframe_min_ns, i);
}

/// Where every black stretch is too short, there are no credits by black frames.
pub proof fn law_short_fades_mark_nothing(
    segments: Seq<BlackSegment>,
    total_duration_ns: i64,
    config: Config,
)
    requires
        forall|j: int|
            0 <= j < segments.len() ==> (#[trigger] segments[j]).duration_ns
                < config.blackframe_min_ns,
    ensures
        fallback::blackframe_segment(segments, total_duration_ns, config) is None,
{
    blackframe::law_credits_start_with_a_longest_stretch(segments, config.blackframe_min_ns);
}

/// A scan that succeeds ends the search with what its log says, the times of the
/// log counted from where the scan began. One that fails is run again without the
/// accelerator that it named, with the settings it had, and ends the search
/// without credits where it named none.
pub proof fn law_scan_decides(plan: Fallback, outcome: ScanOutcome, config: Config)
    requires
        0 <= plan.options.scan_ns < plan.total_duration_ns,
    ensures
        ({
            let done = outcome matches ScanOutcome::Exited { success, .. } && success;
            let begin = plan.total_duration_ns - plan.options.scan_ns;
            let step = fallback::next_step(plan, outcome, config);
            &&& done ==> step == FallbackStep::Done(
                fallback::blackframe_segment(
                    log::log_segments(outcome->log@, begin),
                    plan.total_duration_ns,
                    config,
                ),
            )
            &&& !done && plan.options.hwaccel is None ==> step == FallbackStep::Done(None)
            &&& !done && plan.options.hwaccel is Some ==> {
                &&& step matches FallbackStep::Scan(again)
                &&& again.total_duration_ns == plan.total_duration_ns
                &&& again.options.hwaccel is None
                &&& again.options.scan_ns == plan.options.scan_ns
                &&& again.options.min_black_ns == plan.options.min_black_ns
                &&& again.options.pix_threshold_billionths
                    == plan.options.pix_threshold_billionths
                &&& again.options.sample_fps_billionths == plan.options.sample_fps_billionths
                &&& again.options.timeout_seconds == plan.options.timeout_seconds
            }
        }),
{
}

/// The tail of a file is scanned for black frames exactly where the audio found
/// no credits, the fallback is enabled, the credits window was decoded and the
/// length of the file is known; and it is scanned with the configured settings.
pub proof fn law_scan_is_planned_where_it_can_help(
    audio: AudioMatch,
    intro_references: Seq<ReferenceView>,
    credits_references: Seq<ReferenceView>,
    intro: Option<WindowView>,
    credits: Option<WindowView>,
    config: Config,
)
    requires
        super::is_audio_match(
            audio,
            intro_references,
            credits_references,
            intro,
            credits,
            config,
        ),
    ensures
        audio.fallback is Some <==> audio.credits is None && config.blackframe_fallback
            && credits is Some && (credits->0).region.total_duration_ns is Some,
        audio.fallback matches Some(plan) ==> {
            &&& Some(plan.total_duration_ns) == (credits->0).region.total_duration_ns
            &&& plan.options.scan_ns == config.blackframe_scan_ns
            &&& plan.options.min_black_ns == config.blackframe_min_ns
            &&& plan.options.pix_threshold_billionths == config.blackframe_pix_threshold_billionths
            &&& plan.options.sample_fps_billionths == config.blackframe_fps_billionths
            &&& plan.options.timeout_seconds == config.blackframe_timeout_seconds
            &&& match (plan.options.hwaccel, config.blackframe_hwaccel) {
                (Some(a), Some(b)) => a@ == b@,
                (None, None) => true,
                _ => false,
            }
        },
{
}

/// The intro window is matched against the intro references and the credits
/// window against the credits references; a window that is missing matches
/// nothing.
pub proof fn law_windows_are_matched_by_kind(
    audio: AudioMatch,
    intro_references: Seq<ReferenceView>,
    credits_references: Seq<ReferenceView>,
    intro: Option<WindowView>,
    credits: Option<WindowView>,
    config: Config,
)
    requires
        super::is_audio_match(
            audio,
            intro_references,
            credits_references,
            intro,
            credits,
            config,
        ),
    ensures
        match intro {
            Some(w) => audio.intro == window::window_segment(
                intro_references,
                w,
                config,
                FingerprintKind::Intro,
            ),
            None => audio.intro is None,
        },
        match credits {
            Some(w) => audio.credits == window::window_segment(
                credits_references,
                w,
                config,
                FingerprintKind::Credits,
            ),
            None => audio.credits is None,
        },
{
}

/// Credits that the audio found are reported whatever a scan finds; those of a
/// scan only where the audio found none and the scan was planned.
pub proof fn law_audio_comes_before_black_frames(audio: AudioMatch, scanned: Option<Segment>)
    ensures
        audio.credits is Some ==> super::final_credits(audio, scanned) == audio.credits,
        audio.credits is None && audio.fallback is Some ==> super::final_credits(audio, scanned)
            == scanned,
        audio.credits is None && audio.fallback is None ==> super::final_credits(
            audio,
            scanned,
        ) is None,
{
}

/// The intro window or the credits window of an episode.
pub open spec fn part_of<P>(print: EpisodeAnalysis<P>, kind: FingerprintKind) -> Option<
    AnalyzedWindow,
> {
    if kind == FingerprintKind::Intro {
        print.intro
    } else {
        print.credits
    }
}

/// Every window that was decoded takes part in the bootstrap of its kind, in the
/// order of the episodes.
pub proof fn law_every_window_takes_part<P>(
    prints: Seq<EpisodeAnalysis<P>>,
    kind: FingerprintKind,
)
    ensures
        super::window_prints(prints, kind) == prints.filter(
            |p: EpisodeAnalysis<P>| part_of(p, kind) is Some,
        ).map_values(|p: EpisodeAnalysis<P>| (part_of(p, kind)->0)@.fp),
    decreases prints.len(),
{
    let has = |p: EpisodeAnalysis<P>| part_of(p, kind) is Some;
    let fp = |p: EpisodeAnalysis<P>| (part_of(p, kind)->0)@.fp;
    if prints.len() == 0 {
        assert(prints.filter(has) =~= Seq::empty()) by {
            reveal(Seq::filter);
        }
        assert(super::window_prints(prints, kind) =~= prints.filter(has).map_values(fp));
    } else {
        let rest = prints.drop_last();
        let last = prints.last();
        law_every_window_takes_part(rest, kind);
        assert(prints =~= rest.push(last));
        rest.lemma_filter_push(last, has);
        if has(last) {
            let kept = rest.filter(has);
            assert(kept.push(last).map_values(fp) =~= kept.map_values(fp).push(fp(last)));
        }
    }
}

/// Every episode of a season is reported, under its own id, and is matched
/// against all references that the season gives: its windows find what they would
/// find alone.
pub proof fn law_every_episode_is_matched<P>(
    matched: SeasonMatch,
    prints: Seq<EpisodeAnalysis<P>>,
    config: Config,
    i: int,
)
    requires
        super::is_season_match(matched, prints, config),
        0 <= i < prints.len(),
    ensures
        matched.episodes@.len() == prints.len(),
        matched.episodes@[i].episode_id@ == prints[i].episode_id@,
        match prints[i].intro {
            Some(w) => matched.episodes@[i].audio.intro == window::window_segment(
                matching::reference_views(matched.intro_references@),
                w@,
                config,
                FingerprintKind::Intro,
            ),
            None => matched.episodes@[i].audio.intro is None,
        },
        match prints[i].credits {
            Some(w) => matched.episodes@[i].audio.credits == window::window_segment(
                matching::reference_views(matched.credits_references@),
                w@,
                config,
                FingerprintKind::Credits,
            ),
            None => matched.episodes@[i].audio.credits is None,
        },
{
    assert(matched.episodes@[i].episode_id@ == prints[i].episode_id@);
}

/// The fingerprint of every window that was decoded is written, and no other.
pub proof fn law_every_fingerprint_is_written<P>(prints: Seq<EpisodeAnalysis<P>>, step: StoreStep)
    requires
        prints.len() <= usize::MAX,
    ensures
        persist::fingerprint_steps(prints).contains(step) <==> exists|i: int|
            0 <= i < prints.len() && match step {
                StoreStep::Fingerprint { episode, episode_number, kind } => {
                    &&& episode == i
                    &&& episode_number == (#[trigger] prints[i]).episode_number
                    &&& part_of(prints[i], kind) is Some
                },
                _ => false,
            },
    decreases prints.len(),
{
    let all = persist::fingerprint_steps(prints);
    if prints.len() > 0 {
        let rest = prints.drop_last();
        let last = prints.last();
        let end = prints.len() - 1;
        assert(prints[end] == last);
        law_every_fingerprint_is_written(rest, step);
        let less = persist::fingerprint_steps(rest);
        let more = persist::episode_steps(last, end);
        lemma_contains_of_sum(less, more, step);
        assert(more.contains(step) <==> match step {
            StoreStep::Fingerprint { episode, episode_number, kind } => {
                &&& episode == end
                &&& episode_number == last.episode_number
                &&& part_of(last, kind) is Some
            },
            _ => false,
        }) by {
            if more.len() > 0 {
                assert(more[0] == more[0]);
            }
            match step {
                StoreStep::Fingerprint { episode, episode_number, kind } => {
                    if episode == end && episode_number == last.episode_number && part_of(
                        last,
                        kind,
                    ) is Some {
                        if kind == FingerprintKind::Intro || last.intro is None {
                            assert(more[0] == step);
                        } else {
                            assert(more[1] == step);
                        }
                    }
                },
                _ => {},
            }
        }
        assert forall|i: int| 0 <= i < rest.len() implies #[trigger] prints[i] == rest[i] by {}
        if less.contains(step) {
            let i = choose|i: int|
                0 <= i < rest.len() && match step {
                    StoreStep::Fingerprint { episode, episode_number, kind } => {
                        &&& episode == i
                        &&& episode_number == (#[trigger] rest[i]).episode_number
                        &&& part_of(rest[i], kind) is Some
                    },
                    _ => false,
                };
            assert(prints[i] == rest[i]);
        }
    }
}

/// What is in two lists one after the other is in one of them.
proof fn lemma_contains_of_sum(a: Seq<StoreStep>, b: Seq<StoreStep>, step: StoreStep)
    ensures
        (a + b).contains(step) <==> a.contains(step) || b.contains(step),
{
    if a.contains(step) {
        let i = choose|i: int| 0 <= i < a.len() && a[i] == step;
        assert((a + b)[i] == step);
    }
    if b.contains(step) {
        let i = choose|i: int| 0 <= i < b.len() && b[i] == step;
        assert((a + b)[a.len() + i] == step);
    }
    if (a + b).contains(step) {
        let i = choose|i: int| 0 <= i < (a + b).len() && (a + b)[i] == step;
        if i < a.len() {
            assert(a[i] == step);
        } else {
            assert(b[i - a.len()] == step);
        }
    }
}

/// A season of three episodes or more leaves all its markers and then the
/// references of both kinds; a smaller one leaves its markers alone.
pub proof fn law_results_are_written(episodes: nat, markers: nat)
    requires
        markers <= usize::MAX,
    ensures
        ({
            let steps = persist::scan_steps(episodes, markers);
            &&& steps.len() == markers + (if episodes >= 3 {
                2nat
            } else {
                0nat
            })
            &&& forall|i: int|
                0 <= i < markers ==> #[trigger] steps[i] == (StoreStep::Markers {
                    index: i as usize,
                })
            &&& episodes >= 3 ==> steps[markers as int] == (StoreStep::References {
                kind: FingerprintKind::Intro,
            }) && steps[markers as int + 1] == (StoreStep::References { kind: FingerprintKind::Credits })
        }),
        episodes >= 3 ==> persist::result_steps(markers) == persist::scan_steps(episodes, markers),
{
}

/// The content of a window is all of it: the region and the fingerprint.
pub proof fn law_window_is_seen_whole(window: AnalyzedWindow)
    ensures
        window@.region.levels == window.region.levels@,
        window@.region.sample_rate == window.region.sample_rate,
        window@.region.offset_ns == window.region.offset_ns,
        window@.region.total_duration_ns == window.region.total_duration_ns,
        window@.fp == window.fp@,
        fallback::window_view(Some(window)) == Some(window@),
        fallback::window_view(None) is None,
{
}

/// Fingerprints are written episode by episode, the intro window of an episode
/// before its credits window.
pub proof fn law_fingerprints_are_written_in_order<P>(
    prints: Seq<EpisodeAnalysis<P>>,
    a: int,
    b: int,
)
    requires
        prints.len() <= usize::MAX,
        0 <= a < b < persist::fingerprint_steps(prints).len(),
    ensures
        match (persist::fingerprint_steps(prints)[a], persist::fingerprint_steps(prints)[b]) {
            (
                StoreStep::Fingerprint { episode: i, kind: first, .. },
                StoreStep::Fingerprint { episode: j, kind: second, .. },
            ) => i < j || (i == j && first == FingerprintKind::Intro && second
                == FingerprintKind::Credits),
            _ => false,
        },
    decreases prints.len(),
{
    let all = persist::fingerprint_steps(prints);
    let rest = prints.drop_last();
    let less = persist::fingerprint_steps(rest);
    let more = persist::episode_steps(prints.last(), prints.len() - 1);
    assert(all == less + more);
    if b < less.len() {
        law_fingerprints_are_written_in_order(rest, a, b);
        assert(all[a] == less[a] && all[b] == less[b]);
    } else {
        assert(all[b] == more[b - less.len()]);
        if a < less.len() {
            assert(all[a] == less[a]);
            assert(less.contains(less[a]));
            law_every_fingerprint_is_written(rest, less[a]);
        } else {
            assert(all[a] == more[a - less.len()]);
        }
    }
}

/// A finished season reports every episode under its own id, with the intro that
/// its audio matched, and with the credits that its audio matched or, failing
/// that, those of the scan that was planned.
pub proof fn law_season_is_finished_episode_by_episode(
    result: DetectionResult,
    matched: SeasonMatch,
    scanned: Seq<Option<Segment>>,
    i: int,
)
    requires
        super::is_finished(result, matched, scanned),
        0 <= i < matched.episodes@.len(),
    ensures
        result.markers@.len() == matched.episodes@.len(),
        result.intro_references == matched.intro_references,
        result.credits_references == matched.credits_references,
        result.markers@[i].episode_id@ == matched.episodes@[i].episode_id@,
        result.markers@[i].intro == matched.episodes@[i].audio.intro,
        result.markers@[i].credits == (if matched.episodes@[i].audio.credits is Some {
            matched.episodes@[i].audio.credits
        } else if matched.episodes@[i].audio.fallback is Some {
            scanned[i]
        } else {
            None
        }),
{
    assert(result.markers@[i].episode_id@ == matched.episodes@[i].episode_id@);
}

/// A season too small to bootstrap anything reports every episode under its own
/// id, with nothing found.
pub proof fn law_small_season_reports_nothing<P>(
    result: DetectionResult,
    prints: Seq<EpisodeAnalysis<P>>,
    i: int,
)
    requires
        persist::nothing_found(result, prints),
        0 <= i < prints.len(),
    ensures
        result.markers@.len() == prints.len(),
        result.intro_references@.len() == 0,
        result.credits_references@.len() == 0,
        result.markers@[i].episode_id@ == prints[i].episode_id@,
        result.markers@[i].intro is None,
        result.markers@[i].credits is None,
{
    assert(result.markers@[i].episode_id@ == prints[i].episode_id@);
}

} // verus!
