//! What holds of a detection run as a whole.

use vstd::prelude::*;

use super::bootstrap::{self, BOOTSTRAP_SIZE, MIN_REFERENCE_HASHES};
use super::fallback::{self, Fallback, FallbackStep};
use super::window::{self, AnalyzedWindow, WindowView};
use super::{AudioMatch, EpisodeAnalysis};
use crate::blackframe::{self, ScanOutcome};
use crate::boundary;
use crate::fingerprint::constellation::FingerprintView;
use crate::fingerprint::FingerprintKind;
use crate::matching::{self, reference, ReferenceView};
use crate::{Config, Ratio, Segment, SegmentSource};

verus! {

/// `reference` was bootstrapped from three fingerprints of the list.
pub open spec fn built_from(
    reference: ReferenceView,
    fps: Seq<FingerprintView>,
    group: Seq<FingerprintView>,
) -> bool {
    &&& group.len() == BOOTSTRAP_SIZE
    &&& forall|k: int| 0 <= k < group.len() ==> fps.contains(#[trigger] group[k])
    &&& reference == reference::bootstrapped(group)
}

/// Some fingerprint of the list matches the reference.
pub open spec fn is_useful(
    reference: ReferenceView,
    fps: Seq<FingerprintView>,
    config: Config,
) -> bool {
    exists|k: int|
        0 <= k < fps.len() && matching::reference_match(
            reference.frames,
            #[trigger] fps[k],
            config,
        ) is Some
}

/// Every reference of an adaptive bootstrap is dense enough, was built from
/// three of the fingerprints, and matches at least one of them.
pub proof fn law_references_are_sound(fps: Seq<FingerprintView>, config: Config, i: int)
    requires
        0 <= i < bootstrap::adaptive_references(fps, config).len(),
    ensures
        ({
            let reference = bootstrap::adaptive_references(fps, config)[i];
            &&& reference.frames.len() >= MIN_REFERENCE_HASHES
            &&& reference.support == BOOTSTRAP_SIZE
            &&& exists|group: Seq<FingerprintView>| built_from(reference, fps, group)
            &&& is_useful(reference, fps, config)
        }),
    decreases fps.len(),
{
    let references = bootstrap::adaptive_references(fps, config);
    let reference = references[i];
    let candidate = bootstrap::candidate(fps);
    if bootstrap::is_kept(fps, config) {
        let rest = bootstrap::unmatched(fps, candidate, config);
        if i == 0 {
            let group = fps.take(BOOTSTRAP_SIZE as int);
            assert(built_from(reference, fps, group));
            lemma_some_match(fps, candidate, config);
        } else {
            assert(reference == bootstrap::adaptive_references(rest, config)[i - 1]);
            law_references_are_sound(rest, config, i - 1);
            lemma_unmatched_are_members(fps, candidate, config);
            let group = choose|group: Seq<FingerprintView>| built_from(reference, rest, group);
            assert(built_from(reference, fps, group));
            let k = choose|k: int|
                0 <= k < rest.len() && matching::reference_match(
                    reference.frames,
                    #[trigger] rest[k],
                    config,
                ) is Some;
            assert(rest.contains(rest[k]));
        }
    } else {
        let rest = fps.skip(1);
        law_references_are_sound(rest, config, i);
        assert forall|fp: FingerprintView| #[trigger] rest.contains(fp) implies fps.contains(
            fp,
        ) by {
            let k = choose|k: int| 0 <= k < rest.len() && rest[k] == fp;
            assert(fps[k + 1] == fp);
        }
        let group = choose|group: Seq<FingerprintView>| built_from(reference, rest, group);
        assert(built_from(reference, fps, group));
        let k = choose|k: int|
            0 <= k < rest.len() && matching::reference_match(
                reference.frames,
                #[trigger] rest[k],
                config,
            ) is Some;
        assert(rest.contains(rest[k]));
    }
}

/// The fingerprints that match nothing are some of the given ones.
proof fn lemma_unmatched_are_members(
    fps: Seq<FingerprintView>,
    reference: ReferenceView,
    config: Config,
)
    ensures
        forall|fp: FingerprintView| #[trigger]
            bootstrap::unmatched(fps, reference, config).contains(fp) ==> fps.contains(fp)
                && matching::reference_match(reference.frames, fp, config) is None,
    decreases fps.len(),
{
    if fps.len() > 0 {
        let front = fps.drop_last();
        lemma_unmatched_are_members(front, reference, config);
        let rest = bootstrap::unmatched(fps, reference, config);
        let less = bootstrap::unmatched(front, reference, config);
        assert forall|fp: FingerprintView| #[trigger] rest.contains(fp) implies fps.contains(fp)
            && matching::reference_match(reference.frames, fp, config) is None by {
            let k = choose|k: int| 0 <= k < rest.len() && rest[k] == fp;
            if k < less.len() {
                assert(less[k] == fp);
                assert(less.contains(fp));
                let j = choose|j: int| 0 <= j < front.len() && front[j] == fp;
                assert(fps[j] == fp);
            } else {
                assert(fps[fps.len() - 1] == fp);
            }
        }
    }
}

/// Where fewer fingerprints fail to match than there are, one of them matches.
proof fn lemma_some_match(fps: Seq<FingerprintView>, reference: ReferenceView, config: Config)
    requires
        bootstrap::unmatched(fps, reference, config).len() < fps.len(),
    ensures
        is_useful(reference, fps, config),
    decreases fps.len(),
{
    let front = fps.drop_last();
    if matching::reference_match(reference.frames, fps.last(), config) is Some {
        assert(fps[fps.len() - 1] == fps.last());
    } else {
        lemma_some_match(front, reference, config);
        let k = choose|k: int|
            0 <= k < front.len() && matching::reference_match(
                reference.frames,
                #[trigger] front[k],
                config,
            ) is Some;
        assert(fps[k] == front[k]);
    }
}

/// Where all fingerprints match a reference, none is left; where none does, all
/// are.
proof fn lemma_all_or_none_match(
    fps: Seq<FingerprintView>,
    reference: ReferenceView,
    config: Config,
)
    ensures
        (forall|k: int|
            0 <= k < fps.len() ==> matching::reference_match(
                reference.frames,
                #[trigger] fps[k],
                config,
            ) is Some) ==> bootstrap::unmatched(fps, reference, config).len() == 0,
        (forall|k: int|
            0 <= k < fps.len() ==> matching::reference_match(
                reference.frames,
                #[trigger] fps[k],
                config,
            ) is None) ==> bootstrap::unmatched(fps, reference, config) == fps,
    decreases fps.len(),
{
    if fps.len() > 0 {
        let front = fps.drop_last();
        lemma_all_or_none_match(front, reference, config);
        assert(forall|k: int| 0 <= k < front.len() ==> #[trigger] front[k] == fps[k]);
        assert(fps.last() == fps[fps.len() - 1]);
        assert(front.push(fps.last()) =~= fps);
    } else {
        assert(bootstrap::unmatched(fps, reference, config) =~= fps);
    }
}

/// The fingerprints of two lists that match nothing, one after the other.
proof fn lemma_unmatched_of_parts(
    first: Seq<FingerprintView>,
    second: Seq<FingerprintView>,
    reference: ReferenceView,
    config: Config,
)
    ensures
        bootstrap::unmatched(first + second, reference, config) == bootstrap::unmatched(
            first,
            reference,
            config,
        ) + bootstrap::unmatched(second, reference, config),
    decreases second.len(),
{
    let all = first + second;
    if second.len() == 0 {
        assert(all =~= first);
        assert(bootstrap::unmatched(first, reference, config) + Seq::<FingerprintView>::empty()
            =~= bootstrap::unmatched(first, reference, config));
    } else {
        let less = second.drop_last();
        lemma_unmatched_of_parts(first, less, reference, config);
        assert(all.drop_last() =~= first + less);
        assert(all.last() == second.last());
        let a = bootstrap::unmatched(first, reference, config);
        let b = bootstrap::unmatched(less, reference, config);
        assert((a + b).push(second.last()) =~= a + b.push(second.last()));
    }
}

/// `reference` matches every fingerprint of the list.
pub open spec fn covers(
    reference: ReferenceView,
    fps: Seq<FingerprintView>,
    config: Config,
) -> bool {
    forall|k: int|
        0 <= k < fps.len() ==> matching::reference_match(
            reference.frames,
            #[trigger] fps[k],
            config,
        ) is Some
}

/// `reference` matches no fingerprint of the list.
pub open spec fn misses(
    reference: ReferenceView,
    fps: Seq<FingerprintView>,
    config: Config,
) -> bool {
    forall|k: int|
        0 <= k < fps.len() ==> matching::reference_match(
            reference.frames,
            #[trigger] fps[k],
            config,
        ) is None
}

/// A season with one theme has one reference: where the reference of the first
/// three episodes is dense and every episode matches it, it is the only one.
pub proof fn law_one_theme_one_reference(fps: Seq<FingerprintView>, config: Config)
    requires
        fps.len() >= BOOTSTRAP_SIZE,
        bootstrap::candidate(fps).frames.len() >= MIN_REFERENCE_HASHES,
        covers(bootstrap::candidate(fps), fps, config),
    ensures
        bootstrap::adaptive_references(fps, config) == seq![bootstrap::candidate(fps)],
{
    let candidate = bootstrap::candidate(fps);
    lemma_all_or_none_match(fps, candidate, config);
    let rest = bootstrap::unmatched(fps, candidate, config);
    assert(bootstrap::adaptive_references(rest, config) =~= Seq::empty());
    assert(seq![candidate] + Seq::<ReferenceView>::empty() =~= seq![candidate]);
}

/// A season that changes its theme on the way has a reference for each: where
/// the first theme's reference matches the first part of the season alone, and
/// the reference of the first three of the other episodes matches all of
/// these, the season has these two references.
pub proof fn law_changed_theme_gets_its_own_reference(
    first: Seq<FingerprintView>,
    second: Seq<FingerprintView>,
    config: Config,
)
    requires
        first.len() >= BOOTSTRAP_SIZE,
        second.len() >= BOOTSTRAP_SIZE,
        bootstrap::candidate(first).frames.len() >= MIN_REFERENCE_HASHES,
        bootstrap::candidate(second).frames.len() >= MIN_REFERENCE_HASHES,
        covers(bootstrap::candidate(first), first, config),
        misses(bootstrap::candidate(first), second, config),
        covers(bootstrap::candidate(second), second, config),
    ensures
        bootstrap::adaptive_references(first + second, config) == seq![
            bootstrap::candidate(first),
            bootstrap::candidate(second),
        ],
{
    let all = first + second;
    assert(all.take(BOOTSTRAP_SIZE as int) =~= first.take(BOOTSTRAP_SIZE as int));
    let candidate = bootstrap::candidate(first);
    lemma_unmatched_of_parts(first, second, candidate, config);
    lemma_all_or_none_match(first, candidate, config);
    lemma_all_or_none_match(second, candidate, config);
    assert(bootstrap::unmatched(all, candidate, config) =~= second);
    law_one_theme_one_reference(second, config);
    assert(seq![candidate] + seq![bootstrap::candidate(second)] =~= seq![
        candidate,
        bootstrap::candidate(second),
    ]);
}

/// Fewer than three fingerprints bootstrap nothing, and there are always at
/// least two fingerprints more than references.
pub proof fn law_references_are_few(fps: Seq<FingerprintView>, config: Config)
    ensures
        bootstrap::adaptive_references(fps, config).len() > 0 ==> bootstrap::adaptive_references(
            fps,
            config,
        ).len() + 2 <= fps.len(),
    decreases fps.len(),
{
    if fps.len() >= BOOTSTRAP_SIZE {
        if bootstrap::is_kept(fps, config) {
            law_references_are_few(
                bootstrap::unmatched(fps, bootstrap::candidate(fps), config),
                config,
            );
        } else {
            law_references_are_few(fps.skip(1), config);
        }
    }
}

/// Where nothing was bootstrapped, nothing is found.
pub proof fn law_no_references_no_segment(
    window: Option<WindowView>,
    config: Config,
    kind: FingerprintKind,
)
    ensures
        super::found_segment(Seq::empty(), window, config, kind) is None,
{
}

/// A season with fewer than three episodes finds no intro and no credits in
/// its audio.
pub proof fn law_small_season_matches_nothing<P>(
    prints: Seq<EpisodeAnalysis<P>>,
    window: Option<WindowView>,
    config: Config,
    kind: FingerprintKind,
)
    requires
        prints.len() < BOOTSTRAP_SIZE,
    ensures
        super::season_references(prints, kind, config).len() == 0,
        super::found_segment(
            super::season_references(prints, kind, config),
            window,
            config,
            kind,
        ) is None,
{
    lemma_prints_are_no_more(prints, kind);
    assert(super::season_references(prints, kind, config) =~= Seq::empty());
}

/// There are no more fingerprints of a kind than episodes.
proof fn lemma_prints_are_no_more<P>(prints: Seq<EpisodeAnalysis<P>>, kind: FingerprintKind)
    ensures
        super::window_prints(prints, kind).len() <= prints.len(),
    decreases prints.len(),
{
    if prints.len() > 0 {
        lemma_prints_are_no_more(prints.drop_last(), kind);
    }
}

/// An episode of which neither window could be decoded is reported as not
/// found, whatever the references are.
pub proof fn law_undecodable_episode_is_not_found(
    audio: AudioMatch,
    intro_references: Seq<ReferenceView>,
    credits_references: Seq<ReferenceView>,
    scanned: Option<Segment>,
    config: Config,
)
    requires
        super::is_audio_match(
            audio,
            intro_references,
            credits_references,
            None,
            None,
            config,
        ),
    ensures
        audio.intro is None,
        super::final_credits(audio, scanned) is None,
{
}

/// A single episode is matched as it would be within its season, by the same
/// references. Only the scan for black frames is left out where the season has
/// no credits references.
pub proof fn law_single_episode_matches_as_in_its_season(
    single: AudioMatch,
    within: AudioMatch,
    intro_references: Seq<ReferenceView>,
    credits_references: Seq<ReferenceView>,
    intro: Option<AnalyzedWindow>,
    credits: Option<AnalyzedWindow>,
    config: Config,
)
    requires
        super::is_audio_match(
            single,
            intro_references,
            credits_references,
            super::wanted(intro_references, intro),
            super::wanted(credits_references, credits),
            config,
        ),
        super::is_audio_match(
            within,
            intro_references,
            credits_references,
            fallback::window_view(intro),
            fallback::window_view(credits),
            config,
        ),
    ensures
        single.intro == within.intro,
        single.credits == within.credits,
        credits_references.len() > 0 ==> (single.fallback is Some) == (within.fallback is Some),
        credits_references.len() == 0 ==> single.fallback is None,
{
    if intro_references.len() == 0 {
        assert(intro_references =~= Seq::empty());
    }
    if credits_references.len() == 0 {
        assert(credits_references =~= Seq::empty());
    }
}

/// What the audio reports as a segment is long enough, was matched by a
/// fingerprint, and, where it is the credits, is long enough for credits and
/// ends near the end of the file.
pub proof fn law_reported_segment_is_credible(
    references: Seq<ReferenceView>,
    window: WindowView,
    config: Config,
    kind: FingerprintKind,
)
    requires
        window.wf(),
    ensures
        window::window_segment(references, window, config, kind) matches Some(s) ==> {
            &&& s.source == SegmentSource::AudioFingerprint
            &&& s.end_ns - s.start_ns >= config.min_segment_ns
            &&& kind == FingerprintKind::Credits ==> {
                &&& s.end_ns - s.start_ns >= config.min_credits_ns
                &&& window.region.total_duration_ns matches Some(total) ==> total - s.end_ns
                    <= config.max_credits_tail_gap_ns
            }
        },
{
    window::lemma_match_is_inside(references, window, config);
    match matching::best_match(references, window.fp, config) {
        Some(m) => {
            if boundary::can_refine(window.region) {
                boundary::law_refined_span_is_ordered(window.region, m.start_ns, m.end_ns);
            }
        },
        None => {},
    }
}

/// Credits that were found by black frames say so, reach to the end of the
/// file and are long enough for credits.
pub proof fn law_blackframe_credits_reach_the_end(plan: Fallback, log: Seq<char>, config: Config)
    ensures
        fallback::scanned_segment(plan, log, config) matches Some(s) ==> {
            &&& s.source == SegmentSource::Blackframe
            &&& s.confidence == (Ratio { num: 1, den: 2 })
            &&& s.end_ns == plan.total_duration_ns
            &&& s.end_ns - s.start_ns >= config.min_credits_ns
        },
{
}

/// A scan is run at most twice, and the second time without an accelerator.
pub proof fn law_scan_is_retried_at_most_once(
    plan: Fallback,
    first: ScanOutcome,
    second: ScanOutcome,
    config: Config,
)
    ensures
        fallback::next_step(plan, first, config) matches FallbackStep::Scan(retry) ==> {
            &&& plan.options.hwaccel is Some
            &&& retry.options.hwaccel is None
            &&& retry.total_duration_ns == plan.total_duration_ns
            &&& fallback::next_step(retry, second, config) is Done
        },
        fallback::next_step(plan, first, config) is Scan ==> !blackframe::succeeded(first),
{
}

} // verus!
