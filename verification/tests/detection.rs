//! Seasons, single episodes and the fallback.

use tacet::audio::AudioRegion;
use tacet::blackframe::ScanOutcome;
use tacet::detection::persist::{persist_episode_fingerprints, persist_result, persist_scan};
use tacet::detection::window::decode_and_fingerprint;
use tacet::detection::{
    adaptive_bootstrap, analyze_episode, bootstrap_episodes, bootstrap_season,
    credits_blackframe_fallback, detect_and_persist, detect_single_episode, match_analyses,
    match_to_segment, AnalyzedWindow, EpisodeAnalysis, EpisodeFile, FallbackStep, PersistPlan,
    Season, StoreStep,
};
use tacet::fingerprint::{Fingerprint, FingerprintKind, FpHash, FrameLength};
use tacet::{api, Config, Ratio, Segment, SegmentSource};

const SECOND: i64 = 1_000_000_000;

/// A fingerprint with one hash per frame of a tenth of a second: `theme` names
/// the hashes from frame `start` on.
fn print(theme: u32, start: u32, length: u32) -> Fingerprint {
    let mut hashes: Vec<FpHash> = (0..length)
        .map(|i| FpHash { hash: theme * 10_000 + i, frame: start + i })
        .collect();
    hashes.push(FpHash { hash: 999_000_000 + start, frame: 0 });
    Fingerprint { hashes, time_offset_ns: 0, frame_duration: FrameLength::new(1, 10) }
}

fn window(fp: Fingerprint, total: Option<i64>) -> AnalyzedWindow {
    let region = AudioRegion {
        levels: vec![],
        sample_rate: 16_000,
        offset_ns: fp.time_offset_ns,
        total_duration_ns: total,
    };
    AnalyzedWindow { region, fp }
}

fn analysis(number: u32, intro: Option<Fingerprint>, credits: Option<AnalyzedWindow>) -> EpisodeAnalysis<u32> {
    EpisodeAnalysis {
        episode_id: format!("show-s01e{number:02}"),
        episode_number: number,
        path: number,
        intro: intro.map(|fp| window(fp, None)),
        credits,
    }
}

fn season(episodes: u32) -> Season<u32> {
    let episodes = (1..=episodes)
        .map(|n| EpisodeFile { id: format!("show-s01e{n:02}"), path: n, episode_number: n })
        .collect();
    Season { series_id: "show".to_string(), season_number: 1, episodes }
}

fn log(line: &str) -> ScanOutcome {
    ScanOutcome::Exited { success: true, status: "0".to_string(), log: line.to_string() }
}

#[test]
fn one_theme_gives_one_reference() {
    let fps: Vec<Fingerprint> = (0..5).map(|i| print(1, 10 * i, 150)).collect();
    let refs = adaptive_bootstrap(&fps.iter().collect::<Vec<_>>(), &Config::default());
    assert_eq!(refs.len(), 1);
    assert_eq!(refs[0].len(), 150);
    assert_eq!(refs[0].support, 3);
}

#[test]
fn a_changed_theme_gets_its_own_reference() {
    let mut fps: Vec<Fingerprint> = (0..4).map(|i| print(1, 10 * i, 150)).collect();
    fps.extend((0..3).map(|i| print(2, 7 * i, 120)));
    let refs = adaptive_bootstrap(&fps.iter().collect::<Vec<_>>(), &Config::default());
    assert_eq!(refs.len(), 2);
    assert!(refs[0].hash_to_frame.contains_key(&10_000));
    assert_eq!(refs[1].len(), 120);
    assert!(refs[1].hash_to_frame.contains_key(&20_000));
}

#[test]
fn an_outlier_does_not_block_the_bootstrap() {
    let mut fps = vec![print(8, 0, 150), print(9, 0, 150)];
    fps.extend((0..3).map(|i| print(1, 10 * i, 150)));
    let refs = adaptive_bootstrap(&fps.iter().collect::<Vec<_>>(), &Config::default());
    assert_eq!(refs.len(), 1);
    assert!(refs[0].hash_to_frame.contains_key(&10_000));
}

#[test]
fn sparse_or_too_few_fingerprints_give_no_reference() {
    let config = Config::default();
    let sparse: Vec<Fingerprint> = (0..3).map(|i| print(1, 10 * i, 99)).collect();
    assert!(adaptive_bootstrap(&sparse.iter().collect::<Vec<_>>(), &config).is_empty());
    let few: Vec<Fingerprint> = (0..2).map(|i| print(1, 10 * i, 150)).collect();
    assert!(adaptive_bootstrap(&few.iter().collect::<Vec<_>>(), &config).is_empty());
    // Dense, but shorter than any segment that is reported.
    let strict = Config { min_segment_ns: 60 * SECOND, ..Config::default() };
    let fps: Vec<Fingerprint> = (0..4).map(|i| print(1, 10 * i, 150)).collect();
    assert!(adaptive_bootstrap(&fps.iter().collect::<Vec<_>>(), &strict).is_empty());
}

#[test]
fn a_season_finds_its_intro_everywhere() {
    let prints: Vec<EpisodeAnalysis<u32>> =
        (1..=4).map(|n| analysis(n, Some(print(1, 10 * n, 150)), None)).collect();
    let matched = match_analyses(&prints, &Config::default());
    assert_eq!(matched.intro_references.len(), 1);
    assert!(matched.credits_references.is_empty());
    let result = matched.finish(&[None, None, None, None]);
    for (i, m) in result.markers.iter().enumerate() {
        let n = i as i64 + 1;
        assert_eq!(m.episode_id, format!("show-s01e{n:02}"));
        let expected = Segment {
            start_ns: n * SECOND,
            end_ns: n * SECOND + 149 * SECOND / 10,
            confidence: Ratio { num: 150, den: 150 },
            source: SegmentSource::AudioFingerprint,
        };
        assert_eq!(m.intro, Some(expected));
        assert_eq!(m.credits, None);
    }
}

#[test]
fn credits_must_be_long_and_near_the_end() {
    let fps: Vec<Fingerprint> = (0..3).map(|i| print(1, i, 400)).collect();
    let config = Config::default();
    let refs = adaptive_bootstrap(&fps.iter().collect::<Vec<_>>(), &config);
    let find = |fp: &Fingerprint, total: Option<i64>, kind: FingerprintKind| {
        match_to_segment(&refs, &window(fp.clone(), total), &config, kind)
    };
    // The theme ends at 39.9 s.
    assert!(find(&fps[0], Some(40 * SECOND), FingerprintKind::Credits).is_some());
    assert!(find(&fps[0], None, FingerprintKind::Credits).is_some());
    assert!(find(&fps[0], Some(39 * SECOND + 900_000_000 + 30 * SECOND), FingerprintKind::Credits)
        .is_some());
    assert!(find(&fps[0], Some(71 * SECOND), FingerprintKind::Credits).is_none());
    assert!(find(&fps[0], Some(71 * SECOND), FingerprintKind::Intro).is_some());
    let half = print(1, 0, 200);
    assert!(find(&half, Some(20 * SECOND), FingerprintKind::Credits).is_none());
    assert!(find(&half, Some(20 * SECOND), FingerprintKind::Intro).is_some());
    assert!(match_to_segment(&[], &window(half, None), &config, FingerprintKind::Intro).is_none());
}

#[test]
fn a_single_episode_is_matched_as_in_its_season() {
    let prints: Vec<EpisodeAnalysis<u32>> =
        (1..=4).map(|n| analysis(n, Some(print(1, 10 * n, 150)), None)).collect();
    let config = Config::default();
    let matched = match_analyses(&prints, &config);
    let refs = bootstrap_season(&prints, &config);
    assert_eq!(refs.intro.len(), 1);
    for (i, p) in prints.iter().enumerate() {
        let single =
            detect_single_episode(&refs.intro, &refs.credits, p.intro.clone(), None, &config);
        assert_eq!(single.intro, matched.episodes[i].audio.intro);
        assert_eq!(single.credits, None);
    }
}

#[test]
fn without_references_nothing_is_looked_at() {
    let config = Config::default();
    let tail = window(print(1, 0, 150), Some(900 * SECOND));
    let audio = detect_single_episode(&[], &[], Some(tail.clone()), Some(tail), &config);
    assert!(audio.intro.is_none() && audio.credits.is_none() && audio.fallback.is_none());
    let plan = api::detect_episode(&[], &[]);
    assert!(!plan.reference_available && !plan.decode_intro && !plan.decode_credits);
    let markers = api::no_markers("show-s01e01");
    assert_eq!(markers.episode_id, "show-s01e01");
    assert!(markers.intro.is_none() && markers.credits.is_none());
}

#[test]
fn requests_decode_what_has_references() {
    let fps: Vec<Fingerprint> = (0..3).map(|i| print(1, i, 150)).collect();
    let refs = adaptive_bootstrap(&fps.iter().collect::<Vec<_>>(), &Config::default());
    let plan = api::detect_episode(&[], &refs);
    assert!(plan.reference_available && !plan.decode_intro && plan.decode_credits);
    let error = api::ApiError { message: "disk".to_string() };
    assert_eq!(error.status(), 500);
}

#[test]
fn the_fallback_needs_a_known_length() {
    let config = Config::default();
    let known = Some(window(print(1, 0, 5), Some(1_000 * SECOND)));
    let plan = credits_blackframe_fallback(&known, &config).unwrap();
    assert_eq!(plan.total_duration_ns, 1_000 * SECOND);
    assert_eq!(plan.options.scan_ns, 180 * SECOND);
    assert_eq!(plan.options.timeout_seconds, 60);
    assert!(plan.options.hwaccel.is_none());
    assert!(credits_blackframe_fallback(&None, &config).is_none());
    let unknown = Some(window(print(1, 0, 5), None));
    assert!(credits_blackframe_fallback(&unknown, &config).is_none());
    let disabled = Config { blackframe_fallback: false, ..Config::default() };
    assert!(credits_blackframe_fallback(&known, &disabled).is_none());
}

#[test]
fn the_longest_fade_marks_the_credits() {
    let config = Config::default();
    let tail = Some(window(print(1, 0, 5), Some(1_000 * SECOND)));
    let scan = |line: &str| {
        let plan = credits_blackframe_fallback(&tail, &config).unwrap();
        match plan.after_scan(&log(line), &config) {
            FallbackStep::Done(found) => found,
            FallbackStep::Scan(_) => panic!("a successful scan is not repeated"),
        }
    };
    let found = scan("black_start:100 black_end:110 black_duration:10").unwrap();
    assert_eq!((found.start_ns, found.end_ns), (920 * SECOND, 1_000 * SECOND));
    assert_eq!(found.confidence, Ratio { num: 1, den: 2 });
    assert_eq!(found.source, SegmentSource::Blackframe);
    // Too close to the end, too short, or nothing at all.
    assert!(scan("black_start:151 black_end:161 black_duration:10").is_none());
    assert!(scan("black_start:100 black_end:102 black_duration:2").is_none());
    assert!(scan("nothing").is_none());
}

#[test]
fn a_failed_accelerator_is_retried_once_in_software() {
    let config = Config { blackframe_hwaccel: Some("auto".to_string()), ..Config::default() };
    let tail = Some(window(print(1, 0, 5), Some(1_000 * SECOND)));
    let plan = credits_blackframe_fallback(&tail, &config).unwrap();
    assert_eq!(plan.options.hwaccel.as_deref(), Some("auto"));
    let retry = match plan.after_scan(&ScanOutcome::TimedOut, &config) {
        FallbackStep::Scan(retry) => retry,
        FallbackStep::Done(_) => panic!("the scan is to be repeated"),
    };
    assert!(retry.options.hwaccel.is_none());
    assert_eq!(retry.options.scan_ns, 180 * SECOND);
    match retry.after_scan(&ScanOutcome::TimedOut, &config) {
        FallbackStep::Done(found) => assert!(found.is_none()),
        FallbackStep::Scan(_) => panic!("the scan is not repeated twice"),
    }
}

#[test]
fn scanned_credits_fill_the_gap() {
    let prints: Vec<EpisodeAnalysis<u32>> = (1..=3)
        .map(|n| {
            let tail = window(print(100 + n, 0, 150), Some(1_000 * SECOND));
            analysis(n, None, Some(tail))
        })
        .collect();
    let matched = match_analyses(&prints, &Config::default());
    assert!(matched.episodes.iter().all(|e| e.audio.fallback.is_some()));
    let scanned = Segment {
        start_ns: 920 * SECOND,
        end_ns: 1_000 * SECOND,
        confidence: Ratio { num: 1, den: 2 },
        source: SegmentSource::Blackframe,
    };
    let result = matched.finish(&[None, Some(scanned), None]);
    assert_eq!(result.markers[0].credits, None);
    assert_eq!(result.markers[1].credits, Some(scanned));
}

#[test]
fn failed_windows_do_not_fail_the_episode() {
    let episode = EpisodeFile { id: "x".to_string(), path: 5u32, episode_number: 9 };
    let analysis =
        analyze_episode(&episode, Err("broken"), Ok(window(print(1, 0, 3), None)));
    assert_eq!((analysis.episode_id.as_str(), analysis.episode_number, analysis.path), ("x", 9, 5));
    assert!(analysis.intro.is_none());
    assert!(analysis.credits.is_some());
}

#[test]
fn bootstrap_files_get_ids() {
    let episodes = bootstrap_episodes(vec!["a", "b"]);
    assert_eq!(episodes[1].id, "bootstrap-1");
    assert_eq!(episodes[1].path, "b");
    assert_eq!(episodes[1].episode_number, 2);
}

#[test]
fn small_seasons_keep_fingerprints_alone() {
    let prints: Vec<EpisodeAnalysis<u32>> =
        (1..=2).map(|n| analysis(n, Some(print(1, 10 * n, 150)), None)).collect();
    match detect_and_persist(&season(2), &prints, &Config::default()) {
        PersistPlan::FingerprintsOnly(result) => {
            assert_eq!(result.markers.len(), 2);
            assert!(result.markers.iter().all(|m| m.intro.is_none() && m.credits.is_none()));
            assert!(result.intro_references.is_empty() && result.credits_references.is_empty());
        }
        PersistPlan::Matched(_) => panic!("two episodes bootstrap nothing"),
    }
    let larger: Vec<EpisodeAnalysis<u32>> =
        (1..=3).map(|n| analysis(n, Some(print(1, 10 * n, 150)), None)).collect();
    assert!(matches!(
        detect_and_persist(&season(3), &larger, &Config::default()),
        PersistPlan::Matched(_)
    ));
}

#[test]
fn writes_come_in_order() {
    let prints = vec![
        analysis(4, Some(print(1, 0, 3)), Some(window(print(1, 0, 3), None))),
        analysis(5, None, None),
        analysis(6, None, Some(window(print(1, 0, 3), None))),
    ];
    let intro = FingerprintKind::Intro;
    let credits = FingerprintKind::Credits;
    assert_eq!(
        persist_episode_fingerprints(&prints),
        vec![
            StoreStep::Fingerprint { episode: 0, episode_number: 4, kind: intro },
            StoreStep::Fingerprint { episode: 0, episode_number: 4, kind: credits },
            StoreStep::Fingerprint { episode: 2, episode_number: 6, kind: credits },
        ]
    );
    let result = match_analyses(&prints, &Config::default()).finish(&[None, None, None]);
    assert_eq!(
        persist_result(&result),
        vec![
            StoreStep::Markers { index: 0 },
            StoreStep::Markers { index: 1 },
            StoreStep::Markers { index: 2 },
            StoreStep::References { kind: intro },
            StoreStep::References { kind: credits },
        ]
    );
    assert_eq!(persist_scan(&season(3), &result), persist_result(&result));
    assert_eq!(persist_scan(&season(2), &result), persist_result(&result)[..3].to_vec());
}

#[test]
fn a_window_carries_its_region() {
    let region = AudioRegion {
        levels: vec![1, 2, 3],
        sample_rate: 16_000,
        offset_ns: 77,
        total_duration_ns: Some(5),
    };
    let window = decode_and_fingerprint(region, &[], &[], &Config::default());
    assert_eq!(window.region.levels, vec![1, 2, 3]);
    assert_eq!(window.fp.time_offset_ns, 77);
    assert!(window.fp.is_empty());
}
