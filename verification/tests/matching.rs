//! Reference bootstrap and matching.

use std::collections::HashMap;

use tacet::fingerprint::{Fingerprint, FpHash, FrameLength};
use tacet::matching::run::longest_run;
use tacet::matching::{
    build_reference, intersect_bootstrap, match_against_reference, match_against_references,
    ReferenceFingerprint,
};
use tacet::{Config, Ratio};

fn fp_with(hashes: Vec<(u32, u32)>) -> Fingerprint {
    Fingerprint {
        hashes: hashes.into_iter().map(|(hash, frame)| FpHash { hash, frame }).collect(),
        time_offset_ns: 0,
        frame_duration: FrameLength::new(1, 10),
    }
}

fn reference_with(hashes: Vec<(u32, u32)>) -> ReferenceFingerprint {
    ReferenceFingerprint {
        hash_to_frame: hashes.into_iter().collect(),
        frame_duration: FrameLength::new(1, 10),
        support: 3,
    }
}

fn lenient_config() -> Config {
    Config {
        match_threshold: Ratio { num: 1, den: 2 },
        min_segment_ns: 500_000_000,
        ..Config::default()
    }
}

fn share(r: Ratio) -> f64 {
    r.num as f64 / r.den as f64
}

#[test]
fn single_fingerprint_passes_through() {
    let fp = fp_with(vec![(1, 0), (2, 5), (3, 10)]);
    let r = build_reference(&[&fp], &Config::default()).unwrap();
    assert_eq!(r.len(), 3);
    assert_eq!(r.support, 1);
}

#[test]
fn single_fingerprint_keeps_the_earliest_frame() {
    let fp = fp_with(vec![(1, 9), (1, 4), (1, 6)]);
    let r = build_reference(&[&fp], &Config::default()).unwrap();
    assert_eq!(r.hash_to_frame, HashMap::from([(1, 4)]));
}

#[test]
fn nothing_bootstraps_nothing() {
    assert!(build_reference(&[], &Config::default()).is_none());
    let empty = fp_with(vec![]);
    let r = build_reference(&[&empty, &empty, &empty], &Config::default()).unwrap();
    assert!(r.is_empty());
    assert_eq!(r.support, 3);
}

#[test]
fn intersection_keeps_shared_hashes() {
    let a = fp_with(vec![(10, 0), (20, 5), (30, 10)]);
    let b = fp_with(vec![(10, 2), (20, 7), (99, 8)]); // shifted by +2, plus noise
    let c = fp_with(vec![(10, 4), (20, 9), (88, 1)]); // shifted by +4, plus noise

    let r = build_reference(&[&a, &b, &c], &Config::default()).unwrap();
    // 10 and 20 are confirmed by all three; 30 only by anchor.
    assert!(r.hash_to_frame.contains_key(&10));
    assert!(r.hash_to_frame.contains_key(&20));
    assert!(!r.hash_to_frame.contains_key(&99));
    assert!(!r.hash_to_frame.contains_key(&88));
    assert!(!r.hash_to_frame.contains_key(&30));
    assert_eq!(r.hash_to_frame[&20], 5);
}

#[test]
fn match_finds_offset_and_span() {
    let reference = reference_with(vec![(10, 0), (20, 5), (30, 10), (40, 15)]);
    let query = fp_with(vec![(10, 100), (20, 105), (30, 110), (40, 115), (99, 200)]);
    let config = lenient_config();

    let m = match_against_reference(&reference, &query, &config).unwrap();
    assert_eq!(m.offset_frames, 100);
    assert_eq!(m.start_ns, 10_000_000_000);
    assert_eq!(m.end_ns, 11_500_000_000);
    assert!(share(m.confidence) >= 0.8);
    assert_eq!(m.confidence, Ratio { num: 4, den: 4 });
}

#[test]
fn match_ignores_stray_votes_far_from_run() {
    // Reference and query share a contiguous span at offset +100, plus one
    // stray hash at frame 900 that also happens to land on the same delta.
    // Without longest-run filtering the reported end would be ~90s instead
    // of the real ~1.5s.
    let reference = reference_with(vec![(10, 0), (20, 5), (30, 10), (40, 15), (50, 800)]);
    let query = fp_with(vec![
        (10, 100),
        (20, 105),
        (30, 110),
        (40, 115),
        (50, 900), // delta = +100, but 785 frames away from the rest
    ]);
    let config = lenient_config();

    let m = match_against_reference(&reference, &query, &config).unwrap();
    assert_eq!(m.offset_frames, 100);
    assert!(m.end_ns < 20_000_000_000, "end={} should be near the contiguous run", m.end_ns);
}

#[test]
fn intersect_is_deterministic_under_repeated_anchor_frames() {
    // Same hash at multiple anchor frames — earliest should always win.
    let a = fp_with(vec![(7, 50), (7, 5), (7, 20)]);
    let b = fp_with(vec![(7, 50), (7, 5), (7, 20)]);
    let c = fp_with(vec![(7, 50), (7, 5), (7, 20)]);

    let r = build_reference(&[&a, &b, &c], &Config::default()).unwrap();
    assert_eq!(r.hash_to_frame.get(&7).copied(), Some(5));
}

#[test]
fn hashes_the_reference_does_not_know_change_nothing() {
    let reference = reference_with(vec![(10, 0), (20, 5), (30, 10), (40, 15)]);
    let short = fp_with(vec![(10, 100), (20, 105), (30, 110), (40, 115)]);
    let mut padded: Vec<(u32, u32)> = (0..5_000).map(|i| (1_000 + i, i)).collect();
    padded.extend([(10, 100), (20, 105), (30, 110), (40, 115)]);
    let long = fp_with(padded);
    let config = lenient_config();
    assert_eq!(
        match_against_reference(&reference, &short, &config),
        match_against_reference(&reference, &long, &config)
    );
}

#[test]
fn a_moved_query_matches_where_it_was_moved() {
    let reference = reference_with(vec![(10, 7), (20, 12), (30, 17), (40, 22)]);
    let at = |k: u32| fp_with(vec![(10, k), (20, 5 + k), (30, 10 + k), (40, 15 + k), (5, 3 + k)]);
    let config = lenient_config();
    let here = match_against_reference(&reference, &at(100), &config).unwrap();
    let there = match_against_reference(&reference, &at(350), &config).unwrap();
    assert_eq!(there.start_ns, here.start_ns + 25_000_000_000);
    assert_eq!(there.end_ns, here.end_ns + 25_000_000_000);
    assert_eq!(there.offset_frames, here.offset_frames + 250);
    assert_eq!(there.confidence, here.confidence);
}

#[test]
fn two_of_three_recordings_are_enough() {
    let a = fp_with(vec![(10, 0), (20, 5), (30, 10)]);
    let b = fp_with(vec![(10, 2), (20, 7)]);
    let c = fp_with(vec![(10, 4), (10, 4), (30, 99), (30, 99)]);
    let r = build_reference(&[&a, &b, &c], &Config::default()).unwrap();
    // 20 is held by the second recording alone besides the first; 30 by the
    // third, but at another shift, however often.
    assert_eq!(r.hash_to_frame, HashMap::from([(10, 0), (20, 5)]));
}

#[test]
fn too_small_a_share_or_too_short_a_span_is_no_match() {
    let reference = reference_with((0..10).map(|i| (i, i)).collect());
    let few = fp_with(vec![(0, 50), (1, 51), (2, 52), (3, 53)]);
    assert!(match_against_reference(&reference, &few, &lenient_config()).is_none());
    let short = fp_with((0..5).map(|i| (i, 50 + i)).collect());
    assert!(match_against_reference(&reference, &short, &lenient_config()).is_none());
    let enough = fp_with((0..6).map(|i| (i, 50 + i)).collect());
    let m = match_against_reference(&reference, &enough, &lenient_config()).unwrap();
    assert_eq!(m.confidence, Ratio { num: 6, den: 10 });
    assert_eq!((m.start_ns, m.end_ns), (5_000_000_000, 5_500_000_000));
}

#[test]
fn empty_sides_do_not_match() {
    let config = lenient_config();
    let reference = reference_with(vec![(1, 1)]);
    assert!(match_against_reference(&reference, &fp_with(vec![]), &config).is_none());
    assert!(match_against_reference(&reference_with(vec![]), &fp_with(vec![(1, 1)]), &config)
        .is_none());
}

#[test]
fn best_reference_wins() {
    let weak = reference_with(vec![(10, 0), (20, 5), (30, 10), (77, 3)]);
    let strong = reference_with(vec![(10, 0), (20, 5), (30, 10)]);
    let query = fp_with(vec![(10, 100), (20, 105), (30, 110)]);
    let config = lenient_config();
    let m = match_against_references(&[weak.clone(), strong.clone()], &query, &config).unwrap();
    assert_eq!(m.confidence, Ratio { num: 3, den: 3 });
    let m = match_against_references(&[strong, weak], &query, &config).unwrap();
    assert_eq!(m.confidence, Ratio { num: 3, den: 3 });
    assert!(match_against_references(&[], &query, &config).is_none());
}

#[test]
fn longest_run_tolerates_small_gaps_only() {
    assert_eq!(longest_run(&[3], 10), (3, 3));
    assert_eq!(longest_run(&[0, 1, 20, 25, 35, 60], 10), (20, 35));
    assert_eq!(longest_run(&[0, 10, 21, 31], 10), (0, 10));
}

#[test]
fn the_reference_ignores_where_the_theme_lies() {
    let anchor = vec![(10, 3), (20, 5), (30, 9), (10, 40), (40, 41)];
    let others = [
        vec![(10, 103), (20, 105), (99, 7), (30, 109)],
        vec![(20, 12), (30, 16), (40, 48), (10, 10)],
    ];
    let build = |shifts: [i64; 2]| {
        let first = fp_with(anchor.clone());
        let rest: Vec<Fingerprint> = others
            .iter()
            .zip(shifts)
            .map(|(fp, c)| {
                fp_with(fp.iter().map(|&(hash, frame)| (hash, (frame as i64 + c) as u32)).collect())
            })
            .collect();
        let set = [&first, &rest[0], &rest[1]];
        let frames = intersect_bootstrap(&set).hash_to_frame;
        assert_eq!(build_reference(&set, &Config::default()).unwrap().hash_to_frame, frames);
        frames
    };
    let expected = HashMap::from([(10, 3), (20, 5), (30, 9), (40, 41)]);
    for shifts in [[0, 0], [-7, 0], [500, -10], [1_000_000, 2_000_000]] {
        assert_eq!(build(shifts), expected);
    }
}

#[test]
fn a_match_moves_with_the_query() {
    let reference = reference_with((0..20).map(|i| (i, i)).collect());
    let at = |start: u32, length: FrameLength| {
        let mut fp = fp_with((0..20).map(|i| (i, start + i)).collect());
        fp.frame_duration = length;
        match_against_reference(&reference, &fp, &lenient_config()).unwrap()
    };
    let tenth = FrameLength::new(1, 10);
    let (here, there) = (at(5, tenth), at(105, tenth));
    assert_eq!((here.start_ns, here.end_ns, here.offset_frames), (500_000_000, 2_400_000_000, 5));
    assert_eq!(there.start_ns, here.start_ns + 10_000_000_000);
    assert_eq!(there.end_ns, here.end_ns + 10_000_000_000);
    assert_eq!((there.offset_frames, there.confidence), (105, here.confidence));
    // A third of a second is no whole number of nanoseconds; three thirds are.
    let third = FrameLength::new(1, 3);
    let (here, there) = (at(4, third), at(7, third));
    assert_eq!((here.start_ns, here.end_ns), (1_333_333_333, 7_666_666_666));
    assert_eq!((there.start_ns, there.end_ns), (2_333_333_333, 8_666_666_666));
}
