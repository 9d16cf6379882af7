//! Boundary refinement.

use tacet::audio::AudioRegion;
use tacet::boundary::{find_best_transition, refine, rms_window, Edge};

/// Level of each analysis window of some samples, in millionths of a decibel.
fn levels(samples: &[f32], sample_rate: u32) -> Vec<i32> {
    let window = rms_window(sample_rate) as usize;
    samples
        .chunks_exact(window)
        .map(|w| {
            let mean_sq = w.iter().map(|s| s * s).sum::<f32>() / window as f32;
            (10.0 * (mean_sq + 1e-12).log10() as f64 * 1e6) as i32
        })
        .collect()
}

fn region_with(samples: Vec<f32>, sample_rate: u32, offset: f64) -> AudioRegion {
    AudioRegion {
        levels: levels(&samples, sample_rate),
        sample_rate,
        offset_ns: ns(offset),
        total_duration_ns: None,
    }
}

fn region_of(levels: Vec<i32>) -> AudioRegion {
    AudioRegion { levels, sample_rate: 20, offset_ns: 0, total_duration_ns: None }
}

fn ns(seconds: f64) -> i64 {
    (seconds * 1e9).round() as i64
}

fn seconds(ns: i64) -> f64 {
    ns as f64 / 1e9
}

#[test]
fn snaps_start_to_energy_onset() {
    // 1 second of silence, then 1 second of tone, at 16 kHz.
    let mut samples = vec![0.0_f32; 16_000];
    samples.extend((0..16_000).map(|i| (i as f32 * 0.05).sin() * 0.5));
    let region = region_with(samples, 16_000, 0.0);

    // Pretend the matcher said the intro starts at 0.5s — the real onset is at 1.0s.
    let (start, _end) = refine(&region, ns(0.5), ns(1.8));
    let start = seconds(start);
    assert!((start - 1.0).abs() < 0.1, "got {start}, expected ~1.0");
}

#[test]
fn snaps_end_to_energy_offset() {
    // 1 second of tone, then 1 second of silence.
    let mut samples: Vec<f32> = (0..16_000).map(|i| (i as f32 * 0.05).sin() * 0.5).collect();
    samples.extend(vec![0.0_f32; 16_000]);
    let region = region_with(samples, 16_000, 0.0);

    // Matcher overshoots into silence.
    let (_start, end) = refine(&region, ns(0.1), ns(1.5));
    let end = seconds(end);
    assert!((end - 1.0).abs() < 0.1, "got {end}, expected ~1.0");
}

#[test]
fn falls_back_when_no_clear_transition() {
    let samples = vec![0.1_f32; 16_000 * 3];
    let region = region_with(samples, 16_000, 10.0);
    let (start, end) = refine(&region, ns(11.0), ns(12.0));
    assert!((seconds(start) - 11.0).abs() < 1e-6);
    assert!((seconds(end) - 12.0).abs() < 1e-6);
}

#[test]
fn windows_are_a_twentieth_of_a_second() {
    assert_eq!(rms_window(16_000), 800);
    assert_eq!(rms_window(44_100), 2205);
    assert_eq!(rms_window(19), 1);
    assert_eq!(rms_window(0), 1);
}

#[test]
fn too_little_audio_is_left_alone() {
    let short = region_of(vec![-60_000_000, 0]);
    assert_eq!(refine(&short, 5, 9), (5, 9));
    let mut silent = region_of(vec![-60_000_000, 0, -60_000_000]);
    silent.sample_rate = 0;
    assert_eq!(refine(&silent, 5, 9), (5, 9));
}

#[test]
fn edges_snap_to_the_middle_of_a_window() {
    // Windows of one sample, 50 ms each: loud from the fourth to the seventh.
    let low = -60_000_000;
    let region = region_of(vec![low, low, low, 0, 0, 0, 0, low, low, low]);
    assert_eq!(refine(&region, 200_000_000, 300_000_000), (175_000_000, 375_000_000));
}

#[test]
fn a_transition_below_three_decibels_does_not_count() {
    assert_eq!(find_best_transition(&[0, 2_999_999, 0], 1, 5, Edge::Onset), None);
    assert_eq!(find_best_transition(&[0, 3_000_000, 0], 1, 5, Edge::Onset), Some(1));
    assert_eq!(find_best_transition(&[0, 3_000_000, 0], 1, 5, Edge::Offset), Some(2));
}

#[test]
fn the_first_of_equal_transitions_counts() {
    let levels = [0, 5_000_000, 0, 5_000_000, 0];
    assert_eq!(find_best_transition(&levels, 2, 9, Edge::Onset), Some(1));
    assert_eq!(find_best_transition(&levels, 3, 1, Edge::Onset), Some(3));
    // Fewer than two windows in reach.
    assert_eq!(find_best_transition(&levels, 1, 0, Edge::Onset), None);
    assert_eq!(find_best_transition(&levels, -9, 3, Edge::Onset), None);
}

#[test]
fn refined_span_stays_in_order() {
    let low = -60_000_000;
    // The only rise lies after the rough end.
    let region = region_of(vec![low, low, low, low, low, low, 0, 0, 0, 0]);
    let (start, end) = refine(&region, 0, 100_000_000);
    assert_eq!(start, 100_000_000);
    assert!(start <= end && end <= 2_100_000_000);
}

#[test]
fn an_edge_moves_no_further_than_the_radius() {
    // One rise three seconds in: in reach from 1.5 s, out of reach from 0.5 s.
    let mut levels = vec![-60_000_000; 60];
    levels.extend(vec![0; 60]);
    let region = region_of(levels);
    assert_eq!(refine(&region, ns(1.5), ns(5.0)).0, ns(3.025));
    assert_eq!(refine(&region, ns(0.5), ns(5.0)).0, ns(0.5));
}
