//! End-to-end test of the fingerprint → reference → match → refine pipeline.
//!
//! No real media files are involved: we synthesize three "episodes" that share
//! a known "intro" chirp and differ in the body, then assert the matcher locates
//! the intro and the boundary refiner snaps the end near the chirp's offset.

use std::collections::HashMap;
use std::f32::consts::TAU;
use std::path::PathBuf;

use rustfft::num_complex::Complex;
use rustfft::FftPlanner;
use tacet::audio::AudioRegion;
use tacet::boundary;
use tacet::detection::{
    analyze_episode, detect_and_persist, detect_season, EpisodeAnalysis, EpisodeFile, PersistPlan,
    Season,
};
use tacet::fingerprint::{fingerprint, stft_shape, Fingerprint, FingerprintKind};
use tacet::matching;
use tacet::storage::references::{load_references, save_references};
use tacet::storage::{episode_fp_path, season_dir};
use tacet::{Config, Ratio};

struct Synthetic {
    region: AudioRegion,
    samples: Vec<f32>,
}

fn synth_region(seed: u32, intro_seconds: f32, body_seconds: f32, sample_rate: u32) -> Synthetic {
    let total = ((intro_seconds + body_seconds) * sample_rate as f32) as usize;
    let intro_len = (intro_seconds * sample_rate as f32) as usize;
    let mut samples = Vec::with_capacity(total);

    // Identical "intro" content for every episode: a multi-tone chord whose
    // harmonics give the constellation hasher something to lock onto.
    for i in 0..intro_len {
        let t = i as f32 / sample_rate as f32;
        let s = (TAU * 440.0 * t).sin() * 0.4
            + (TAU * 660.0 * t).sin() * 0.25
            + (TAU * 990.0 * t).sin() * 0.15;
        samples.push(s);
    }

    // Per-episode "body": random-ish noise driven by seed so no two episodes
    // share body content. We use a deterministic PRNG so tests are reproducible.
    let mut state = seed.wrapping_mul(2654435761);
    for _ in 0..(total - intro_len) {
        state = state.wrapping_mul(1664525).wrapping_add(1013904223);
        let n = ((state >> 8) as f32 / u32::MAX as f32 - 0.5) * 0.8;
        samples.push(n);
    }

    let region = AudioRegion {
        levels: levels(&samples, sample_rate),
        sample_rate,
        offset_ns: 0,
        total_duration_ns: Some(((total as f32 / sample_rate as f32) as f64 * 1e9) as i64),
    };
    Synthetic { region, samples }
}

fn levels(samples: &[f32], sample_rate: u32) -> Vec<i32> {
    let window = boundary::rms_window(sample_rate) as usize;
    samples
        .chunks_exact(window)
        .map(|w| {
            let mean_sq = w.iter().map(|s| s * s).sum::<f32>() / window as f32;
            (10.0 * (mean_sq + 1e-12).log10() as f64 * 1e6) as i32
        })
        .collect()
}

/// Bit patterns of the magnitude spectrogram, from a Hann-windowed transform.
fn spectrogram(samples: &[f32], config: &Config) -> Vec<Vec<u32>> {
    let size = config.fft_size;
    let (frames, bins) = stft_shape(samples.len(), config);
    let fft = FftPlanner::<f32>::new().plan_fft_forward(size);
    let window: Vec<f32> =
        (0..size).map(|i| 0.5 * (1.0 - (TAU * i as f32 / (size - 1) as f32).cos())).collect();
    (0..frames)
        .map(|f| {
            let start = f * config.hop_size;
            let mut buffer: Vec<Complex<f32>> =
                (0..size).map(|i| Complex::new(samples[start + i] * window[i], 0.0)).collect();
            fft.process(&mut buffer);
            buffer[..bins].iter().map(|c| (c.re * c.re + c.im * c.im).sqrt().to_bits()).collect()
        })
        .collect()
}

fn raw_edges(num_bins: usize, num_bands: usize) -> Vec<(usize, usize)> {
    let log_min = 10f64.ln();
    let step = (((num_bins - 1) as f64).ln() - log_min) / num_bands as f64;
    (0..num_bands)
        .map(|i| {
            let lo = (log_min + step * i as f64).exp() as usize;
            let hi = (log_min + step * (i + 1) as f64).exp() as usize;
            (lo, hi)
        })
        .collect()
}

fn print_of(synthetic: &Synthetic, config: &Config) -> Fingerprint {
    let edges = raw_edges(config.fft_size / 2 + 1, config.num_bands);
    fingerprint(&synthetic.region, &spectrogram(&synthetic.samples, config), &edges, config)
}

#[test]
fn matcher_finds_shared_intro_across_synthetic_episodes() {
    let config = Config {
        match_threshold: Ratio { num: 2, den: 100 },
        min_segment_ns: 1_000_000_000,
        ..Config::default()
    };

    let regions: Vec<Synthetic> =
        (0..3).map(|seed| synth_region(seed, 6.0, 8.0, config.sample_rate)).collect();
    let fps: Vec<Fingerprint> = regions.iter().map(|r| print_of(r, &config)).collect();

    let reference =
        matching::build_reference(&fps.iter().collect::<Vec<_>>(), &config).expect("reference");

    // The reference should contain a meaningful fraction of the input hashes.
    assert!(reference.len() > 50, "reference too sparse: {}", reference.len());

    for (i, fp) in fps.iter().enumerate() {
        let m = matching::match_against_reference(&reference, fp, &config)
            .unwrap_or_else(|| panic!("episode {i}: no match found"));
        let (start, end) = (m.start_ns as f64 / 1e9, m.end_ns as f64 / 1e9);
        assert!(start < 1.5, "episode {i}: start {start:.2}s should be near 0");
        assert!(
            end > 4.0 && end < 8.0,
            "episode {i}: end {end:.2}s should be near the intro/body boundary (~6s)"
        );
    }
}

#[test]
fn detect_and_persist_writes_markers_and_references() {
    // The directory of a season, held in memory.
    let mut prints: HashMap<String, Fingerprint> = HashMap::new();
    let mut references: HashMap<String, matching::ReferenceFingerprint> = HashMap::new();
    assert_eq!(season_dir("synthetic", 1), ("synthetic".to_string(), "s01".to_string()));

    // Three short fake media files would require encoders we don't have, so we
    // exercise the persistence path by fingerprinting synthetic regions
    // directly and writing them through the store, then assert reads back.
    let config = Config::default();
    let regions: Vec<Synthetic> =
        (0..3).map(|seed| synth_region(seed, 6.0, 8.0, config.sample_rate)).collect();
    let fps: Vec<Fingerprint> = regions.iter().map(|r| print_of(r, &config)).collect();

    let reference = matching::build_reference(&fps.iter().collect::<Vec<_>>(), &config).unwrap();
    let plan = save_references(FingerprintKind::Intro, &[], 1);
    references.insert(plan.write[0].clone(), reference.clone());
    for (i, fp) in fps.iter().enumerate() {
        prints.insert(episode_fp_path((i + 1) as u32, FingerprintKind::Intro), fp.clone());
    }

    let mut loader = load_references(FingerprintKind::Intro);
    while !loader.accept(references.get(&loader.next_file()).cloned()) {}
    let loaded_refs = loader.loaded;
    assert_eq!(loaded_refs.len(), 1);
    assert_eq!(loaded_refs[0].len(), reference.len());

    let loaded_fp = prints
        .get(&episode_fp_path(1, FingerprintKind::Intro))
        .expect("episode fingerprint should be present");
    assert_eq!(loaded_fp.len(), fps[0].len());
}

#[test]
fn empty_season_yields_empty_result() {
    let season: Season<PathBuf> = Season {
        series_id: "nothing".to_string(),
        season_number: 1,
        episodes: vec![],
    };
    let result = detect_season(&season, &[], &Config::default()).finish(&[]);
    assert!(result.markers.is_empty());
    assert!(result.intro_references.is_empty());
    assert!(result.credits_references.is_empty());
}

#[test]
fn missing_files_do_not_panic_just_warn() {
    // A "season" whose files don't exist should surface as empty markers, not
    // as a panic.
    let season = Season {
        series_id: "ghost".to_string(),
        season_number: 1,
        episodes: vec![EpisodeFile {
            id: "ghost-s01e01".to_string(),
            path: PathBuf::from("does-not-exist.mkv"),
            episode_number: 1,
        }],
    };
    // analyze_episode tolerates failed decodes (returns None windows), so
    // detect_and_persist should succeed with empty markers, not error.
    let failed = || Err("Failed to open media file");
    let prints: Vec<EpisodeAnalysis<PathBuf>> =
        season.episodes.iter().map(|e| analyze_episode(e, failed(), failed())).collect();
    let result = match detect_and_persist(&season, &prints, &Config::default()) {
        PersistPlan::FingerprintsOnly(result) => result,
        PersistPlan::Matched(matched) => matched.finish(&[None]),
    };
    assert_eq!(result.markers.len(), 1);
    assert!(result.markers[0].intro.is_none());
    assert!(result.markers[0].credits.is_none());
}
