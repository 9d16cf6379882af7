//! Peaks, hashes and fingerprints.

use tacet::audio::AudioRegion;
use tacet::fingerprint::constellation::{build_fingerprint, compute_hash};
use tacet::fingerprint::peaks::{compute_band_edges, extract_peaks, is_greater, SpectralPeak};
use tacet::fingerprint::{fingerprint, stft_shape, FpHash};
use tacet::Config;

/// Whole parts of logarithmically spaced band edges.
fn raw_edges(num_bins: usize, num_bands: usize) -> Vec<(usize, usize)> {
    let log_min = 10f64.ln();
    let log_max = (num_bins.saturating_sub(1) as f64).ln();
    let step = (log_max - log_min) / num_bands as f64;
    (0..num_bands)
        .map(|i| {
            let lo = (log_min + step * i as f64).exp() as usize;
            let hi = (log_min + step * (i + 1) as f64).exp() as usize;
            (lo, hi)
        })
        .collect()
}

fn peak(frame: u32, bin: u16) -> SpectralPeak {
    SpectralPeak { frame, bin, magnitude: 1f32.to_bits() }
}

fn bits(frame: &[f32]) -> Vec<u32> {
    frame.iter().map(|x| x.to_bits()).collect()
}

#[test]
fn test_hash_packing() {
    let h = compute_hash(100, 200, 50);
    // Verify we can unpack
    let a = (h >> 22) & 0x3FF;
    let t = (h >> 12) & 0x3FF;
    let d = h & 0xFFF;
    assert_eq!(a, 100);
    assert_eq!(t, 200);
    assert_eq!(d, 50);
}

#[test]
fn hash_fields_wrap_to_their_width() {
    assert_eq!(compute_hash(1024 + 3, 2048 + 5, 4096 + 7), compute_hash(3, 5, 7));
    assert_eq!(compute_hash(1023, 1023, 4095), u32::MAX);
}

#[test]
fn test_empty_peaks_produce_empty_fingerprint() {
    let config = Config::default();
    let fp = build_fingerprint(vec![], &config, 0, 16000);
    assert!(fp.is_empty());
}

#[test]
fn test_band_edges_logarithmic() {
    let bands = compute_band_edges(2049, &raw_edges(2049, 6));
    assert_eq!(bands.len(), 6);
    // Each band should be wider than the previous (log spacing)
    for i in 1..bands.len() {
        let prev_width = bands[i - 1].1 - bands[i - 1].0;
        let curr_width = bands[i].1 - bands[i].0;
        assert!(curr_width >= prev_width, "Bands should grow logarithmically");
    }
}

#[test]
fn band_edges_are_clipped_and_empty_bands_dropped() {
    assert_eq!(compute_band_edges(11, &[(1, 50)]), vec![(10, 10)]);
    assert_eq!(compute_band_edges(0, &[]), vec![(10, 0)]);
    assert_eq!(compute_band_edges(101, &[(5, 20), (20, 20), (20, 500)]), vec![(10, 20), (20, 100)]);
}

#[test]
fn test_peak_extraction_empty() {
    let config = Config::default();
    let peaks = extract_peaks(&[], &raw_edges(2049, config.num_bands));
    assert!(peaks.is_empty());
}

#[test]
fn strongest_local_maximum_of_each_band_is_the_peak() {
    let mut frame = vec![0f32; 40];
    frame[12] = 0.5;
    frame[15] = 0.9;
    frame[16] = 0.8;
    frame[30] = 0.00005;
    let frames = vec![bits(&frame), bits(&vec![0f32; 40])];
    let peaks = extract_peaks(&frames, &[(10, 20), (20, 39)]);
    assert_eq!(peaks, vec![SpectralPeak { frame: 0, bin: 15, magnitude: 0.9f32.to_bits() }]);
}

#[test]
fn the_flank_of_a_stronger_bin_outside_the_band_is_no_peak() {
    let mut below = vec![0f32; 40];
    below[9] = 3.0;
    below[10] = 2.0;
    below[11] = 1.0;
    let mut above = vec![0f32; 40];
    above[19] = 1.0;
    above[20] = 2.0;
    above[21] = 3.0;
    assert!(extract_peaks(&[bits(&below), bits(&above)], &[(10, 20)]).is_empty());
    // On the edge of the band, and above both neighbours.
    let mut edge = vec![0f32; 40];
    edge[9] = 1.0;
    edge[10] = 2.0;
    let peaks = extract_peaks(&[bits(&edge)], &[(10, 20)]);
    assert_eq!(peaks, vec![SpectralPeak { frame: 0, bin: 10, magnitude: 2f32.to_bits() }]);
    // The last bin of the spectrum has one neighbour.
    let mut last = vec![0f32; 40];
    last[39] = 2.0;
    assert_eq!(extract_peaks(&[bits(&last)], &[(20, 39)])[0].bin, 39);
}

#[test]
fn peaks_come_sorted_and_at_most_one_per_band() {
    let frames: Vec<Vec<u32>> = (0..5u32)
        .map(|f| bits(&(0..60u32).map(|b| ((b * 37 + f * 11) % 23) as f32).collect::<Vec<f32>>()))
        .collect();
    let bands = [(10, 20), (20, 35), (35, 59)];
    let peaks = extract_peaks(&frames, &bands);
    assert!(!peaks.is_empty() && peaks.len() <= frames.len() * bands.len());
    assert!(peaks.windows(2).all(|w| (w[0].frame, w[0].bin) <= (w[1].frame, w[1].bin)));
}

#[test]
fn magnitudes_compare_as_numbers() {
    let samples = [f32::NEG_INFINITY, -2.5, -0.0, 0.0, 1e-40, 1e-4, 3.0, f32::INFINITY, f32::NAN];
    for a in samples {
        for b in samples {
            assert_eq!(is_greater(a.to_bits(), b.to_bits()), a > b, "{a} > {b}");
        }
    }
}

#[test]
fn anchors_are_paired_with_the_nearest_later_peaks() {
    let config = Config { fan_out: 2, max_target_delta: 10, ..Config::default() };
    let peaks = vec![peak(0, 11), peak(0, 12), peak(3, 13), peak(4, 14), peak(5, 15), peak(30, 16)];
    let fp = build_fingerprint(peaks, &config, 7_000_000_000, 16_000);
    let expected = vec![
        FpHash { hash: compute_hash(11, 13, 3), frame: 0 },
        FpHash { hash: compute_hash(11, 14, 4), frame: 0 },
        FpHash { hash: compute_hash(12, 13, 3), frame: 0 },
        FpHash { hash: compute_hash(12, 14, 4), frame: 0 },
        FpHash { hash: compute_hash(13, 14, 1), frame: 3 },
        FpHash { hash: compute_hash(13, 15, 2), frame: 3 },
        FpHash { hash: compute_hash(14, 15, 1), frame: 4 },
    ];
    assert_eq!(fp.hashes, expected);
    assert_eq!((fp.frame_duration.samples(), fp.frame_duration.rate()), (2048, 16_000));
    assert_eq!(fp.frame_to_seconds(10), 8_280_000_000);
}

#[test]
fn louder_and_later_audio_has_the_same_hashes() {
    let config = Config::default();
    let quiet = vec![peak(0, 20), peak(2, 30), peak(5, 25)];
    let loud: Vec<SpectralPeak> = quiet
        .iter()
        .map(|p| SpectralPeak { frame: p.frame + 40, bin: p.bin, magnitude: 9f32.to_bits() })
        .collect();
    let a = build_fingerprint(quiet, &config, 0, 16_000);
    let b = build_fingerprint(loud, &config, 0, 16_000);
    assert_eq!(a.len(), 3);
    for (x, y) in a.hashes.iter().zip(&b.hashes) {
        assert_eq!(x.hash, y.hash);
        assert_eq!(x.frame + 40, y.frame);
    }
}

#[test]
fn stft_produces_expected_frame_count() {
    let config = Config::default();
    let (frames, bins) = stft_shape(config.fft_size * 4, &config);
    // (4*fft - fft)/hop + 1 = 3*fft/hop + 1 = 3*2 + 1 = 7
    assert_eq!(frames, 7);
    assert_eq!(bins, config.fft_size / 2 + 1);
}

#[test]
fn stft_handles_undersized_input() {
    let config = Config::default();
    let (frames, _bins) = stft_shape(10, &config);
    assert_eq!(frames, 0);
}

#[test]
fn stft_frames_fill_the_samples() {
    let config = Config { fft_size: 8, hop_size: 3, ..Config::default() };
    assert_eq!(stft_shape(8, &config).0, 1);
    assert_eq!(stft_shape(10, &config).0, 1);
    assert_eq!(stft_shape(11, &config).0, 2);
    assert_eq!(stft_shape(13, &config).0, 2);
    assert_eq!(stft_shape(14, &config).0, 3);
}

#[test]
fn fingerprint_runs_peaks_through_the_hasher() {
    let config = Config::default();
    let mut first = vec![0f32; 40];
    first[12] = 0.5;
    let mut second = vec![0f32; 40];
    second[15] = 0.5;
    let region = AudioRegion {
        levels: vec![],
        sample_rate: 16_000,
        offset_ns: 5_000_000_000,
        total_duration_ns: None,
    };
    let fp = fingerprint(&region, &[bits(&first), bits(&second)], &[(10, 39)], &config);
    assert_eq!(fp.hashes, vec![FpHash { hash: compute_hash(12, 15, 1), frame: 0 }]);
    assert_eq!(fp.time_offset_ns, 5_000_000_000);
}

#[test]
fn frame_times_do_not_drift() {
    let config = Config::default();
    let fp = build_fingerprint(vec![], &config, 0, 44_100);
    // 2048 / 44100 s is no whole number of nanoseconds; 44100 frames are 2048 s.
    assert_eq!(fp.frame_to_seconds(1), 46_439_909);
    assert_eq!(fp.frame_to_seconds(44_100), 2_048_000_000_000);
    assert_eq!(fp.frame_to_seconds(441_000), 20_480_000_000_000);
    let odd = build_fingerprint(vec![], &config, 5, 3);
    assert_eq!(odd.frame_to_seconds(3), 2_048_000_000_005);
    assert_eq!(odd.frame_to_seconds(u32::MAX), i64::MAX);
}

#[test]
fn a_hash_gives_its_parts_back() {
    for (a, t, d) in [(0u16, 0u16, 0u16), (1023, 1023, 4095), (1024, 1500, 4096), (u16::MAX, 7, u16::MAX)] {
        let hash = compute_hash(a, t, d);
        assert_eq!(hash >> 22, a as u32 % 1024);
        assert_eq!((hash >> 12) % 1024, t as u32 % 1024);
        assert_eq!(hash % 4096, d as u32 % 4096);
    }
}
