//! Audio fingerprinting and black-frame credits detection for episodic media.
//!
//! The library holds the decisions of the engine: peak picking and
//! constellation hashing, reference bootstrap, offset-histogram matching,
//! boundary snapping, the black-frame fallback and the storage layout. It does
//! no input or output and no signal processing of its own; a caller decodes
//! audio, runs the transforms and hands the results in.
//!
//! # Units
//!
//! Every point in time and every length of time is a whole number of
//! nanoseconds in an `i64`. A computed time that would leave the range of
//! `i64` (about 292 years) is held at the nearest bound. Shares of a whole,
//! such as a confidence, are exact fractions ([`Ratio`]). Spectral magnitudes
//! are the bit patterns of single-precision numbers.

pub mod api;
pub mod audio;
pub mod blackframe;
pub mod boundary;
pub mod cli;
pub mod decimal;
pub mod detection;
pub mod fingerprint;
pub mod matching;
pub mod scientific;
pub mod storage;
pub mod text;
pub mod time;

use vstd::prelude::*;

verus! {

/// An exact fraction `num / den`.
#[derive(Debug, Clone, Copy, PartialEq, Eq, Structural)]
pub struct Ratio {
    pub num: u64,
    pub den: u64,
}

impl Ratio {
    /// `self < other` as fractions, compared by cross-multiplication.
    pub open spec fn spec_below(self, other: Ratio) -> bool {
        self.num * other.den < other.num * self.den
    }

    /// Whether this fraction is smaller than `other`.
    pub fn below(&self, other: &Ratio) -> (smaller: bool)
        ensures
            smaller == self.spec_below(*other),
    {
        let left: u128 = widening_product(self.num, other.den);
        let right: u128 = widening_product(other.num, self.den);
        left < right
    }
}

/// The full product of two 64-bit numbers.
fn widening_product(a: u64, b: u64) -> (product: u128)
    ensures
        product == a * b,
{
    assert(a * b <= 0xffff_ffff_ffff_ffff * 0xffff_ffff_ffff_ffff) by (nonlinear_arith)
        requires
            a <= 0xffff_ffff_ffff_ffff,
            b <= 0xffff_ffff_ffff_ffff,
    ;
    assert(a * b >= 0) by (nonlinear_arith)
        requires
            a >= 0,
            b >= 0,
    ;
    (a as u128) * (b as u128)
}

/// Core configuration for the fingerprinting engine.
#[derive(Debug, Clone)]
pub struct Config {
    /// Target sample rate for analysis, in hertz.
    pub sample_rate: u32,
    /// FFT window size in samples.
    pub fft_size: usize,
    /// Hop size between windows, in samples (`fft_size / 2` is standard).
    pub hop_size: usize,
    /// Number of frequency bands for peak extraction.
    pub num_bands: usize,
    /// How far from the start to scan for intros.
    pub intro_scan_ns: i64,
    /// How far from the end to scan for credits.
    pub credits_scan_ns: i64,
    /// Shortest segment to report; also the floor the matcher uses.
    pub min_segment_ns: i64,
    /// Shortest credits segment to report, beyond the general floor. Short
    /// tail-anchored stings are common false positives.
    pub min_credits_ns: i64,
    /// A credits match ending more than this before the file end is rejected.
    pub max_credits_tail_gap_ns: i64,
    /// Whether to look for a fade to black when no credits audio matched.
    pub blackframe_fallback: bool,
    /// How far from the end of the file to look for black frames.
    pub blackframe_scan_ns: i64,
    /// Frames per second the black-frame decoder samples, in billionths.
    pub blackframe_fps_billionths: i64,
    /// Shortest black stretch taken for a credits transition.
    pub blackframe_min_ns: i64,
    /// Luma threshold of the black-frame detector, in billionths.
    pub blackframe_pix_threshold_billionths: i64,
    /// Hardware accelerator to name to the black-frame decoder, if any. A
    /// failed scan with an accelerator is retried without one.
    pub blackframe_hwaccel: Option<String>,
    /// Wall-clock deadline of one black-frame scan, in seconds.
    pub blackframe_timeout_seconds: u64,
    /// Smallest share of a reference's hashes that must vote for the dominant
    /// alignment.
    pub match_threshold: Ratio,
    /// Number of targets each anchor peak is paired with.
    pub fan_out: usize,
    /// Largest frame gap between an anchor and its target.
    pub max_target_delta: usize,
}

impl Default for Config {
    fn default() -> (config: Self)
        ensures
            config.sample_rate == 16_000,
            config.fft_size == 4096,
            config.hop_size == 2048,
            config.num_bands == 6,
            config.intro_scan_ns == 18 * 60 * 1_000_000_000,
            config.credits_scan_ns == 8 * 60 * 1_000_000_000,
            config.min_segment_ns == 5 * 1_000_000_000,
            config.min_credits_ns == 30 * 1_000_000_000,
            config.max_credits_tail_gap_ns == 30 * 1_000_000_000,
            config.blackframe_fallback,
            config.blackframe_scan_ns == 3 * 60 * 1_000_000_000,
            config.blackframe_fps_billionths == 2 * 1_000_000_000,
            config.blackframe_min_ns == 3 * 1_000_000_000,
            config.blackframe_pix_threshold_billionths == 100_000_000,
            config.blackframe_hwaccel is None,
            config.blackframe_timeout_seconds == 60,
            config.match_threshold == (Ratio { num: 8, den: 100 }),
            config.fan_out == 5,
            config.max_target_delta == 50,
    {
        Config {
            sample_rate: 16_000,
            fft_size: 4096,
            hop_size: 2048,
            num_bands: 6,
            intro_scan_ns: 1_080_000_000_000,
            credits_scan_ns: 480_000_000_000,
            min_segment_ns: 5_000_000_000,
            min_credits_ns: 30_000_000_000,
            max_credits_tail_gap_ns: 30_000_000_000,
            blackframe_fallback: true,
            blackframe_scan_ns: 180_000_000_000,
            blackframe_fps_billionths: 2_000_000_000,
            blackframe_min_ns: 3_000_000_000,
            blackframe_pix_threshold_billionths: 100_000_000,
            blackframe_hwaccel: None,
            blackframe_timeout_seconds: 60,
            match_threshold: Ratio { num: 8, den: 100 },
            fan_out: 5,
            max_target_delta: 50,
        }
    }
}

/// Which detection strategy produced a segment.
#[derive(Debug, Clone, Copy, PartialEq, Eq, Structural)]
pub enum SegmentSource {
    /// Matched against a bootstrapped audio fingerprint reference.
    AudioFingerprint,
    /// Located by the fade-to-black heuristic.
    Blackframe,
}

/// The source given to a stored segment that carries none.
pub fn default_source() -> (source: SegmentSource)
    ensures
        source == SegmentSource::AudioFingerprint,
{
    SegmentSource::AudioFingerprint
}

/// One detected intro or credits region.
#[derive(Debug, Clone, Copy, PartialEq, Eq, Structural)]
pub struct Segment {
    /// Start of the region within the file.
    pub start_ns: i64,
    /// End of the region within the file.
    pub end_ns: i64,
    /// For [`SegmentSource::AudioFingerprint`], the share of the reference's
    /// hashes that voted at the dominant alignment. For
    /// [`SegmentSource::Blackframe`], a fixed score.
    pub confidence: Ratio,
    /// How this segment was located.
    pub source: SegmentSource,
}

impl Segment {
    /// Start in milliseconds, truncated toward zero.
    pub fn start_ms(&self) -> (ms: i64)
        ensures
            ms == time::whole_millis(self.start_ns as int),
    {
        time::to_millis(self.start_ns)
    }

    /// End in milliseconds, truncated toward zero.
    pub fn end_ms(&self) -> (ms: i64)
        ensures
            ms == time::whole_millis(self.end_ns as int),
    {
        time::to_millis(self.end_ns)
    }

    /// Length of the region; zero where the end does not lie after the start.
    pub fn duration(&self) -> (ns: i64)
        ensures
            ns == if self.end_ns <= self.start_ns {
                0
            } else {
                time::clamped(self.end_ns - self.start_ns)
            },
    {
        if self.end_ns <= self.start_ns {
            0
        } else {
            time::clamp(self.end_ns as i128 - self.start_ns as i128)
        }
    }
}

/// Result of detection for a single episode.
#[derive(Debug, Clone)]
pub struct SegmentMarkers {
    pub episode_id: String,
    pub intro: Option<Segment>,
    pub credits: Option<Segment>,
}

/// A fraction is below another where it is the smaller number: over a common
/// denominator, it has the smaller numerator.
pub proof fn law_fractions_are_compared_as_numbers(a: u64, b: u64, den: u64)
    requires
        den > 0,
    ensures
        (Ratio { num: a, den }).spec_below(Ratio { num: b, den }) == (a < b),
{
    assert((a * den < b * den) == (a < b)) by (nonlinear_arith)
        requires
            den > 0,
    ;
}

/// Equal fractions compare alike: multiplying both terms of one by the same
/// number changes nothing.
pub proof fn law_fractions_may_be_expanded(a: Ratio, b: Ratio, k: u64)
    requires
        k > 0,
        a.num * k <= u64::MAX,
        a.den * k <= u64::MAX,
    ensures
        (Ratio { num: (a.num * k) as u64, den: (a.den * k) as u64 }).spec_below(b) == a.spec_below(
            b,
        ),
        b.spec_below(Ratio { num: (a.num * k) as u64, den: (a.den * k) as u64 }) == b.spec_below(a),
{
    let (an, ad, bn, bd, m) = (a.num as int, a.den as int, b.num as int, b.den as int, k as int);
    assert(((an * m) * bd < bn * (ad * m)) == (an * bd < bn * ad)) by (nonlinear_arith)
        requires
            m > 0,
    ;
    assert((bn * (ad * m) < (an * m) * bd) == (bn * ad < an * bd)) by (nonlinear_arith)
        requires
            m > 0,
    ;
}

} // verus!
