//! Fingerprint pipeline: spectral peaks to constellation hashes.

pub mod constellation;
pub mod pairing;
pub mod peaks;
pub mod picking;

pub use constellation::{Fingerprint, FrameLength};

use vstd::prelude::*;

use crate::audio::AudioRegion;
use crate::Config;
use peaks::SpectralPeak;

verus! {

/// Which window of an episode a fingerprint covers.
#[derive(Debug, Clone, Copy, PartialEq, Eq, Structural)]
pub enum FingerprintKind {
    /// The head of the file.
    Intro,
    /// The tail of the file.
    Credits,
}

/// A single fingerprint hash anchored at a frame of the source audio.
#[derive(Debug, Clone, Copy, PartialEq, Eq, Structural)]
pub struct FpHash {
    pub hash: u32,
    pub frame: u32,
}

/// The number of transform windows of `fft_size` samples, `hop_size` apart,
/// that fit into `samples` samples.
pub open spec fn frame_count(samples: int, fft_size: int, hop_size: int) -> int {
    if samples < fft_size {
        0
    } else {
        (samples - fft_size) / hop_size + 1
    }
}

/// The shape of the spectrogram of some samples: the number of frames, and the
/// number of bins of each. An input shorter than one window has no frame.
pub fn stft_shape(samples: usize, config: &Config) -> (shape: (usize, usize))
    requires
        samples >= config.fft_size ==> config.fft_size > 0 && config.hop_size > 0,
    ensures
        shape.0 == frame_count(samples as int, config.fft_size as int, config.hop_size as int),
        shape.1 == config.fft_size / 2 + 1,
{
    let bins: usize = config.fft_size / 2 + 1;
    if samples < config.fft_size {
        return (0, bins);
    }
    let spare: usize = samples - config.fft_size;
    let steps: usize = spare / config.hop_size;
    proof {
        let s = spare as int;
        let h = config.hop_size as int;
        assert(0 <= s / h <= s) by (nonlinear_arith)
            requires
                s >= 0,
                h >= 1,
        ;
    }
    (steps + 1, bins)
}

/// Every frame lies within the samples, and there is no room for another.
pub proof fn law_frames_fill_the_samples(samples: int, fft_size: int, hop_size: int, frame: int)
    requires
        0 <= fft_size <= samples,
        hop_size > 0,
        0 <= frame,
    ensures
        frame < frame_count(samples, fft_size, hop_size) <==> frame * hop_size + fft_size
            <= samples,
{
    let spare = samples - fft_size;
    let last = spare / hop_size;
    assert(last * hop_size <= spare < (last + 1) * hop_size) by (nonlinear_arith)
        requires
            hop_size > 0,
            last == spare / hop_size,
    ;
    if frame <= last {
        assert(frame * hop_size <= last * hop_size) by (nonlinear_arith)
            requires
                0 <= frame <= last,
                hop_size > 0,
        ;
    } else {
        assert(frame * hop_size >= (last + 1) * hop_size) by (nonlinear_arith)
            requires
                frame >= last + 1,
                hop_size > 0,
        ;
    }
}

/// Turns the spectrogram of a decoded region into its fingerprint: spectral
/// peaks first, then hashes of peak pairs.
///
/// `spectrogram` holds the bit patterns of the magnitudes, and `edges` the raw
/// logarithmic band edges.
pub fn fingerprint(
    region: &AudioRegion,
    spectrogram: &[Vec<u32>],
    edges: &[(usize, usize)],
    config: &Config,
) -> (fp: Fingerprint)
    requires
        region.sample_rate > 0,
        forall|i: int|
            0 <= i < spectrogram@.len() ==> (#[trigger] spectrogram@[i])@.len()
                >= spectrogram@[0]@.len(),
    ensures
        fp@ == constellation::peaks_fingerprint(
            peaks::spectrogram_peaks(peaks::spectrogram_view(spectrogram@), edges@),
            *config,
            region.offset_ns as int,
            region.sample_rate as int,
        ),
{
    let extracted: Vec<SpectralPeak> = peaks::extract_peaks(spectrogram, edges);
    constellation::build_fingerprint(extracted, config, region.offset_ns, region.sample_rate)
}

} // verus!
