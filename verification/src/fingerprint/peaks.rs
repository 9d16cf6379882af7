//! Spectral peak extraction from magnitude frames.
//!
//! Uses logarithmic frequency bands with local maximum detection. Each frame
//! contributes at most one peak per band.
//!
//! Magnitudes are handled as the bit patterns of single-precision numbers and
//! compared as those numbers compare.

use vstd::prelude::*;

verus! {

/// Bit pattern of the noise floor, the single-precision number nearest to
/// 1/10000. Peaks that do not exceed it are ignored.
pub const NOISE_FLOOR: u32 = 0x38d1_b717;

/// Lowest bin of any band; what lies below is direct current and rumble.
pub const MIN_BIN: usize = 10;

/// Sign bit of a single-precision pattern.
const SIGN: u32 = 0x8000_0000;

/// Bit pattern of positive infinity.
const INFINITY: u32 = 0x7f80_0000;

/// The pattern without its sign bit.
pub open spec fn magnitude_bits(bits: u32) -> int {
    if bits >= 0x8000_0000 {
        bits - 0x8000_0000
    } else {
        bits as int
    }
}

/// Whether the pattern is a number (and not a NaN).
pub open spec fn is_number(bits: u32) -> bool {
    magnitude_bits(bits) <= 0x7f80_0000
}

/// Position of a pattern in the order of the numbers; both zeros are at 0.
pub open spec fn rank(bits: u32) -> int {
    if bits >= 0x8000_0000 {
        -magnitude_bits(bits)
    } else {
        magnitude_bits(bits)
    }
}

/// `a > b` as single-precision numbers; false if either is not a number.
pub open spec fn exceeds(a: u32, b: u32) -> bool {
    is_number(a) && is_number(b) && rank(a) > rank(b)
}

/// Computes [`exceeds`].
pub fn is_greater(a: u32, b: u32) -> (greater: bool)
    ensures
        greater == exceeds(a, b),
{
    let (a_negative, a_bits): (bool, u32) = if a >= SIGN {
        (true, a - SIGN)
    } else {
        (false, a)
    };
    let (b_negative, b_bits): (bool, u32) = if b >= SIGN {
        (true, b - SIGN)
    } else {
        (false, b)
    };
    if a_bits > INFINITY || b_bits > INFINITY {
        false
    } else if a_negative {
        b_negative && a_bits < b_bits
    } else {
        if b_negative {
            a_bits > 0 || b_bits > 0
        } else {
            a_bits > b_bits
        }
    }
}

/// A spectral peak: time frame, frequency bin and magnitude.
#[derive(Debug, Clone, Copy, PartialEq, Eq, Structural)]
pub struct SpectralPeak {
    pub frame: u32,
    pub bin: u16,
    /// Bit pattern of the single-precision magnitude.
    pub magnitude: u32,
}

/// The raw band edges clipped to the usable bins.
pub open spec fn clipped_band(edge: (usize, usize), max_bin: int) -> (usize, usize) {
    (
        if edge.0 < MIN_BIN {
            MIN_BIN
        } else {
            edge.0
        },
        if edge.1 > max_bin {
            max_bin as usize
        } else {
            edge.1
        },
    )
}

/// The clipped bands that hold more than one bin, in the order of `edges`.
pub open spec fn clipped_bands(edges: Seq<(usize, usize)>, max_bin: int) -> Seq<(usize, usize)>
    decreases edges.len(),
{
    if edges.len() == 0 {
        Seq::empty()
    } else {
        let rest = clipped_bands(edges.drop_last(), max_bin);
        let band = clipped_band(edges.last(), max_bin);
        if band.1 > band.0 {
            rest.push(band)
        } else {
            rest
        }
    }
}

/// The frequency bands of a spectrum of `num_bins` bins: one band up to the
/// last bin if there are too few bins to divide, else the clipped edges.
pub open spec fn band_edges(num_bins: int, edges: Seq<(usize, usize)>) -> Seq<(usize, usize)> {
    let max_bin = if num_bins > 0 {
        num_bins - 1
    } else {
        0
    };
    if max_bin <= MIN_BIN {
        seq![(MIN_BIN, max_bin as usize)]
    } else {
        clipped_bands(edges, max_bin)
    }
}

/// Turns exponentially growing band edges into frequency bands.
///
/// `edges` holds, per band, the whole parts of the lower and upper edge on a
/// logarithmic scale from the lowest usable bin to the last.
pub fn compute_band_edges(num_bins: usize, edges: &[(usize, usize)]) -> (bands: Vec<
    (usize, usize),
>)
    ensures
        bands@ == band_edges(num_bins as int, edges@),
{
    let max_bin: usize = if num_bins > 0 {
        num_bins - 1
    } else {
        0
    };
    let mut bands: Vec<(usize, usize)> = Vec::new();
    if max_bin <= MIN_BIN {
        bands.push((MIN_BIN, max_bin));
        return bands;
    }
    let mut i: usize = 0;
    while i < edges.len()
        invariant
            i <= edges@.len(),
            bands@ == clipped_bands(edges@.take(i as int), max_bin as int),
        decreases edges@.len() - i,
    {
        let (low, high): (usize, usize) = edges[i];
        let low: usize = if low < MIN_BIN {
            MIN_BIN
        } else {
            low
        };
        let high: usize = if high > max_bin {
            max_bin
        } else {
            high
        };
        proof {
            assert(edges@.take(i + 1).drop_last() =~= edges@.take(i as int));
            assert(edges@.take(i + 1).last() == edges@[i as int]);
        }
        if high > low {
            bands.push((low, high));
        }
        i = i + 1;
    }
    proof {
        assert(edges@.take(i as int) =~= edges@);
    }
    bands
}

/// Bin `b` of the band `lo..=hi` is above zero and above both its immediate
/// neighbours, whether they belong to the band or not. The ends of the spectrum
/// have one neighbour each.
pub open spec fn is_candidate(magnitudes: Seq<u32>, lo: int, hi: int, b: int) -> bool {
    &&& lo <= b <= hi
    &&& 0 <= b < magnitudes.len()
    &&& exceeds(magnitudes[b], 0)
    &&& b == 0 || exceeds(magnitudes[b], magnitudes[b - 1])
    &&& b + 1 == magnitudes.len() || exceeds(magnitudes[b], magnitudes[b + 1])
}

/// Bin `b` is the strongest candidate of the band, the lowest such if several
/// are equally strong.
pub open spec fn is_strongest(magnitudes: Seq<u32>, lo: int, hi: int, b: int) -> bool {
    &&& is_candidate(magnitudes, lo, hi, b)
    &&& forall|c: int| #[trigger]
        is_candidate(magnitudes, lo, hi, c) ==> !exceeds(magnitudes[c], magnitudes[b]) && (c < b
            ==> exceeds(magnitudes[b], magnitudes[c]))
}

/// The peak of a band, if its strongest candidate exceeds the noise floor.
pub open spec fn band_peak(magnitudes: Seq<u32>, lo: int, hi: int, frame: u32) -> Option<
    SpectralPeak,
> {
    if exists|b: int| is_strongest(magnitudes, lo, hi, b) && exceeds(magnitudes[b], NOISE_FLOOR) {
        let b = choose|b: int|
            is_strongest(magnitudes, lo, hi, b) && exceeds(magnitudes[b], NOISE_FLOOR);
        Some(SpectralPeak { frame, bin: b as u16, magnitude: magnitudes[b] })
    } else {
        None
    }
}

/// A band has at most one strongest bin.
proof fn lemma_strongest_is_unique(magnitudes: Seq<u32>, lo: int, hi: int, a: int, b: int)
    requires
        is_strongest(magnitudes, lo, hi, a),
        is_strongest(magnitudes, lo, hi, b),
    ensures
        a == b,
{
    assert(is_candidate(magnitudes, lo, hi, a));
    assert(is_candidate(magnitudes, lo, hi, b));
}

/// Finds the strongest local maximum within a frequency band. A bin on the edge
/// of the band has to exceed its neighbour outside the band too: the flank of a
/// stronger bin next to the band is no peak.
fn find_band_peak(magnitudes: &[u32], band_lo: usize, band_hi: usize, frame: u32) -> (peak:
    Option<SpectralPeak>)
    requires
        band_hi < magnitudes@.len(),
    ensures
        peak == band_peak(magnitudes@, band_lo as int, band_hi as int, frame),
{
    let mut best_bin: usize = 0;
    let mut best_mag: u32 = 0;
    let mut found: bool = false;
    let mut bin: usize = band_lo;
    let ghost (m, lo, hi) = (magnitudes@, band_lo as int, band_hi as int);
    while bin <= band_hi
        invariant
            m == magnitudes@,
            lo == band_lo,
            hi == band_hi,
            hi < m.len(),
            lo <= bin,
            bin <= hi + 1 || bin == lo,
            is_number(best_mag),
            rank(best_mag) >= 0,
            !found ==> best_mag == 0 && forall|c: int|
                c < bin ==> !#[trigger] is_candidate(m, lo, hi, c),
            found ==> best_bin < bin && best_mag == m[best_bin as int] && is_candidate(
                m,
                lo,
                hi,
                best_bin as int,
            ) && forall|c: int| #[trigger]
                is_candidate(m, lo, hi, c) && c < bin ==> !exceeds(m[c], best_mag) && (c < best_bin
                    ==> exceeds(best_mag, m[c])),
        decreases hi + 1 - bin,
    {
        let mag: u32 = magnitudes[bin];
        if is_greater(mag, best_mag) {
            let above_left: bool = bin == 0 || is_greater(mag, magnitudes[bin - 1]);
            let above_right: bool = bin + 1 == magnitudes.len() || is_greater(
                mag,
                magnitudes[bin + 1],
            );
            if above_left && above_right {
                proof {
                    assert(is_candidate(m, lo, hi, bin as int));
                    assert forall|c: int| #[trigger]
                        is_candidate(m, lo, hi, c) && c < bin + 1 implies !exceeds(m[c], mag) && (c
                        < bin ==> exceeds(mag, m[c])) by {
                        if found && c < bin {
                            assert(!exceeds(m[c], best_mag));
                        }
                    }
                }
                best_mag = mag;
                best_bin = bin;
                found = true;
            }
        }
        bin = bin + 1;
    }
    proof {
        if found {
            assert forall|c: int| #[trigger] is_candidate(m, lo, hi, c) implies c < bin by {}
            assert(is_strongest(m, lo, hi, best_bin as int));
            assert forall|b: int| is_strongest(m, lo, hi, b) implies b == best_bin by {
                lemma_strongest_is_unique(m, lo, hi, b, best_bin as int);
            }
        } else {
            assert forall|b: int| !is_strongest(m, lo, hi, b) by {
                assert(!is_candidate(m, lo, hi, b));
            }
        }
    }
    if is_greater(best_mag, NOISE_FLOOR) {
        Some(SpectralPeak { frame, bin: best_bin as u16, magnitude: best_mag })
    } else {
        None
    }
}

/// The peaks of one frame, band by band.
pub open spec fn frame_peaks(
    magnitudes: Seq<u32>,
    bands: Seq<(usize, usize)>,
    frame: u32,
) -> Seq<SpectralPeak>
    decreases bands.len(),
{
    if bands.len() == 0 {
        Seq::empty()
    } else {
        let rest = frame_peaks(magnitudes, bands.drop_last(), frame);
        match band_peak(magnitudes, bands.last().0 as int, bands.last().1 as int, frame) {
            Some(peak) => rest.push(peak),
            None => rest,
        }
    }
}

/// The peaks of a spectrogram, frame by frame.
pub open spec fn all_peaks(spectrogram: Seq<Seq<u32>>, bands: Seq<(usize, usize)>) -> Seq<
    SpectralPeak,
>
    decreases spectrogram.len(),
{
    if spectrogram.len() == 0 {
        Seq::empty()
    } else {
        all_peaks(spectrogram.drop_last(), bands) + frame_peaks(
            spectrogram.last(),
            bands,
            (spectrogram.len() - 1) as u32,
        )
    }
}

/// The peaks of a spectrogram, with the bands its first frame calls for.
pub open spec fn spectrogram_peaks(
    spectrogram: Seq<Seq<u32>>,
    edges: Seq<(usize, usize)>,
) -> Seq<SpectralPeak> {
    if spectrogram.len() == 0 || spectrogram[0].len() == 0 {
        Seq::empty()
    } else {
        all_peaks(spectrogram, band_edges(spectrogram[0].len() as int, edges))
    }
}

/// The frames of a spectrogram as sequences.
pub open spec fn spectrogram_view(spectrogram: Seq<Vec<u32>>) -> Seq<Seq<u32>> {
    spectrogram.map_values(|frame: Vec<u32>| frame@)
}

/// Every band of [`band_edges`] ends within the spectrum.
proof fn lemma_bands_fit(num_bins: int, edges: Seq<(usize, usize)>, k: int)
    requires
        0 < num_bins <= usize::MAX,
        0 <= k < band_edges(num_bins, edges).len(),
    ensures
        band_edges(num_bins, edges)[k].1 < num_bins,
        band_edges(num_bins, edges)[k].0 >= MIN_BIN,
{
    if num_bins - 1 > MIN_BIN {
        lemma_clipped_bands_fit(edges, num_bins - 1, k);
    }
}

proof fn lemma_clipped_bands_fit(edges: Seq<(usize, usize)>, max_bin: int, k: int)
    requires
        0 <= max_bin <= usize::MAX,
        0 <= k < clipped_bands(edges, max_bin).len(),
    ensures
        clipped_bands(edges, max_bin)[k].1 <= max_bin,
        clipped_bands(edges, max_bin)[k].0 >= MIN_BIN,
        clipped_bands(edges, max_bin)[k].0 < clipped_bands(edges, max_bin)[k].1,
    decreases edges.len(),
{
    let rest = clipped_bands(edges.drop_last(), max_bin);
    if k < rest.len() {
        lemma_clipped_bands_fit(edges.drop_last(), max_bin, k);
    }
}

/// Extracts the peaks of a full spectrogram.
///
/// `edges` are the raw logarithmic band edges (see [`compute_band_edges`]). No
/// frame may be shorter than the first.
pub fn extract_peaks(spectrogram: &[Vec<u32>], edges: &[(usize, usize)]) -> (peaks: Vec<
    SpectralPeak,
>)
    requires
        forall|i: int|
            0 <= i < spectrogram@.len() ==> (#[trigger] spectrogram@[i])@.len()
                >= spectrogram@[0]@.len(),
    ensures
        peaks@ == spectrogram_peaks(spectrogram_view(spectrogram@), edges@),
{
    let mut peaks: Vec<SpectralPeak> = Vec::new();
    if spectrogram.len() == 0 {
        return peaks;
    }
    let num_bins: usize = spectrogram[0].len();
    if num_bins == 0 {
        return peaks;
    }
    let bands: Vec<(usize, usize)> = compute_band_edges(num_bins, edges);
    let ghost frames = spectrogram_view(spectrogram@);
    let mut i: usize = 0;
    while i < spectrogram.len()
        invariant
            i <= spectrogram@.len(),
            frames == spectrogram_view(spectrogram@),
            0 < num_bins,
            bands@ == band_edges(num_bins as int, edges@),
            forall|k: int|
                0 <= k < spectrogram@.len() ==> (#[trigger] spectrogram@[k])@.len() >= num_bins,
            peaks@ == all_peaks(frames.take(i as int), bands@),
        decreases spectrogram@.len() - i,
    {
        let magnitudes: &Vec<u32> = &spectrogram[i];
        let ghost before = peaks@;
        let mut b: usize = 0;
        while b < bands.len()
            invariant
                b <= bands@.len(),
                0 < num_bins <= magnitudes@.len(),
                bands@ == band_edges(num_bins as int, edges@),
                peaks@ == before + frame_peaks(magnitudes@, bands@.take(b as int), i as u32),
            decreases bands@.len() - b,
        {
            let (low, high): (usize, usize) = bands[b];
            proof {
                lemma_bands_fit(num_bins as int, edges@, b as int);
                assert(bands@.take(b + 1).drop_last() =~= bands@.take(b as int));
                assert(bands@.take(b + 1).last() == bands@[b as int]);
            }
            match find_band_peak(magnitudes.as_slice(), low, high, i as u32) {
                Some(peak) => {
                    peaks.push(peak);
                },
                None => {},
            }
            b = b + 1;
        }
        proof {
            assert(bands@.take(b as int) =~= bands@);
            assert(frames.take(i + 1).drop_last() =~= frames.take(i as int));
            assert(frames.take(i + 1).last() == magnitudes@);
        }
        i = i + 1;
    }
    proof {
        assert(frames.take(i as int) =~= frames);
    }
    peaks
}

/// Peak `a` comes no later than peak `b` in the order of frame, then bin.
pub open spec fn in_peak_order(a: SpectralPeak, b: SpectralPeak) -> bool {
    a.frame < b.frame || (a.frame == b.frame && a.bin <= b.bin)
}

/// Bands follow one another upwards; neighbours may share an edge.
pub open spec fn ascending_bands(bands: Seq<(usize, usize)>) -> bool {
    &&& forall|i: int| 0 <= i < bands.len() ==> (#[trigger] bands[i]).0 <= bands[i].1
    &&& forall|i: int, j: int| 0 <= i < j < bands.len() ==> bands[i].1 <= bands[j].0
}

proof fn lemma_clipped_bands_ascend(edges: Seq<(usize, usize)>, max_bin: int)
    requires
        0 <= max_bin <= usize::MAX,
        ascending_bands(edges),
    ensures
        ascending_bands(clipped_bands(edges, max_bin)),
        forall|i: int|
            0 <= i < clipped_bands(edges, max_bin).len() && edges.len() > 0 ==> (
            #[trigger] clipped_bands(edges, max_bin)[i]).1 <= edges.last().1,
    decreases edges.len(),
{
    if edges.len() > 0 {
        let rest = edges.drop_last();
        lemma_clipped_bands_ascend(rest, max_bin);
        let kept = clipped_bands(rest, max_bin);
        assert forall|i: int| 0 <= i < kept.len() implies (#[trigger] kept[i]).1
            <= edges.last().0 by {
            assert(kept[i].1 <= rest.last().1);
            assert(rest.last() == edges[rest.len() - 1]);
        }
        assert(edges.last() == edges[edges.len() - 1]);
    }
}

proof fn lemma_clipped_bands_len(edges: Seq<(usize, usize)>, max_bin: int)
    ensures
        clipped_bands(edges, max_bin).len() <= edges.len(),
    decreases edges.len(),
{
    if edges.len() > 0 {
        lemma_clipped_bands_len(edges.drop_last(), max_bin);
    }
}

/// What the peaks of one frame have in common.
pub proof fn lemma_frame_peaks(magnitudes: Seq<u32>, bands: Seq<(usize, usize)>, frame: u32)
    ensures
        frame_peaks(magnitudes, bands, frame).len() <= bands.len(),
        forall|a: int|
            0 <= a < frame_peaks(magnitudes, bands, frame).len() ==> (#[trigger] frame_peaks(
                magnitudes,
                bands,
                frame,
            )[a]).frame == frame,
        magnitudes.len() <= 0x1_0000 && ascending_bands(bands) ==> {
            &&& forall|a: int|
                0 <= a < frame_peaks(magnitudes, bands, frame).len() ==> (#[trigger] frame_peaks(
                    magnitudes,
                    bands,
                    frame,
                )[a]).bin <= bands.last().1
            &&& forall|a: int, b: int|
                0 <= a <= b < frame_peaks(magnitudes, bands, frame).len() ==> frame_peaks(
                    magnitudes,
                    bands,
                    frame,
                )[a].bin <= frame_peaks(magnitudes, bands, frame)[b].bin
        },
    decreases bands.len(),
{
    if bands.len() > 0 {
        let rest = bands.drop_last();
        lemma_frame_peaks(magnitudes, rest, frame);
        if ascending_bands(bands) {
            assert(ascending_bands(rest)) by {
                assert forall|i: int| 0 <= i < rest.len() implies (#[trigger] rest[i]).0
                    <= rest[i].1 by {
                    assert(rest[i] == bands[i]);
                }
            }
            assert(bands.last() == bands[bands.len() - 1]);
            if rest.len() > 0 {
                assert(rest.last() == bands[bands.len() - 2]);
            }
        }
    }
}

/// Peaks come out in the order of frame, then bin, if the band edges ascend
/// and every frame and bin number fits its field.
pub proof fn law_peaks_are_sorted(spectrogram: Seq<Seq<u32>>, edges: Seq<(usize, usize)>)
    requires
        spectrogram.len() <= 0x1_0000_0000,
        forall|i: int|
            0 <= i < spectrogram.len() ==> (#[trigger] spectrogram[i]).len() <= 0x1_0000,
        ascending_bands(edges),
    ensures
        forall|a: int, b: int|
            0 <= a <= b < spectrogram_peaks(spectrogram, edges).len() ==> in_peak_order(
                spectrogram_peaks(spectrogram, edges)[a],
                spectrogram_peaks(spectrogram, edges)[b],
            ),
{
    if spectrogram.len() > 0 && spectrogram[0].len() > 0 {
        let num_bins = spectrogram[0].len() as int;
        let bands = band_edges(num_bins, edges);
        if num_bins - 1 > MIN_BIN {
            lemma_clipped_bands_ascend(edges, num_bins - 1);
            lemma_all_peaks_sorted(spectrogram, bands);
        } else if num_bins - 1 == MIN_BIN {
            lemma_all_peaks_sorted(spectrogram, bands);
        } else {
            lemma_all_peaks_empty(spectrogram, bands);
        }
    }
}

proof fn lemma_all_peaks_empty(spectrogram: Seq<Seq<u32>>, bands: Seq<(usize, usize)>)
    requires
        bands.len() == 1,
        bands[0].1 < bands[0].0,
    ensures
        all_peaks(spectrogram, bands).len() == 0,
    decreases spectrogram.len(),
{
    if spectrogram.len() > 0 {
        lemma_all_peaks_empty(spectrogram.drop_last(), bands);
        let magnitudes = spectrogram.last();
        let frame = (spectrogram.len() - 1) as u32;
        assert(frame_peaks(magnitudes, bands.drop_last(), frame).len() == 0);
        assert(forall|b: int|
            !is_candidate(magnitudes, bands[0].0 as int, bands[0].1 as int, b));
    }
}

proof fn lemma_all_peaks_sorted(spectrogram: Seq<Seq<u32>>, bands: Seq<(usize, usize)>)
    requires
        spectrogram.len() <= 0x1_0000_0000,
        forall|i: int|
            0 <= i < spectrogram.len() ==> (#[trigger] spectrogram[i]).len() <= 0x1_0000,
        ascending_bands(bands),
    ensures
        forall|a: int|
            0 <= a < all_peaks(spectrogram, bands).len() ==> (#[trigger] all_peaks(
                spectrogram,
                bands,
            )[a]).frame < spectrogram.len(),
        forall|a: int, b: int|
            0 <= a <= b < all_peaks(spectrogram, bands).len() ==> in_peak_order(
                all_peaks(spectrogram, bands)[a],
                all_peaks(spectrogram, bands)[b],
            ),
    decreases spectrogram.len(),
{
    if spectrogram.len() > 0 {
        let rest = spectrogram.drop_last();
        assert forall|i: int| 0 <= i < rest.len() implies (#[trigger] rest[i]).len()
            <= 0x1_0000 by {
            assert(rest[i] == spectrogram[i]);
        }
        lemma_all_peaks_sorted(rest, bands);
        assert(spectrogram.last() == spectrogram[spectrogram.len() - 1]);
        let frame = (spectrogram.len() - 1) as u32;
        lemma_frame_peaks(spectrogram.last(), bands, frame);
        let earlier = all_peaks(rest, bands);
        let latest = frame_peaks(spectrogram.last(), bands, frame);
        let all = all_peaks(spectrogram, bands);
        assert(all == earlier + latest);
        let n = earlier.len() as int;
        assert forall|a: int| 0 <= a < all.len() implies (#[trigger] all[a]).frame
            < spectrogram.len() by {
            if a < n {
                assert(all[a] == earlier[a]);
            } else {
                assert(all[a] == latest[a - n]);
            }
        }
        assert forall|a: int, b: int| 0 <= a <= b < all.len() implies in_peak_order(
            all[a],
            all[b],
        ) by {
            if b < n {
                assert(all[a] == earlier[a] && all[b] == earlier[b]);
            } else {
                assert(all[b] == latest[b - n]);
                if a < n {
                    assert(all[a] == earlier[a]);
                } else {
                    assert(all[a] == latest[a - n]);
                }
            }
        }
    }
}

/// The number of bands that a spectrogram is divided into is at most that of
/// the edges given, and one where none are given.
pub open spec fn band_limit(edges: Seq<(usize, usize)>) -> nat {
    if edges.len() > 0 {
        edges.len()
    } else {
        1
    }
}

/// The peaks of one frame among all.
pub open spec fn peaks_of(peaks: Seq<SpectralPeak>, frame: u32) -> Seq<SpectralPeak> {
    peaks.filter(|p: SpectralPeak| p.frame == frame)
}

/// A frame contributes at most one peak per band, if every frame number fits
/// its field.
pub proof fn law_frame_peak_count_is_bounded(
    spectrogram: Seq<Seq<u32>>,
    edges: Seq<(usize, usize)>,
    frame: u32,
)
    requires
        spectrogram.len() <= 0x1_0000_0000,
    ensures
        peaks_of(spectrogram_peaks(spectrogram, edges), frame).len() <= band_limit(edges),
{
    if spectrogram.len() > 0 && spectrogram[0].len() > 0 {
        let num_bins = spectrogram[0].len() as int;
        lemma_clipped_bands_len(edges, num_bins - 1);
        lemma_peaks_of_frame(spectrogram, band_edges(num_bins, edges), frame);
    } else {
        lemma_no_peaks_of(Seq::empty(), frame);
    }
}

/// Where no peak belongs to a frame, the frame has none.
pub proof fn lemma_no_peaks_of(peaks: Seq<SpectralPeak>, frame: u32)
    requires
        forall|a: int| 0 <= a < peaks.len() ==> (#[trigger] peaks[a]).frame != frame,
    ensures
        peaks_of(peaks, frame).len() == 0,
{
    peaks.lemma_all_neg_filter_empty(|p: SpectralPeak| p.frame == frame);
}

/// The peaks of a frame, band by band, are all that the frame has.
proof fn lemma_peaks_of_frame(
    spectrogram: Seq<Seq<u32>>,
    bands: Seq<(usize, usize)>,
    frame: u32,
)
    requires
        spectrogram.len() <= 0x1_0000_0000,
    ensures
        forall|a: int|
            0 <= a < all_peaks(spectrogram, bands).len() ==> (#[trigger] all_peaks(
                spectrogram,
                bands,
            )[a]).frame < spectrogram.len(),
        peaks_of(all_peaks(spectrogram, bands), frame).len() <= bands.len(),
    decreases spectrogram.len(),
{
    let all = all_peaks(spectrogram, bands);
    if spectrogram.len() == 0 {
        lemma_no_peaks_of(all, frame);
    } else {
        let rest = spectrogram.drop_last();
        lemma_peaks_of_frame(rest, bands, frame);
        let last = (spectrogram.len() - 1) as u32;
        lemma_frame_peaks(spectrogram.last(), bands, last);
        let earlier = all_peaks(rest, bands);
        let latest = frame_peaks(spectrogram.last(), bands, last);
        let n = earlier.len() as int;
        assert forall|a: int| 0 <= a < all.len() implies (#[trigger] all[a]).frame
            < spectrogram.len() by {
            if a < n {
                assert(all[a] == earlier[a]);
            } else {
                assert(all[a] == latest[a - n]);
            }
        }
        let of_frame = |p: SpectralPeak| p.frame == frame;
        Seq::filter_distributes_over_add(earlier, latest, of_frame);
        if frame == last {
            lemma_no_peaks_of(earlier, frame);
            latest.lemma_filter_len(of_frame);
        } else {
            lemma_no_peaks_of(latest, frame);
        }
    }
}

/// All frames together contribute at most one peak per frame and band.
pub proof fn law_peak_count_is_bounded(spectrogram: Seq<Seq<u32>>, edges: Seq<(usize, usize)>)
    ensures
        spectrogram_peaks(spectrogram, edges).len() <= spectrogram.len() * band_limit(edges),
{
    if spectrogram.len() > 0 && spectrogram[0].len() > 0 {
        let num_bins = spectrogram[0].len() as int;
        let bands = band_edges(num_bins, edges);
        lemma_clipped_bands_len(edges, num_bins - 1);
        lemma_all_peaks_len(spectrogram, bands);
        let bound = band_limit(edges);
        assert(spectrogram.len() * bands.len() <= spectrogram.len() * bound) by (nonlinear_arith)
            requires
                bands.len() <= bound,
        ;
    } else {
        let (n, bound) = (spectrogram.len(), band_limit(edges));
        assert(n * bound >= 0) by (nonlinear_arith);
    }
}

proof fn lemma_all_peaks_len(spectrogram: Seq<Seq<u32>>, bands: Seq<(usize, usize)>)
    ensures
        all_peaks(spectrogram, bands).len() <= spectrogram.len() * bands.len(),
    decreases spectrogram.len(),
{
    if spectrogram.len() > 0 {
        lemma_all_peaks_len(spectrogram.drop_last(), bands);
        lemma_frame_peaks(spectrogram.last(), bands, (spectrogram.len() - 1) as u32);
        assert((spectrogram.len() - 1) * bands.len() + bands.len() == spectrogram.len()
            * bands.len()) by (nonlinear_arith);
    } else {
        assert(0 * bands.len() == 0) by (nonlinear_arith);
    }
}

} // verus!
