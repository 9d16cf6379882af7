//! Which peaks a spectrogram has: the strongest local maximum of every band of
//! every frame.
//!
//! Magnitudes are never negative, and the bit patterns of such numbers are in
//! the order of the numbers.

use vstd::prelude::*;

use super::peaks::{self, SpectralPeak};

verus! {

/// Bin `b` is above zero and above the bins next to it.
pub open spec fn is_local_maximum(magnitudes: Seq<u32>, b: int) -> bool {
    &&& 0 <= b < magnitudes.len()
    &&& magnitudes[b] > 0
    &&& b > 0 ==> magnitudes[b] > magnitudes[b - 1]
    &&& b + 1 < magnitudes.len() ==> magnitudes[b] > magnitudes[b + 1]
}

/// Bin `b` is the strongest local maximum from `lo` to `hi`, the lowest of
/// several, and lies above one ten-thousandth.
pub open spec fn is_band_maximum(magnitudes: Seq<u32>, lo: int, hi: int, b: int) -> bool {
    &&& lo <= b <= hi
    &&& is_local_maximum(magnitudes, b)
    &&& magnitudes[b] > 0x38d1_b717
    &&& forall|c: int|
        lo <= c <= hi && #[trigger] is_local_maximum(magnitudes, c) ==> magnitudes[c]
            <= magnitudes[b]
    &&& forall|c: int|
        lo <= c < b && #[trigger] is_local_maximum(magnitudes, c) ==> magnitudes[c]
            < magnitudes[b]
}

/// The lowest bin of a band: its lower edge, but not below bin ten.
pub open spec fn lowest(edge: (usize, usize)) -> int {
    if edge.0 < 10 {
        10
    } else {
        edge.0 as int
    }
}

/// The highest bin of a band: its upper edge, but not beyond the last bin.
pub open spec fn highest(edge: (usize, usize), bins: int) -> int {
    if edge.1 > bins - 1 {
        bins - 1
    } else {
        edge.1 as int
    }
}

/// A band has a peak: it holds more than one bin, and a local maximum above one
/// ten-thousandth.
pub open spec fn has_peak(magnitudes: Seq<u32>, edge: (usize, usize), bins: int) -> bool {
    &&& lowest(edge) < highest(edge, bins)
    &&& exists|c: int|
        lowest(edge) <= c <= highest(edge, bins) && #[trigger] is_local_maximum(magnitudes, c)
            && magnitudes[c] > 0x38d1_b717
}

/// No frame holds a negative magnitude or one that is not a number, and every
/// frame and bin number fits its field.
pub open spec fn is_plain(spectrogram: Seq<Seq<u32>>) -> bool {
    &&& spectrogram.len() <= 0x1_0000_0000
    &&& forall|f: int|
        0 <= f < spectrogram.len() ==> (#[trigger] spectrogram[f]).len() == spectrogram[0].len()
    &&& forall|f: int, b: int|
        0 <= f < spectrogram.len() && 0 <= b < spectrogram[f].len() ==> (
        #[trigger] spectrogram[f][b]) <= 0x7f80_0000
    &&& spectrogram.len() > 0 ==> spectrogram[0].len() <= 0x1_0000
}

/// A row without negative magnitudes.
spec fn is_plain_row(magnitudes: Seq<u32>) -> bool {
    forall|b: int| 0 <= b < magnitudes.len() ==> (#[trigger] magnitudes[b]) <= 0x7f80_0000
}

/// A local maximum above the floor gives rise to a strongest one.
proof fn lemma_maximum_exists(magnitudes: Seq<u32>, lo: int, hi: int, c: int) -> (b: int)
    requires
        lo <= c <= hi,
        is_local_maximum(magnitudes, c),
        magnitudes[c] > 0x38d1_b717,
    ensures
        is_band_maximum(magnitudes, lo, hi, b),
    decreases 0x1_0000_0000 - magnitudes[c], c - lo,
{
    if exists|e: int|
        lo <= e <= hi && #[trigger] is_local_maximum(magnitudes, e) && magnitudes[e]
            > magnitudes[c] {
        let e = choose|e: int|
            lo <= e <= hi && #[trigger] is_local_maximum(magnitudes, e) && magnitudes[e]
                > magnitudes[c];
        lemma_maximum_exists(magnitudes, lo, hi, e)
    } else if exists|e: int|
        lo <= e < c && #[trigger] is_local_maximum(magnitudes, e) && magnitudes[e]
            >= magnitudes[c] {
        let e = choose|e: int|
            lo <= e < c && #[trigger] is_local_maximum(magnitudes, e) && magnitudes[e]
                >= magnitudes[c];
        lemma_maximum_exists(magnitudes, lo, hi, e)
    } else {
        c
    }
}

/// The peak of a band is its strongest local maximum.
proof fn lemma_band_peak(magnitudes: Seq<u32>, lo: int, hi: int, frame: u32)
    requires
        is_plain_row(magnitudes),
    ensures
        match peaks::band_peak(magnitudes, lo, hi, frame) {
            Some(p) => exists|b: int| #[trigger]
                is_band_maximum(magnitudes, lo, hi, b) && p == (SpectralPeak {
                    frame,
                    bin: b as u16,
                    magnitude: magnitudes[b],
                }),
            None => forall|c: int|
                lo <= c <= hi && #[trigger] is_local_maximum(magnitudes, c) ==> magnitudes[c]
                    <= 0x38d1_b717,
        },
        forall|b: int| #[trigger]
            is_band_maximum(magnitudes, lo, hi, b) ==> peaks::band_peak(magnitudes, lo, hi, frame)
                == Some(SpectralPeak { frame, bin: b as u16, magnitude: magnitudes[b] }),
{
    assert forall|c: int| #[trigger]
        peaks::is_candidate(magnitudes, lo, hi, c) == (lo <= c <= hi && is_local_maximum(
            magnitudes,
            c,
        )) by {}
    assert forall|c: int| lo <= c <= hi && #[trigger] is_local_maximum(magnitudes, c) implies
        peaks::is_candidate(magnitudes, lo, hi, c) by {}
    assert forall|b: int| #[trigger] is_band_maximum(magnitudes, lo, hi, b) implies (
    peaks::is_strongest(magnitudes, lo, hi, b) && peaks::exceeds(
        magnitudes[b],
        peaks::NOISE_FLOOR,
    )) by {
        assert(peaks::is_candidate(magnitudes, lo, hi, b));
        assert forall|c: int| #[trigger] peaks::is_candidate(magnitudes, lo, hi, c) implies
            !peaks::exceeds(magnitudes[c], magnitudes[b]) && (c < b ==> peaks::exceeds(
            magnitudes[b],
            magnitudes[c],
        )) by {
            assert(is_local_maximum(magnitudes, c));
        }
    }
    assert forall|b: int| #[trigger] peaks::is_strongest(magnitudes, lo, hi, b) && peaks::exceeds(
        magnitudes[b],
        peaks::NOISE_FLOOR,
    ) implies is_band_maximum(magnitudes, lo, hi, b) by {
        assert(peaks::is_candidate(magnitudes, lo, hi, b));
        assert forall|c: int| lo <= c <= hi && #[trigger] is_local_maximum(magnitudes, c) implies
            magnitudes[c] <= magnitudes[b] && (c < b ==> magnitudes[c] < magnitudes[b]) by {
            assert(peaks::is_candidate(magnitudes, lo, hi, c));
        }
    }
    assert forall|b: int| #[trigger] is_band_maximum(magnitudes, lo, hi, b) implies
        peaks::band_peak(magnitudes, lo, hi, frame) == Some(
        SpectralPeak { frame, bin: b as u16, magnitude: magnitudes[b] },
    ) by {
        assert(peaks::is_strongest(magnitudes, lo, hi, b));
        let a = choose|a: int|
            peaks::is_strongest(magnitudes, lo, hi, a) && peaks::exceeds(
                magnitudes[a],
                peaks::NOISE_FLOOR,
            );
        assert(is_band_maximum(magnitudes, lo, hi, a));
        assert(is_local_maximum(magnitudes, a) && is_local_maximum(magnitudes, b));
    }
    match peaks::band_peak(magnitudes, lo, hi, frame) {
        Some(p) => {
            let a = choose|a: int|
                peaks::is_strongest(magnitudes, lo, hi, a) && peaks::exceeds(
                    magnitudes[a],
                    peaks::NOISE_FLOOR,
                );
            assert(is_band_maximum(magnitudes, lo, hi, a));
        },
        None => {
            assert forall|c: int| lo <= c <= hi && #[trigger] is_local_maximum(
                magnitudes,
                c,
            ) implies magnitudes[c] <= 0x38d1_b717 by {
                if magnitudes[c] > 0x38d1_b717 {
                    let b = lemma_maximum_exists(magnitudes, lo, hi, c);
                    assert(is_band_maximum(magnitudes, lo, hi, b));
                }
            }
        },
    }
}

/// `p` is the peak of a band of a frame: it stands at the band's strongest local
/// maximum, with the magnitude that the frame has there.
pub open spec fn is_peak_of(
    p: SpectralPeak,
    magnitudes: Seq<u32>,
    frame: int,
    edge: (usize, usize),
    bins: int,
) -> bool {
    &&& p.frame == frame
    &&& lowest(edge) < highest(edge, bins)
    &&& is_band_maximum(magnitudes, lowest(edge), highest(edge, bins), p.bin as int)
    &&& p.magnitude == magnitudes[p.bin as int]
}

/// The peaks of one frame, edge by edge.
proof fn lemma_frame_peaks_by_edge(
    magnitudes: Seq<u32>,
    edges: Seq<(usize, usize)>,
    bins: int,
    frame: u32,
)
    requires
        is_plain_row(magnitudes),
        magnitudes.len() <= 0x1_0000,
        10 < bins - 1 <= usize::MAX,
    ensures
        ({
            let found = peaks::frame_peaks(
                magnitudes,
                peaks::clipped_bands(edges, bins - 1),
                frame,
            );
            &&& found.len() == edges.filter(
                |e: (usize, usize)| has_peak(magnitudes, e, bins),
            ).len()
            &&& forall|p: SpectralPeak| #[trigger]
                found.contains(p) <==> exists|k: int|
                    0 <= k < edges.len() && is_peak_of(
                        p,
                        magnitudes,
                        frame as int,
                        #[trigger] edges[k],
                        bins,
                    )
        }),
    decreases edges.len(),
{
    let peaked = |e: (usize, usize)| has_peak(magnitudes, e, bins);
    let found = peaks::frame_peaks(magnitudes, peaks::clipped_bands(edges, bins - 1), frame);
    if edges.len() == 0 {
        assert(edges.filter(peaked).len() == 0) by {
            reveal(Seq::filter);
        }
    } else {
        let rest = edges.drop_last();
        let last = edges.last();
        let end = edges.len() - 1;
        assert(edges[end] == last);
        lemma_frame_peaks_by_edge(magnitudes, rest, bins, frame);
        assert(edges =~= rest.push(last));
        rest.lemma_filter_push(last, peaked);
        let less = peaks::frame_peaks(magnitudes, peaks::clipped_bands(rest, bins - 1), frame);
        let band = peaks::clipped_band(last, bins - 1);
        let (lo, hi) = (lowest(last), highest(last, bins));
        assert(band.0 == lo && band.1 == hi);
        let bands = peaks::clipped_bands(rest, bins - 1);
        assert(bands.push(band).drop_last() =~= bands);
        lemma_band_peak(magnitudes, lo, hi, frame);
        let top = peaks::band_peak(magnitudes, lo, hi, frame);
        assert(has_peak(magnitudes, last, bins) == (lo < hi && top is Some)) by {
            if lo < hi && top is Some {
                let b = choose|b: int| #[trigger]
                    is_band_maximum(magnitudes, lo, hi, b) && top->0 == (SpectralPeak {
                        frame,
                        bin: b as u16,
                        magnitude: magnitudes[b],
                    });
                assert(is_local_maximum(magnitudes, b));
            }
        }
        assert forall|p: SpectralPeak| is_peak_of(
            p,
            magnitudes,
            frame as int,
            last,
            bins,
        ) == (lo < hi && top == Some(p)) by {
            if is_peak_of(p, magnitudes, frame as int, last, bins) {
                assert(is_band_maximum(magnitudes, lo, hi, p.bin as int));
            }
            if lo < hi && top == Some(p) {
                let b = choose|b: int| #[trigger]
                    is_band_maximum(magnitudes, lo, hi, b) && p == (SpectralPeak {
                        frame,
                        bin: b as u16,
                        magnitude: magnitudes[b],
                    });
                assert(p.bin == b);
            }
        }
        assert forall|p: SpectralPeak| #[trigger] found.contains(p) <==> (less.contains(p) || (lo
            < hi && top == Some(p))) by {
            if lo < hi && top is Some {
                assert(found == less.push(top->0));
                vstd::seq_lib::lemma_seq_contains_after_push(less, top->0, p);
                if less.contains(p) {
                    let n = choose|n: int| 0 <= n < less.len() && less[n] == p;
                    assert(found[n] == p);
                }
                assert(found[less.len() as int] == top->0);
            } else {
                assert(found == less);
            }
        }
        assert forall|p: SpectralPeak| #[trigger] found.contains(p) <==> exists|k: int|
            0 <= k < edges.len() && is_peak_of(
                p,
                magnitudes,
                frame as int,
                #[trigger] edges[k],
                bins,
            ) by {
            if less.contains(p) {
                let k = choose|k: int|
                    0 <= k < rest.len() && is_peak_of(
                        p,
                        magnitudes,
                        frame as int,
                        #[trigger] rest[k],
                        bins,
                    );
                assert(edges[k] == rest[k]);
            }
            if exists|k: int|
                0 <= k < edges.len() && is_peak_of(
                    p,
                    magnitudes,
                    frame as int,
                    #[trigger] edges[k],
                    bins,
                ) {
                let k = choose|k: int|
                    0 <= k < edges.len() && is_peak_of(
                        p,
                        magnitudes,
                        frame as int,
                        #[trigger] edges[k],
                        bins,
                    );
                if k < end {
                    assert(rest[k] == edges[k]);
                    assert(less.contains(p));
                }
            }
        }
    }
}

/// The peaks of a spectrogram that belong to one frame are those of that frame.
proof fn lemma_peaks_of_one_frame(
    spectrogram: Seq<Seq<u32>>,
    bands: Seq<(usize, usize)>,
    f: int,
)
    requires
        spectrogram.len() <= 0x1_0000_0000,
    ensures
        0 <= f < spectrogram.len() ==> peaks::all_peaks(spectrogram, bands).filter(
            |p: SpectralPeak| p.frame == f,
        ) == peaks::frame_peaks(spectrogram[f], bands, f as u32),
        !(0 <= f < spectrogram.len()) ==> peaks::all_peaks(spectrogram, bands).filter(
            |p: SpectralPeak| p.frame == f,
        ).len() == 0,
    decreases spectrogram.len(),
{
    let of_frame = |p: SpectralPeak| p.frame == f;
    let all = peaks::all_peaks(spectrogram, bands);
    if spectrogram.len() == 0 {
        assert(all.filter(of_frame).len() == 0) by {
            reveal(Seq::filter);
        }
    } else {
        let rest = spectrogram.drop_last();
        let end = spectrogram.len() - 1;
        lemma_peaks_of_one_frame(rest, bands, f);
        let earlier = peaks::all_peaks(rest, bands);
        let latest = peaks::frame_peaks(spectrogram.last(), bands, end as u32);
        peaks::lemma_frame_peaks(spectrogram.last(), bands, end as u32);
        Seq::filter_distributes_over_add(earlier, latest, of_frame);
        if f == end {
            lemma_all_kept(latest, of_frame);
            assert(earlier.filter(of_frame) + latest =~= latest);
        } else {
            latest.lemma_all_neg_filter_empty(of_frame);
            assert(earlier.filter(of_frame) + latest.filter(of_frame) =~= earlier.filter(
                of_frame,
            ));
            if 0 <= f < rest.len() {
                assert(rest[f] == spectrogram[f]);
            }
        }
    }
}

/// Keeping what all have in common keeps all.
proof fn lemma_all_kept(list: Seq<SpectralPeak>, keep: spec_fn(SpectralPeak) -> bool)
    requires
        forall|i: int| 0 <= i < list.len() ==> keep(#[trigger] list[i]),
    ensures
        list.filter(keep) == list,
    decreases list.len(),
{
    reveal(Seq::filter);
    if list.len() > 0 {
        let rest = list.drop_last();
        assert forall|i: int| 0 <= i < rest.len() implies keep(#[trigger] rest[i]) by {
            assert(rest[i] == list[i]);
        }
        lemma_all_kept(rest, keep);
        assert(keep(list[list.len() - 1]));
        assert(rest.push(list.last()) =~= list);
    }
}

/// What is kept of a list belongs to it.
proof fn lemma_kept_contains(
    list: Seq<SpectralPeak>,
    keep: spec_fn(SpectralPeak) -> bool,
    p: SpectralPeak,
)
    ensures
        list.filter(keep).contains(p) <==> list.contains(p) && keep(p),
    decreases list.len(),
{
    reveal(Seq::filter);
    if list.len() > 0 {
        let rest = list.drop_last();
        let last = list.last();
        lemma_kept_contains(rest, keep, p);
        let kept = rest.filter(keep);
        assert(list =~= rest.push(last));
        vstd::seq_lib::lemma_seq_contains_after_push(rest, last, p);
        vstd::seq_lib::lemma_seq_contains_after_push(kept, last, p);
        assert(kept.push(last)[kept.len() as int] == last);
        assert(list[list.len() - 1] == last);
        if rest.contains(p) {
            let n = choose|n: int| 0 <= n < rest.len() && rest[n] == p;
            assert(list[n] == p);
        }
        if kept.contains(p) {
            let n = choose|n: int| 0 <= n < kept.len() && kept[n] == p;
            assert(kept.push(last)[n] == p);
        }
    }
}

/// A frame has a peak for every band that holds a local maximum above one
/// ten-thousandth, and no other: `p` is a peak exactly where it stands at the
/// strongest local maximum of some band of its frame.
pub proof fn law_peaks_are_the_band_maxima(
    spectrogram: Seq<Seq<u32>>,
    edges: Seq<(usize, usize)>,
    p: SpectralPeak,
)
    requires
        is_plain(spectrogram),
        spectrogram.len() > 0,
        spectrogram[0].len() > 11,
    ensures
        peaks::spectrogram_peaks(spectrogram, edges).contains(p) <==> p.frame < spectrogram.len()
            && exists|k: int|
            0 <= k < edges.len() && is_peak_of(
                p,
                spectrogram[p.frame as int],
                p.frame as int,
                #[trigger] edges[k],
                spectrogram[0].len() as int,
            ),
{
    let bins = spectrogram[0].len() as int;
    let bands = peaks::clipped_bands(edges, bins - 1);
    let f = p.frame as int;
    let of_frame = |q: SpectralPeak| q.frame == f;
    let all = peaks::all_peaks(spectrogram, bands);
    assert(peaks::spectrogram_peaks(spectrogram, edges) == all);
    lemma_peaks_of_one_frame(spectrogram, bands, f);
    lemma_kept_contains(all, of_frame, p);
    if f < spectrogram.len() {
        let row = spectrogram[f];
        assert(row.len() == bins);
        assert forall|b: int| 0 <= b < row.len() implies (#[trigger] row[b]) <= 0x7f80_0000 by {
            assert(spectrogram[f][b] <= 0x7f80_0000);
        }
        lemma_frame_peaks_by_edge(row, edges, bins, p.frame);
    }
}

/// Every band contributes: where some bin of a band of a frame is a local maximum
/// above one ten-thousandth, there is a peak of that frame in the band, at a
/// local maximum than which the band has no stronger one.
pub proof fn law_every_band_contributes(
    spectrogram: Seq<Seq<u32>>,
    edges: Seq<(usize, usize)>,
    f: int,
    k: int,
    c: int,
)
    requires
        is_plain(spectrogram),
        0 <= f < spectrogram.len(),
        spectrogram[0].len() > 11,
        0 <= k < edges.len(),
        ({
            let bins = spectrogram[0].len() as int;
            &&& lowest(edges[k]) < highest(edges[k], bins)
            &&& lowest(edges[k]) <= c <= highest(edges[k], bins)
        }),
        is_local_maximum(spectrogram[f], c),
        spectrogram[f][c] > 0x38d1_b717,
    ensures
        exists|n: int|
            #![trigger peaks::spectrogram_peaks(spectrogram, edges)[n]]
            {
                let all = peaks::spectrogram_peaks(spectrogram, edges);
                let bins = spectrogram[0].len() as int;
                &&& 0 <= n < all.len()
                &&& all[n].frame == f
                &&& lowest(edges[k]) <= all[n].bin <= highest(edges[k], bins)
                &&& is_local_maximum(spectrogram[f], all[n].bin as int)
                &&& all[n].magnitude == spectrogram[f][all[n].bin as int]
                &&& forall|e: int|
                    lowest(edges[k]) <= e <= highest(edges[k], bins) && #[trigger] is_local_maximum(
                        spectrogram[f],
                        e,
                    ) ==> spectrogram[f][e] <= all[n].magnitude
            },
{
    let bins = spectrogram[0].len() as int;
    let (lo, hi) = (lowest(edges[k]), highest(edges[k], bins));
    let b = lemma_maximum_exists(spectrogram[f], lo, hi, c);
    let p = SpectralPeak { frame: f as u32, bin: b as u16, magnitude: spectrogram[f][b] };
    assert(spectrogram[f].len() == bins);
    assert(p.bin == b);
    assert(is_peak_of(p, spectrogram[f], f, edges[k], bins));
    law_peaks_are_the_band_maxima(spectrogram, edges, p);
    let all = peaks::spectrogram_peaks(spectrogram, edges);
    assert(all.contains(p));
    let n = choose|n: int| 0 <= n < all.len() && all[n] == p;
    assert(all[n] == p);
}

/// A frame has as many peaks as it has bands with a local maximum above one
/// ten-thousandth.
pub proof fn law_frame_has_one_peak_per_band(
    spectrogram: Seq<Seq<u32>>,
    edges: Seq<(usize, usize)>,
    f: int,
)
    requires
        is_plain(spectrogram),
        0 <= f < spectrogram.len(),
        spectrogram[0].len() > 11,
    ensures
        peaks::spectrogram_peaks(spectrogram, edges).filter(
            |p: SpectralPeak| p.frame == f,
        ).len() == edges.filter(
            |e: (usize, usize)| has_peak(spectrogram[f], e, spectrogram[0].len() as int),
        ).len(),
{
    let bins = spectrogram[0].len() as int;
    let bands = peaks::clipped_bands(edges, bins - 1);
    lemma_peaks_of_one_frame(spectrogram, bands, f);
    let row = spectrogram[f];
    assert(row.len() == bins);
    assert forall|b: int| 0 <= b < row.len() implies (#[trigger] row[b]) <= 0x7f80_0000 by {
        assert(spectrogram[f][b] <= 0x7f80_0000);
    }
    lemma_frame_peaks_by_edge(row, edges, bins, f as u32);
}

/// A spectrum of at most eleven bins is not divided: all from bin ten on is one
/// band, whatever edges are given.
pub proof fn law_small_spectrum_is_one_band(
    spectrogram: Seq<Seq<u32>>,
    edges: Seq<(usize, usize)>,
    p: SpectralPeak,
)
    requires
        is_plain(spectrogram),
        spectrogram.len() > 0,
        0 < spectrogram[0].len() <= 11,
    ensures
        peaks::spectrogram_peaks(spectrogram, edges).contains(p) <==> {
            &&& p.frame < spectrogram.len()
            &&& spectrogram[0].len() == 11
            &&& is_band_maximum(spectrogram[p.frame as int], 10, 10, p.bin as int)
            &&& p.magnitude == spectrogram[p.frame as int][p.bin as int]
        },
{
    let bins = spectrogram[0].len() as int;
    let bands = peaks::band_edges(bins, edges);
    let f = p.frame as int;
    let of_frame = |q: SpectralPeak| q.frame == f;
    let all = peaks::all_peaks(spectrogram, bands);
    lemma_peaks_of_one_frame(spectrogram, bands, f);
    lemma_kept_contains(all, of_frame, p);
    if f < spectrogram.len() {
        let row = spectrogram[f];
        assert(row.len() == bins);
        assert forall|b: int| 0 <= b < row.len() implies (#[trigger] row[b]) <= 0x7f80_0000 by {
            assert(spectrogram[f][b] <= 0x7f80_0000);
        }
        lemma_band_peak(row, 10, bins - 1, p.frame);
        let found = peaks::frame_peaks(row, bands, p.frame);
        let none = peaks::frame_peaks(row, bands.drop_last(), p.frame);
        assert(none.len() == 0);
        match peaks::band_peak(row, 10, bins - 1, p.frame) {
            Some(q) => {
                let b = choose|b: int| #[trigger]
                    is_band_maximum(row, 10, bins - 1, b) && q == (SpectralPeak {
                        frame: p.frame,
                        bin: b as u16,
                        magnitude: row[b],
                    });
                assert(b == 10);
                assert(found =~= seq![q]);
                assert(found[0] == q);
            },
            None => {
                assert(found =~= Seq::empty());
            },
        }
    }
}

/// Magnitudes compare as the numbers that their bit patterns stand for: a pattern
/// with the sign bit is negative, and a larger pattern is further from zero;
/// either zero is zero, and what is no number neither exceeds nor is exceeded.
pub proof fn law_magnitudes_compare_as_numbers(a: u32, b: u32)
    ensures
        ({
            let (x, y) = (a as int % 0x8000_0000, b as int % 0x8000_0000);
            let numbers = x <= 0x7f80_0000 && y <= 0x7f80_0000;
            &&& !numbers ==> !peaks::exceeds(a, b)
            &&& numbers && a < 0x8000_0000 && b < 0x8000_0000 ==> peaks::exceeds(a, b) == (x > y)
            &&& numbers && a >= 0x8000_0000 && b >= 0x8000_0000 ==> peaks::exceeds(a, b) == (x < y)
            &&& numbers && a >= 0x8000_0000 && b < 0x8000_0000 ==> !peaks::exceeds(a, b)
            &&& numbers && a < 0x8000_0000 && b >= 0x8000_0000 ==> peaks::exceeds(a, b) == (x > 0
                || y > 0)
        }),
{
}

/// A band of a spectrum, from its lowest bin to its highest.
pub open spec fn band_of(edge: (usize, usize), bins: int) -> (usize, usize) {
    (lowest(edge) as usize, highest(edge, bins) as usize)
}

/// The bands of a spectrum are the given ones, in their order, each cut to the
/// bins from ten on that the spectrum has; those of fewer than two bins are left
/// out.
pub proof fn law_bands_are_cut_to_the_spectrum(bins: int, edges: Seq<(usize, usize)>)
    requires
        11 < bins <= usize::MAX,
    ensures
        peaks::band_edges(bins, edges) == edges.filter(
            |e: (usize, usize)| lowest(e) < highest(e, bins),
        ).map_values(|e: (usize, usize)| band_of(e, bins)),
    decreases edges.len(),
{
    let wide = |e: (usize, usize)| lowest(e) < highest(e, bins);
    let cut = |e: (usize, usize)| band_of(e, bins);
    if edges.len() == 0 {
        assert(edges.filter(wide) =~= Seq::empty()) by {
            reveal(Seq::filter);
        }
        assert(peaks::band_edges(bins, edges) =~= edges.filter(wide).map_values(cut));
    } else {
        let rest = edges.drop_last();
        let last = edges.last();
        law_bands_are_cut_to_the_spectrum(bins, rest);
        assert(edges =~= rest.push(last));
        rest.lemma_filter_push(last, wide);
        if wide(last) {
            let kept = rest.filter(wide);
            assert(kept.push(last).map_values(cut) =~= kept.map_values(cut).push(cut(last)));
        }
    }
}

} // verus!
