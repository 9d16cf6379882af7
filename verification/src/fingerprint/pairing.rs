//! Which hashes the peaks of a recording give: those of every peak with the
//! nearest peaks ahead of it.

use vstd::prelude::*;

use super::constellation::{self, Fingerprint, FingerprintView};
use super::peaks::{self, SpectralPeak};
use super::FpHash;
use crate::Config;

verus! {

/// The peaks ahead of `anchor` by at most the configured number of frames, and
/// no more of them than are to be paired.
pub open spec fn targets_of(
    anchor: SpectralPeak,
    later: Seq<SpectralPeak>,
    config: Config,
) -> Seq<SpectralPeak> {
    let near = later.filter(
        |t: SpectralPeak|
            anchor.frame < t.frame && t.frame - anchor.frame <= config.max_target_delta,
    );
    if near.len() <= config.fan_out {
        near
    } else {
        near.take(config.fan_out as int)
    }
}

/// The hash of two peaks: ten bits of each bin and twelve of the frames between
/// them, at the frame of the first.
pub open spec fn hash_of(anchor: SpectralPeak, target: SpectralPeak) -> FpHash {
    FpHash {
        hash: ((anchor.bin as int % 1024) * 0x40_0000 + (target.bin as int % 1024) * 0x1000 + (
        target.frame - anchor.frame) % 4096) as u32,
        frame: anchor.frame,
    }
}

/// Peaks come in the order of their frames.
pub open spec fn in_frame_order(peaks: Seq<SpectralPeak>) -> bool {
    forall|a: int, b: int| 0 <= a <= b < peaks.len() ==> peaks[a].frame <= peaks[b].frame
}

/// The hashes of the first anchor come first, and the others do not depend on
/// it.
proof fn lemma_first_anchor(peaks: Seq<SpectralPeak>, n: int, fan_out: int, max_delta: int)
    requires
        1 <= n <= peaks.len(),
    ensures
        constellation::constellation(peaks, n, fan_out, max_delta)
            == constellation::anchor_hashes(peaks[0], peaks.drop_first(), fan_out, max_delta)
            + constellation::constellation(peaks.drop_first(), n - 1, fan_out, max_delta),
    decreases n,
{
    let rest = peaks.drop_first();
    let front = constellation::anchor_hashes(peaks[0], rest, fan_out, max_delta);
    if n == 1 {
        assert(peaks.skip(1) =~= rest);
        assert(constellation::constellation(peaks, 0, fan_out, max_delta) =~= Seq::empty());
        assert(Seq::<FpHash>::empty() + front =~= front);
        assert(front + Seq::<FpHash>::empty() =~= front);
    } else {
        lemma_first_anchor(peaks, n - 1, fan_out, max_delta);
        assert(peaks[n - 1] == rest[n - 2]);
        assert(peaks.skip(n) =~= rest.skip(n - 1));
        let middle = constellation::constellation(rest, n - 2, fan_out, max_delta);
        let back = constellation::anchor_hashes(
            peaks[n - 1],
            peaks.skip(n),
            fan_out,
            max_delta,
        );
        assert((front + middle) + back =~= front + (middle + back));
    }
}

/// Filters that agree on the elements of a list keep the same ones.
proof fn lemma_same_filter(
    list: Seq<SpectralPeak>,
    f: spec_fn(SpectralPeak) -> bool,
    g: spec_fn(SpectralPeak) -> bool,
)
    requires
        forall|t: SpectralPeak| #[trigger] f(t) == g(t),
    ensures
        list.filter(f) == list.filter(g),
    decreases list.len(),
{
    reveal(Seq::filter);
    if list.len() > 0 {
        lemma_same_filter(list.drop_last(), f, g);
        assert(f(list.last()) == g(list.last()));
    }
}

/// A peak is paired with the nearest peaks ahead of it, each pair giving one
/// hash at the frame of the first peak; the hashes of the later peaks follow, as
/// they would be without it.
pub proof fn law_peak_is_paired_with_the_nearest(
    peaks: Seq<SpectralPeak>,
    config: Config,
    time_offset_ns: int,
    sample_rate: int,
)
    requires
        peaks.len() > 0,
        in_frame_order(peaks),
        config.max_target_delta <= u32::MAX,
    ensures
        constellation::peaks_fingerprint(peaks, config, time_offset_ns, sample_rate).hashes
            == targets_of(peaks[0], peaks.drop_first(), config).map_values(
            |t: SpectralPeak| hash_of(peaks[0], t),
        ) + constellation::peaks_fingerprint(
            peaks.drop_first(),
            config,
            time_offset_ns,
            sample_rate,
        ).hashes,
{
    let rest = peaks.drop_first();
    let anchor = peaks[0];
    let (fan_out, max_delta) = (config.fan_out as int, config.max_target_delta as int);
    lemma_first_anchor(peaks, peaks.len() as int, fan_out, max_delta);
    assert forall|a: int, b: int| 0 <= a <= b < rest.len() implies rest[a].frame
        <= rest[b].frame by {
        assert(rest[a] == peaks[a + 1] && rest[b] == peaks[b + 1]);
    }
    constellation::law_anchor_meets_nearest_targets(anchor, rest, fan_out, max_delta);
    let reach = constellation::in_reach(anchor, max_delta);
    let near = |t: SpectralPeak|
        anchor.frame < t.frame && t.frame - anchor.frame <= config.max_target_delta;
    lemma_same_filter(rest, reach, near);
    let used = targets_of(anchor, rest, config);
    let entry = |t: SpectralPeak| constellation::pair_entry(anchor, t);
    let hash = |t: SpectralPeak| hash_of(anchor, t);
    assert forall|i: int| 0 <= i < used.len() implies entry(#[trigger] used[i]) == hash(
        used[i],
    ) by {
        let all = rest.filter(reach);
        assert(used[i] == all[i]);
        rest.lemma_filter_pred(reach, i);
    }
    assert(used.map_values(entry) =~= used.map_values(hash));
}

/// Without peaks there are no hashes.
pub proof fn law_silence_has_no_hashes(config: Config, time_offset_ns: int, sample_rate: int)
    ensures
        constellation::peaks_fingerprint(
            Seq::empty(),
            config,
            time_offset_ns,
            sample_rate,
        ).hashes.len() == 0,
{
}

/// A fingerprint begins where its audio does, and its frames are as long as the
/// hop between two transform windows: frame `n` begins `n` hops later.
pub proof fn law_frames_are_hops(
    peaks: Seq<SpectralPeak>,
    config: Config,
    time_offset_ns: int,
    sample_rate: int,
    n: u32,
)
    requires
        sample_rate > 0,
        i64::MIN <= time_offset_ns + (n * config.hop_size * 1_000_000_000) / sample_rate
            <= i64::MAX,
    ensures
        constellation::peaks_fingerprint(peaks, config, time_offset_ns, sample_rate).frame_time(n)
            == time_offset_ns + (n * config.hop_size * 1_000_000_000) / sample_rate,
{
}

/// Frame times go by the length of a frame, with whatever part of a nanosecond
/// is over dropped.
pub proof fn law_frame_time_is_exact(fp: FingerprintView, n: u32)
    requires
        fp.sample_rate > 0,
        i64::MIN <= fp.time_offset_ns + (n * fp.frame_samples * 1_000_000_000) / fp.sample_rate
            <= i64::MAX,
    ensures
        ({
            let exact = n * fp.frame_samples * 1_000_000_000;
            let whole = (fp.frame_time(n) - fp.time_offset_ns) * fp.sample_rate;
            whole <= exact < whole + fp.sample_rate
        }),
{
    let exact = n * fp.frame_samples * 1_000_000_000;
    let q = exact / fp.sample_rate;
    let r = fp.sample_rate;
    assert(q * r <= exact < q * r + r) by (nonlinear_arith)
        requires
            r > 0,
            q == exact / r,
    ;
}

/// The content of a fingerprint is all of it.
pub proof fn law_fingerprint_is_seen_whole(fp: Fingerprint)
    ensures
        fp@.hashes == fp.hashes@,
        fp@.time_offset_ns == fp.time_offset_ns,
        fp@.frame_samples == fp.frame_duration.spec_samples(),
        fp@.sample_rate == fp.frame_duration.spec_rate(),
{
}

/// The frames of a spectrogram are seen in their order, each whole.
pub proof fn law_spectrogram_is_seen_whole(spectrogram: Seq<Vec<u32>>, f: int)
    requires
        0 <= f < spectrogram.len(),
    ensures
        peaks::spectrogram_view(spectrogram).len() == spectrogram.len(),
        peaks::spectrogram_view(spectrogram)[f] == spectrogram[f]@,
{
}

} // verus!
