//! Constellation map fingerprinting.
//!
//! Each anchor peak is paired with several later target peaks. The hash of a
//! pair encodes both frequencies and the time between them, which is invariant
//! to amplitude and robust to noise.

use vstd::prelude::*;

use super::peaks::SpectralPeak;
use super::FpHash;
use crate::time;
use crate::Config;

verus! {

/// Length of one frame: a number of samples at a sample rate.
#[derive(Debug, Clone, Copy)]
pub struct FrameLength {
    samples: u64,
    rate: u32,
}

impl FrameLength {
    #[verifier::type_invariant]
    spec fn has_rate(self) -> bool {
        self.rate > 0
    }

    /// Samples in one frame.
    pub closed spec fn spec_samples(self) -> int {
        self.samples as int
    }

    /// Samples in one second.
    pub closed spec fn spec_rate(self) -> int {
        self.rate as int
    }

    /// A frame of `samples` samples, `rate` of which last a second.
    pub fn new(samples: u64, rate: u32) -> (length: FrameLength)
        requires
            rate > 0,
        ensures
            length.spec_samples() == samples,
            length.spec_rate() == rate,
    {
        FrameLength { samples, rate }
    }

    /// Samples in one frame.
    pub fn samples(&self) -> (samples: u64)
        ensures
            samples == self.spec_samples(),
    {
        self.samples
    }

    /// Samples in one second.
    pub fn rate(&self) -> (rate: u32)
        ensures
            rate == self.spec_rate(),
            rate > 0,
    {
        proof {
            use_type_invariant(&*self);
        }
        self.rate
    }
}

/// A complete fingerprint: a list of hashes with timing information.
#[derive(Debug, Clone)]
pub struct Fingerprint {
    /// All hashes of the audio region.
    pub hashes: Vec<FpHash>,
    /// Time of frame 0 within the file.
    pub time_offset_ns: i64,
    /// Length of one frame (hop size over sample rate).
    pub frame_duration: FrameLength,
}

/// The mathematical content of a [`Fingerprint`].
#[verifier::ext_equal]
pub struct FingerprintView {
    pub hashes: Seq<FpHash>,
    pub time_offset_ns: int,
    pub frame_samples: int,
    pub sample_rate: int,
}

impl FingerprintView {
    /// The time from the first frame to another, in whole nanoseconds.
    pub open spec fn frame_nanos(self, frame: int) -> int {
        frame * self.frame_samples * time::NANOS_PER_SECOND / self.sample_rate
    }

    /// The absolute time of a frame.
    pub open spec fn frame_time(self, frame: u32) -> int {
        time::clamped(self.time_offset_ns + self.frame_nanos(frame as int))
    }
}

impl View for Fingerprint {
    type V = FingerprintView;

    open spec fn view(&self) -> FingerprintView {
        FingerprintView {
            hashes: self.hashes@,
            time_offset_ns: self.time_offset_ns as int,
            frame_samples: self.frame_duration.spec_samples(),
            sample_rate: self.frame_duration.spec_rate(),
        }
    }
}

impl Fingerprint {
    /// Converts a frame index to an absolute time in the file.
    pub fn frame_to_seconds(&self, frame: u32) -> (ns: i64)
        ensures
            ns == self@.frame_time(frame),
    {
        let samples: i128 = self.frame_duration.samples() as i128;
        let rate: i128 = self.frame_duration.rate() as i128;
        let ghost f = frame as int;
        assert(0 <= f * samples <= 0x1_0000_0000 * 0x1_0000_0000_0000_0000) by (nonlinear_arith)
            requires
                0 <= f < 0x1_0000_0000,
                0 <= samples <= 0xffff_ffff_ffff_ffff,
        ;
        let dividend: i128 = (frame as i128) * samples * 1_000_000_000;
        let advance: i128 = dividend / rate;
        assert(0 <= dividend / rate <= dividend) by (nonlinear_arith)
            requires
                dividend >= 0,
                rate >= 1,
        ;
        time::clamp(self.time_offset_ns as i128 + advance)
    }

    /// Total number of hashes.
    pub fn len(&self) -> (n: usize)
        ensures
            n == self@.hashes.len(),
    {
        self.hashes.len()
    }

    /// Whether there is no hash at all.
    pub fn is_empty(&self) -> (empty: bool)
        ensures
            empty == (self@.hashes.len() == 0),
    {
        self.hashes.len() == 0
    }
}

/// The hash of a peak pair: the low ten bits of the anchor's bin, the low ten
/// bits of the target's bin and the low twelve bits of the frame gap, from the
/// top down.
pub open spec fn pair_hash(anchor_bin: int, target_bin: int, delta: int) -> int {
    (anchor_bin % 1024) * 0x40_0000 + (target_bin % 1024) * 0x1000 + delta % 4096
}

/// Packs a peak pair into a 32-bit hash.
pub fn compute_hash(anchor_bin: u16, target_bin: u16, delta: u16) -> (hash: u32)
    ensures
        hash == pair_hash(anchor_bin as int, target_bin as int, delta as int),
{
    let a: u32 = (anchor_bin as u32) & 0x3ff;
    let t: u32 = (target_bin as u32) & 0x3ff;
    let d: u32 = (delta as u32) & 0xfff;
    assert(a == anchor_bin % 1024 && t == target_bin % 1024 && d == delta % 4096) by (bit_vector)
        requires
            a == (anchor_bin as u32) & 0x3ff,
            t == (target_bin as u32) & 0x3ff,
            d == (delta as u32) & 0xfff,
    ;
    assert(((a << 22) | (t << 12) | d) == a * 0x40_0000 + t * 0x1000 + d) by (bit_vector)
        requires
            a < 1024,
            t < 1024,
            d < 4096,
    ;
    (a << 22) | (t << 12) | d
}

/// The frame gap from an anchor to a target, zero if the target is earlier.
pub open spec fn frame_gap(anchor: SpectralPeak, target: SpectralPeak) -> int {
    if target.frame > anchor.frame {
        target.frame - anchor.frame
    } else {
        0
    }
}

/// The hash that an anchor and a target contribute.
pub open spec fn pair_entry(anchor: SpectralPeak, target: SpectralPeak) -> FpHash {
    FpHash {
        hash: pair_hash(
            anchor.bin as int,
            target.bin as int,
            frame_gap(anchor, target),
        ) as u32,
        frame: anchor.frame,
    }
}

/// The hashes of `anchor` with the peaks in `later`: at most `fan_out` of
/// them, passing over peaks of the anchor's own frame (or earlier) and ending
/// at the first peak more than `max_delta` frames ahead.
pub open spec fn anchor_hashes(
    anchor: SpectralPeak,
    later: Seq<SpectralPeak>,
    fan_out: int,
    max_delta: int,
) -> Seq<FpHash>
    decreases later.len(),
{
    if later.len() == 0 || fan_out <= 0 {
        Seq::empty()
    } else {
        let gap = frame_gap(anchor, later[0]);
        let rest = later.drop_first();
        if gap > max_delta {
            Seq::empty()
        } else if gap == 0 {
            anchor_hashes(anchor, rest, fan_out, max_delta)
        } else {
            seq![pair_entry(anchor, later[0])] + anchor_hashes(
                anchor,
                rest,
                fan_out - 1,
                max_delta,
            )
        }
    }
}

/// The hashes of the first `n` anchors, each paired with the peaks behind it.
pub open spec fn constellation(
    peaks: Seq<SpectralPeak>,
    n: int,
    fan_out: int,
    max_delta: int,
) -> Seq<FpHash>
    decreases n,
{
    if n <= 0 {
        Seq::empty()
    } else {
        constellation(peaks, n - 1, fan_out, max_delta) + anchor_hashes(
            peaks[n - 1],
            peaks.skip(n),
            fan_out,
            max_delta,
        )
    }
}

/// The fingerprint of a list of peaks.
pub open spec fn peaks_fingerprint(
    peaks: Seq<SpectralPeak>,
    config: Config,
    time_offset_ns: int,
    sample_rate: int,
) -> FingerprintView {
    FingerprintView {
        hashes: constellation(
            peaks,
            peaks.len() as int,
            config.fan_out as int,
            (config.max_target_delta as u32) as int,
        ),
        time_offset_ns,
        frame_samples: config.hop_size as int,
        sample_rate,
    }
}

/// Builds a fingerprint from extracted peaks using constellation pairing.
pub fn build_fingerprint(
    peaks: Vec<SpectralPeak>,
    config: &Config,
    time_offset_ns: i64,
    sample_rate: u32,
) -> (fp: Fingerprint)
    requires
        sample_rate > 0,
    ensures
        fp@ == peaks_fingerprint(peaks@, *config, time_offset_ns as int, sample_rate as int),
{
    let frame_duration: FrameLength = FrameLength::new(config.hop_size as u64, sample_rate);
    let max_delta: u32 = config.max_target_delta as u32;
    let mut hashes: Vec<FpHash> = Vec::new();
    let ghost fan_out = config.fan_out as int;
    let mut i: usize = 0;
    while i < peaks.len()
        invariant
            i <= peaks@.len(),
            fan_out == config.fan_out,
            hashes@ == constellation(peaks@, i as int, fan_out, max_delta as int),
        decreases peaks@.len() - i,
    {
        let anchor: SpectralPeak = peaks[i];
        let ghost before = hashes@;
        let ghost goal = anchor_hashes(anchor, peaks@.skip(i + 1), fan_out, max_delta as int);
        let mut paired: usize = 0;
        let mut j: usize = i + 1;
        let mut open: bool = true;
        while open && j < peaks.len() && paired < config.fan_out
            invariant
                i < j <= peaks@.len(),
                paired <= config.fan_out,
                fan_out == config.fan_out,
                open ==> before + goal == hashes@ + anchor_hashes(
                    anchor,
                    peaks@.skip(j as int),
                    fan_out - paired,
                    max_delta as int,
                ),
                !open ==> before + goal == hashes@,
            decreases peaks@.len() - j, (if open { 1int } else { 0 }),
        {
            let target: SpectralPeak = peaks[j];
            let gap: u32 = if target.frame > anchor.frame {
                target.frame - anchor.frame
            } else {
                0
            };
            proof {
                assert(peaks@.skip(j as int)[0] == target);
                assert(peaks@.skip(j as int).drop_first() =~= peaks@.skip(j + 1));
            }
            if gap > max_delta {
                open = false;
                proof {
                    assert(hashes@ + Seq::<FpHash>::empty() =~= hashes@);
                }
            } else {
                if gap > 0 {
                    let ghost tail = anchor_hashes(
                        anchor,
                        peaks@.skip(j + 1),
                        fan_out - paired - 1,
                        max_delta as int,
                    );
                    let hash: u32 = compute_hash(anchor.bin, target.bin, gap as u16);
                    let entry: FpHash = FpHash { hash, frame: anchor.frame };
                    proof {
                        assert((gap as u16) % 4096 == gap % 4096) by (bit_vector);
                        assert(entry == pair_entry(anchor, target));
                        assert(hashes@ + (seq![entry] + tail) =~= hashes@.push(entry) + tail);
                    }
                    hashes.push(entry);
                    paired = paired + 1;
                }
                j = j + 1;
            }
        }
        proof {
            if open {
                assert(anchor_hashes(
                    anchor,
                    peaks@.skip(j as int),
                    fan_out - paired,
                    max_delta as int,
                ) =~= Seq::empty());
                assert(hashes@ + Seq::<FpHash>::empty() =~= hashes@);
            }
        }
        i = i + 1;
    }
    Fingerprint { hashes, time_offset_ns, frame_duration }
}

/// A hash gives its three parts back, as far as they fit their fields: the low
/// ten bits of either bin and the low twelve bits of the gap.
pub proof fn law_hash_unpacks(anchor_bin: u16, target_bin: u16, delta: u16)
    ensures
        ({
            let hash = pair_hash(anchor_bin as int, target_bin as int, delta as int);
            &&& 0 <= hash <= u32::MAX
            &&& hash / 0x40_0000 == anchor_bin % 1024
            &&& (hash / 0x1000) % 1024 == target_bin % 1024
            &&& hash % 0x1000 == delta % 4096
        }),
{
}

/// The target lies ahead of the anchor, by at most `max_delta` frames.
pub open spec fn in_reach(anchor: SpectralPeak, max_delta: int) -> spec_fn(SpectralPeak) -> bool {
    |target: SpectralPeak| 0 < frame_gap(anchor, target) <= max_delta
}

/// Where peaks come in frame order, an anchor is paired with the nearest
/// `fan_out` peaks that lie ahead of it by at most `max_delta` frames, or with
/// all of them if there are fewer.
pub proof fn law_anchor_meets_nearest_targets(
    anchor: SpectralPeak,
    later: Seq<SpectralPeak>,
    fan_out: int,
    max_delta: int,
)
    requires
        forall|a: int, b: int|
            0 <= a <= b < later.len() ==> later[a].frame <= later[b].frame,
        fan_out >= 0,
        max_delta >= 0,
    ensures
        ({
            let targets = later.filter(in_reach(anchor, max_delta));
            let used = if targets.len() <= fan_out {
                targets
            } else {
                targets.take(fan_out)
            };
            anchor_hashes(anchor, later, fan_out, max_delta) == used.map_values(
                |target: SpectralPeak| pair_entry(anchor, target),
            )
        }),
    decreases later.len(),
{
    let reach = in_reach(anchor, max_delta);
    let entry = |target: SpectralPeak| pair_entry(anchor, target);
    let targets = later.filter(reach);
    if later.len() == 0 {
        assert(targets.len() == 0) by {
            reveal(Seq::filter);
        }
        assert(anchor_hashes(anchor, later, fan_out, max_delta) =~= targets.map_values(entry));
    } else {
        let first = later[0];
        let rest = later.drop_first();
        assert(later =~= seq![first] + rest);
        rest.lemma_filter_prepend(first, reach);
        assert forall|a: int, b: int| 0 <= a <= b < rest.len() implies rest[a].frame
            <= rest[b].frame by {
            assert(rest[a] == later[a + 1] && rest[b] == later[b + 1]);
        }
        let gap = frame_gap(anchor, first);
        if fan_out == 0 {
            let used = if targets.len() <= fan_out {
                targets
            } else {
                targets.take(fan_out)
            };
            assert(used.map_values(entry) =~= Seq::empty());
        } else if gap > max_delta {
            assert forall|i: int| 0 <= i < later.len() implies !reach(#[trigger] later[i]) by {
                assert(later[0].frame <= later[i].frame);
            }
            later.lemma_all_neg_filter_empty(reach);
            assert(targets.map_values(entry) =~= Seq::empty());
        } else if gap == 0 {
            law_anchor_meets_nearest_targets(anchor, rest, fan_out, max_delta);
            assert(targets == rest.filter(reach));
        } else {
            law_anchor_meets_nearest_targets(anchor, rest, fan_out - 1, max_delta);
            let fewer = rest.filter(reach);
            assert(targets == seq![first] + fewer);
            let used = if targets.len() <= fan_out {
                targets
            } else {
                targets.take(fan_out)
            };
            let used_later = if fewer.len() <= fan_out - 1 {
                fewer
            } else {
                fewer.take(fan_out - 1)
            };
            assert(used =~= seq![first] + used_later);
            assert(used.map_values(entry) =~= seq![pair_entry(anchor, first)]
                + used_later.map_values(entry));
        }
    }
}

/// The peaks of `b` are those of `a`, `shift` frames later, at whatever
/// magnitudes.
pub open spec fn same_shape(a: Seq<SpectralPeak>, b: Seq<SpectralPeak>, shift: int) -> bool {
    &&& a.len() == b.len()
    &&& forall|i: int|
        #![trigger a[i]]
        #![trigger b[i]]
        0 <= i < a.len() ==> b[i].bin == a[i].bin && b[i].frame == a[i].frame + shift
}

/// The same hashes, `shift` frames later.
pub open spec fn moved(hashes: Seq<FpHash>, shift: int) -> Seq<FpHash> {
    hashes.map_values(|h: FpHash| FpHash { hash: h.hash, frame: (h.frame + shift) as u32 })
}

/// Audio that starts later, and is louder or softer, has the same hashes, only
/// later: neither the amplitude nor the place in the recording goes into them.
pub proof fn law_hashes_move_with_the_audio(
    a: Seq<SpectralPeak>,
    b: Seq<SpectralPeak>,
    shift: int,
    n: int,
    fan_out: int,
    max_delta: int,
)
    requires
        same_shape(a, b, shift),
        0 <= n <= a.len(),
    ensures
        constellation(b, n, fan_out, max_delta) == moved(
            constellation(a, n, fan_out, max_delta),
            shift,
        ),
    decreases n,
{
    if n > 0 {
        law_hashes_move_with_the_audio(a, b, shift, n - 1, fan_out, max_delta);
        lemma_anchor_moves(a[n - 1], b[n - 1], a.skip(n), b.skip(n), shift, fan_out, max_delta);
        let front = constellation(a, n - 1, fan_out, max_delta);
        let back = anchor_hashes(a[n - 1], a.skip(n), fan_out, max_delta);
        assert(moved(front, shift) + moved(back, shift) =~= moved(front + back, shift));
    } else {
        assert(constellation(b, n, fan_out, max_delta) =~= moved(
            constellation(a, n, fan_out, max_delta),
            shift,
        ));
    }
}

/// As [`law_hashes_move_with_the_audio`], for one anchor.
proof fn lemma_anchor_moves(
    a: SpectralPeak,
    b: SpectralPeak,
    a_later: Seq<SpectralPeak>,
    b_later: Seq<SpectralPeak>,
    shift: int,
    fan_out: int,
    max_delta: int,
)
    requires
        b.bin == a.bin,
        b.frame == a.frame + shift,
        same_shape(a_later, b_later, shift),
    ensures
        anchor_hashes(b, b_later, fan_out, max_delta) == moved(
            anchor_hashes(a, a_later, fan_out, max_delta),
            shift,
        ),
    decreases a_later.len(),
{
    let goal = moved(anchor_hashes(a, a_later, fan_out, max_delta), shift);
    if a_later.len() == 0 || fan_out <= 0 {
        assert(goal =~= Seq::empty());
    } else {
        let (x, y) = (a_later[0], b_later[0]);
        let (a_rest, b_rest) = (a_later.drop_first(), b_later.drop_first());
        assert forall|i: int|
            #![trigger a_rest[i]]
            #![trigger b_rest[i]]
            0 <= i < a_rest.len() implies b_rest[i].bin == a_rest[i].bin && b_rest[i].frame
            == a_rest[i].frame + shift by {
            assert(a_rest[i] == a_later[i + 1] && b_rest[i] == b_later[i + 1]);
        }
        let gap = frame_gap(a, x);
        if gap > max_delta {
            assert(goal =~= Seq::empty());
        } else if gap == 0 {
            lemma_anchor_moves(a, b, a_rest, b_rest, shift, fan_out, max_delta);
        } else {
            lemma_anchor_moves(a, b, a_rest, b_rest, shift, fan_out - 1, max_delta);
            let tail = anchor_hashes(a, a_rest, fan_out - 1, max_delta);
            assert(moved(seq![pair_entry(a, x)] + tail, shift) =~= seq![pair_entry(b, y)] + moved(
                tail,
                shift,
            ));
        }
    }
}

} // verus!
