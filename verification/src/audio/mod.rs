//! Audio decoding: which part of which track to decode, and when to stop.

pub mod ffmpeg;

use vstd::prelude::*;

use crate::{time, Config};

verus! {

/// A decoded window of a file's audio, as far as detection reads it.
///
/// The samples themselves go through the spectral transform; what is kept of
/// them here is the loudness of each analysis window.
#[derive(Debug, Clone)]
pub struct AudioRegion {
    /// Root-mean-square level of each whole analysis window of the samples, in
    /// millionths of a decibel.
    pub levels: Vec<i32>,
    /// Sample rate of the decoded audio, in hertz.
    pub sample_rate: u32,
    /// Where in the file the window begins.
    pub offset_ns: i64,
    /// Length of the source file, if known.
    pub total_duration_ns: Option<i64>,
}

/// The mathematical content of an [`AudioRegion`].
#[verifier::ext_equal]
pub struct RegionView {
    pub levels: Seq<i32>,
    pub sample_rate: int,
    pub offset_ns: int,
    pub total_duration_ns: Option<i64>,
}

impl View for AudioRegion {
    type V = RegionView;

    open spec fn view(&self) -> RegionView {
        RegionView {
            levels: self.levels@,
            sample_rate: self.sample_rate as int,
            offset_ns: self.offset_ns as int,
            total_duration_ns: self.total_duration_ns,
        }
    }
}

/// Which part of a file to decode.
#[derive(Debug, Clone, Copy, PartialEq, Eq, Structural)]
pub enum RegionSpec {
    /// The head of the file.
    Intro,
    /// The tail of the file.
    Credits,
    /// From one point in time to another.
    Absolute { start_ns: i64, end_ns: i64 },
}

/// What a container says of one of its tracks.
#[derive(Debug, Clone, Copy, PartialEq, Eq, Structural)]
pub struct TrackInfo {
    pub id: u32,
    /// Whether the track has a codec at all.
    pub has_codec: bool,
    pub sample_rate: Option<u32>,
    pub channels: Option<usize>,
    /// Length of the track in frames.
    pub n_frames: Option<u64>,
}

/// Why nothing can be decoded.
#[derive(Debug, Clone, Copy, PartialEq, Eq, Structural)]
pub enum DecodeError {
    /// No track has a codec.
    NoAudioTrack,
    /// The tail of a file of unknown length was asked for.
    UnknownDuration,
}

impl DecodeError {
    /// The text of the error.
    pub open spec fn spec_message(self) -> Seq<char> {
        match self {
            DecodeError::NoAudioTrack => "No audio track found"@,
            DecodeError::UnknownDuration => "Unknown duration; cannot scan credits"@,
        }
    }

    /// Describes the error.
    pub fn message(&self) -> (message: String)
        ensures
            message@ == self.spec_message(),
    {
        match self {
            DecodeError::NoAudioTrack => "No audio track found".to_owned(),
            DecodeError::UnknownDuration => "Unknown duration; cannot scan credits".to_owned(),
        }
    }
}

/// How to decode a region.
#[derive(Debug, Clone, Copy, PartialEq, Eq, Structural)]
pub struct DecodePlan {
    pub track_id: u32,
    /// Sample rate of the track.
    pub native_rate: u32,
    /// Interleaved channels of the track.
    pub channels: usize,
    /// Length of the file, if the track says.
    pub total_duration_ns: Option<i64>,
    /// Where to start; the decoder seeks there if it is not the beginning.
    pub start_ns: i64,
    /// Where to stop.
    pub end_ns: i64,
    /// Interleaved samples to collect at most.
    pub max_samples: usize,
}

/// Track `i` is the first one that has a codec.
pub open spec fn is_first_audio(tracks: Seq<TrackInfo>, i: int) -> bool {
    &&& 0 <= i < tracks.len()
    &&& tracks[i].has_codec
    &&& forall|j: int| 0 <= j < i ==> !(#[trigger] tracks[j]).has_codec
}

/// The sample rate of a track; a track that does not say has that of a
/// compact disc.
pub open spec fn track_rate(track: TrackInfo) -> int {
    match track.sample_rate {
        Some(rate) => rate as int,
        None => 44_100,
    }
}

/// The channels of a track; a track that does not say has two.
pub open spec fn track_channels(track: TrackInfo) -> int {
    match track.channels {
        Some(n) => n as int,
        None => 2,
    }
}

/// How long `n` frames last at a rate: the first whole nanosecond by which the
/// last of them is over.
pub open spec fn frames_duration(n: int, rate: int) -> int {
    time::clamped((n * 1_000_000_000 + rate - 1) / rate)
}

/// The length of a track, if it says. At a rate of zero no number of frames has
/// a length.
pub open spec fn track_duration(track: TrackInfo) -> Option<i64> {
    match track.n_frames {
        Some(n) => if track_rate(track) == 0 {
            None
        } else {
            Some(frames_duration(n as int, track_rate(track)) as i64)
        },
        None => None,
    }
}

/// The bounds of a region in a file of the given length. The tail of a file of
/// unknown length has none.
pub open spec fn region_bounds(
    spec: RegionSpec,
    total_duration_ns: Option<i64>,
    config: Config,
) -> Option<(int, int)> {
    match spec {
        RegionSpec::Intro => Some((0, config.intro_scan_ns as int)),
        RegionSpec::Credits => match total_duration_ns {
            Some(total) => {
                let start = total - config.credits_scan_ns;
                Some(
                    (
                        if start < 0 {
                            0
                        } else {
                            time::clamped(start)
                        },
                        total as int,
                    ),
                )
            },
            None => None,
        },
        RegionSpec::Absolute { start_ns, end_ns } => Some((start_ns as int, end_ns as int)),
    }
}

/// The interleaved samples between two points in time, held at the largest
/// count. There are none where the end does not lie after the start.
pub open spec fn sample_budget(start: int, end: int, rate: int, channels: int) -> int {
    let frames = if end <= start {
        0
    } else {
        (end - start) * rate / 1_000_000_000
    };
    if frames * channels > usize::MAX {
        usize::MAX as int
    } else {
        frames * channels
    }
}

/// The plan for a region of a track.
pub open spec fn track_plan(track: TrackInfo, bounds: (int, int)) -> DecodePlan {
    DecodePlan {
        track_id: track.id,
        native_rate: track_rate(track) as u32,
        channels: track_channels(track) as usize,
        total_duration_ns: track_duration(track),
        start_ns: bounds.0 as i64,
        end_ns: bounds.1 as i64,
        max_samples: sample_budget(
            bounds.0,
            bounds.1,
            track_rate(track),
            track_channels(track),
        ) as usize,
    }
}

/// Finds the first track that has a codec.
pub fn find_audio_track(tracks: &[TrackInfo]) -> (index: Option<usize>)
    ensures
        match index {
            Some(i) => is_first_audio(tracks@, i as int),
            None => forall|i: int| 0 <= i < tracks@.len() ==> !(#[trigger] tracks@[i]).has_codec,
        },
{
    let mut i: usize = 0;
    while i < tracks.len()
        invariant
            i <= tracks@.len(),
            forall|j: int| 0 <= j < i ==> !(#[trigger] tracks@[j]).has_codec,
        decreases tracks@.len() - i,
    {
        if tracks[i].has_codec {
            return Some(i);
        }
        i = i + 1;
    }
    None
}

/// Computes [`region_bounds`].
pub fn region_window(spec: RegionSpec, total_duration_ns: Option<i64>, config: &Config) -> (bounds:
    Option<(i64, i64)>)
    ensures
        match bounds {
            Some((start, end)) => region_bounds(spec, total_duration_ns, *config) == Some(
                (start as int, end as int),
            ),
            None => region_bounds(spec, total_duration_ns, *config) is None,
        },
{
    match spec {
        RegionSpec::Intro => Some((0, config.intro_scan_ns)),
        RegionSpec::Credits => match total_duration_ns {
            Some(total) => {
                let start: i128 = total as i128 - config.credits_scan_ns as i128;
                if start < 0 {
                    Some((0, total))
                } else {
                    Some((time::clamp(start), total))
                }
            },
            None => None,
        },
        RegionSpec::Absolute { start_ns, end_ns } => Some((start_ns, end_ns)),
    }
}

/// Computes [`sample_budget`].
fn count_samples(start: i64, end: i64, rate: u32, channels: usize) -> (samples: usize)
    ensures
        samples == sample_budget(start as int, end as int, rate as int, channels as int),
{
    if end <= start {
        assert(0 * channels == 0);
        return 0;
    }
    let length: u128 = (end as i128 - start as i128) as u128;
    proof {
        let l = length as int;
        let r = rate as int;
        assert(0 <= l * r <= 0x1_0000_0000_0000_0000_0000_0000) by (nonlinear_arith)
            requires
                0 <= l <= 0x1_0000_0000_0000_0000,
                0 <= r <= 0x1_0000_0000,
        ;
    }
    let frames: u128 = length * (rate as u128) / 1_000_000_000;
    if channels == 0 {
        assert(frames * 0 == 0);
        return 0;
    }
    let ghost f = frames as int;
    let ghost c = channels as int;
    if frames > usize::MAX as u128 {
        proof {
            assert(f * c >= f) by (nonlinear_arith)
                requires
                    f >= 0,
                    c >= 1,
            ;
        }
        return usize::MAX;
    }
    proof {
        assert(0 <= f * c <= 0xffff_ffff_ffff_ffff * 0xffff_ffff_ffff_ffff) by (nonlinear_arith)
            requires
                0 <= f <= 0xffff_ffff_ffff_ffff,
                0 <= c <= 0xffff_ffff_ffff_ffff,
        ;
    }
    let samples: u128 = frames * (channels as u128);
    if samples > usize::MAX as u128 {
        usize::MAX
    } else {
        samples as usize
    }
}

/// Plans the decoding of a region: which track, from where to where, and how
/// many samples at most.
///
/// The first track with a codec is decoded. A track whose channel count is zero
/// cannot be. Of a track whose sample rate is zero there is nothing to collect.
pub fn decode_region_internal(tracks: &[TrackInfo], config: &Config, spec: RegionSpec) -> (plan:
    Result<DecodePlan, DecodeError>)
    requires
        is_decodable(tracks@),
    ensures
        is_planned(plan, tracks@, spec, *config),
{
    let index: usize = match find_audio_track(tracks) {
        Some(i) => i,
        None => return Err(DecodeError::NoAudioTrack),
    };
    let track: TrackInfo = tracks[index];
    let native_rate: u32 = match track.sample_rate {
        Some(rate) => rate,
        None => 44_100,
    };
    let channels: usize = match track.channels {
        Some(n) => n,
        None => 2,
    };
    let total_duration_ns: Option<i64> = match track.n_frames {
        Some(n) => if native_rate == 0 {
            None
        } else {
            let rate: i128 = native_rate as i128;
            Some(time::clamp(((n as i128) * 1_000_000_000 + rate - 1) / rate))
        },
        None => None,
    };
    let (start_ns, end_ns) = match region_window(spec, total_duration_ns, config) {
        Some(bounds) => bounds,
        None => return Err(DecodeError::UnknownDuration),
    };
    Ok(
        DecodePlan {
            track_id: track.id,
            native_rate,
            channels,
            total_duration_ns,
            start_ns,
            end_ns,
            max_samples: count_samples(start_ns, end_ns, native_rate, channels),
        },
    )
}

/// The plan for the first track of a file that has a codec, and for a region
/// of it.
pub open spec fn is_plan(
    plan: DecodePlan,
    tracks: Seq<TrackInfo>,
    spec: RegionSpec,
    config: Config,
) -> bool {
    exists|i: int| #[trigger]
        is_first_audio(tracks, i) && {
            let bounds = region_bounds(spec, track_duration(tracks[i]), config);
            bounds is Some && plan == track_plan(tracks[i], bounds->0)
        }
}

/// The outcome of planning a region.
pub open spec fn is_planned(
    plan: Result<DecodePlan, DecodeError>,
    tracks: Seq<TrackInfo>,
    spec: RegionSpec,
    config: Config,
) -> bool {
    match plan {
        Ok(p) => is_plan(p, tracks, spec, config),
        Err(DecodeError::NoAudioTrack) => forall|i: int|
            0 <= i < tracks.len() ==> !(#[trigger] tracks[i]).has_codec,
        Err(DecodeError::UnknownDuration) => {
            &&& spec == RegionSpec::Credits
            &&& exists|i: int| #[trigger]
                is_first_audio(tracks, i) && track_duration(tracks[i]) is None
        },
    }
}

/// The first track with a codec, if there is one, has no channel count of zero.
pub open spec fn is_decodable(tracks: Seq<TrackInfo>) -> bool {
    forall|i: int| #[trigger]
        is_first_audio(tracks, i) ==> tracks[i].channels != Some(0usize)
}

/// Plans the decoding of the intro window, at the head of a file.
pub fn decode_intro_region(tracks: &[TrackInfo], config: &Config) -> (plan: Result<
    DecodePlan,
    DecodeError,
>)
    requires
        is_decodable(tracks@),
    ensures
        is_planned(plan, tracks@, RegionSpec::Intro, *config),
{
    decode_region_internal(tracks, config, RegionSpec::Intro)
}

/// Plans the decoding of the credits window, at the tail of a file.
pub fn decode_credits_region(tracks: &[TrackInfo], config: &Config) -> (plan: Result<
    DecodePlan,
    DecodeError,
>)
    requires
        is_decodable(tracks@),
    ensures
        is_planned(plan, tracks@, RegionSpec::Credits, *config),
{
    decode_region_internal(tracks, config, RegionSpec::Credits)
}

/// Plans the decoding of a region between two points in time.
pub fn decode_region(tracks: &[TrackInfo], config: &Config, start_ns: i64, end_ns: i64) -> (plan:
    Result<DecodePlan, DecodeError>)
    requires
        is_decodable(tracks@),
    ensures
        is_planned(plan, tracks@, RegionSpec::Absolute { start_ns, end_ns }, *config),
{
    decode_region_internal(tracks, config, RegionSpec::Absolute { start_ns, end_ns })
}

/// What reading the next packet of a container gave.
#[derive(Debug, Clone, Copy, PartialEq, Eq, Structural)]
pub enum PacketEvent {
    /// A packet of a track.
    Packet { track_id: u32 },
    /// The end of the file.
    EndOfFile,
    /// An error other than the end of the file.
    Failed,
}

/// What to do about it.
#[derive(Debug, Clone, Copy, PartialEq, Eq, Structural)]
pub enum PacketAction {
    /// Decode the packet and collect its samples.
    Decode,
    /// Leave the packet out; it belongs to another track.
    Skip,
    /// Stop and use what was collected.
    Finish,
    /// Give the file up.
    Fail,
}

impl DecodePlan {
    /// Where to seek before decoding, as whole seconds and nanoseconds. There
    /// is no need to seek to the beginning of the file.
    pub fn seek_target(&self) -> (target: Option<(u64, u32)>)
        ensures
            match target {
                Some((seconds, nanos)) => {
                    &&& self.start_ns > 0
                    &&& nanos < 1_000_000_000
                    &&& seconds * 1_000_000_000 + nanos == self.start_ns
                },
                None => self.start_ns <= 0,
            },
    {
        if self.start_ns > 0 {
            let seconds: u64 = (self.start_ns / 1_000_000_000) as u64;
            let nanos: u32 = (self.start_ns % 1_000_000_000) as u32;
            Some((seconds, nanos))
        } else {
            None
        }
    }

    /// Decides about the next packet.
    pub fn on_packet(&self, event: PacketEvent) -> (action: PacketAction)
        ensures
            action == (match event {
                PacketEvent::Packet { track_id } => if track_id == self.track_id {
                    PacketAction::Decode
                } else {
                    PacketAction::Skip
                },
                PacketEvent::EndOfFile => PacketAction::Finish,
                PacketEvent::Failed => PacketAction::Fail,
            }),
    {
        match event {
            PacketEvent::Packet { track_id } => {
                if track_id == self.track_id {
                    PacketAction::Decode
                } else {
                    PacketAction::Skip
                }
            },
            PacketEvent::EndOfFile => PacketAction::Finish,
            PacketEvent::Failed => PacketAction::Fail,
        }
    }

    /// Decides how many of the samples collected so far to keep, and whether
    /// they are enough.
    pub fn on_samples(&self, collected: usize) -> (kept: (usize, bool))
        ensures
            kept.0 <= self.max_samples,
            kept.0 == if collected >= self.max_samples {
                self.max_samples
            } else {
                collected
            },
            kept.1 == (collected >= self.max_samples),
    {
        if collected >= self.max_samples {
            (self.max_samples, true)
        } else {
            (collected, false)
        }
    }

    /// How many of the collected samples make up whole frames. The rest of a
    /// torn frame at the end is dropped before the channels are mixed.
    pub fn whole_frames(&self, collected: usize) -> (kept: usize)
        requires
            self.channels > 0,
        ensures
            kept == collected - collected % self.channels,
            kept <= collected < kept + self.channels,
            kept % self.channels == 0,
    {
        proof {
            let n = collected as int;
            let c = self.channels as int;
            assert(0 <= n % c <= n && n % c < c && (n - n % c) % c == 0) by (nonlinear_arith)
                requires
                    n >= 0,
                    c > 0,
            ;
        }
        collected - collected % self.channels
    }

    /// Whether the decoded audio has to be brought to another rate.
    pub fn needs_resampling(&self, config: &Config) -> (needed: bool)
        ensures
            needed == (self.native_rate != config.sample_rate),
    {
        self.native_rate != config.sample_rate
    }
}

/// Samples that the resampler takes at a time.
pub const CHUNK_SIZE: usize = 1024;

/// How to feed samples through the resampler.
#[derive(Debug, Clone, Copy, PartialEq, Eq, Structural)]
pub struct ResamplePlan {
    /// Chunks to feed; all are full, the last one with the help of padding.
    pub chunks: usize,
    /// Silent samples that fill the last chunk up.
    pub padding: usize,
    /// Samples to keep of what comes out. What lies beyond is the echo of the
    /// padding, which must not reach the fingerprint.
    pub output_len: usize,
}

/// Plans the resampling of `len` samples from one rate to another. From a rate of
/// zero there is only nothing to resample.
pub fn resample(len: usize, from_rate: u32, to_rate: u32) -> (plan: ResamplePlan)
    requires
        from_rate > 0 || len == 0,
    ensures
        plan.chunks * CHUNK_SIZE == len + plan.padding,
        plan.padding < CHUNK_SIZE,
        plan.output_len == {
            let expected = if len == 0 {
                0
            } else {
                time::rounded(len * to_rate, from_rate as int)
            };
            if expected > usize::MAX {
                usize::MAX as int
            } else {
                expected
            }
        },
{
    if len == 0 {
        return ResamplePlan { chunks: 0, padding: 0, output_len: 0 };
    }
    let full: usize = len / CHUNK_SIZE;
    let left: usize = len % CHUNK_SIZE;
    let (chunks, padding) = if left == 0 {
        (full, 0usize)
    } else {
        (full + 1, CHUNK_SIZE - left)
    };
    proof {
        let l = len as int;
        let t = to_rate as int;
        assert(0 <= l * t <= 0x1_0000_0000_0000_0000_0000_0000) by (nonlinear_arith)
            requires
                0 <= l <= 0x1_0000_0000_0000_0000,
                0 <= t <= 0x1_0000_0000,
        ;
    }
    let expected: i128 = time::round_div(
        (len as i128) * (to_rate as i128),
        from_rate as i128,
    );
    proof {
        let d = 2 * from_rate as int;
        let n = 2 * (len * to_rate) + from_rate as int;
        assert(n / d >= 0) by (nonlinear_arith)
            requires
                n >= 0,
                d > 0,
        ;
    }
    let output_len: usize = if expected > usize::MAX as i128 {
        usize::MAX
    } else {
        expected as usize
    };
    ResamplePlan { chunks, padding, output_len }
}

/// Only the head and the tail of a file are decoded: the intro window begins
/// with the file and is as long as configured; the credits window ends with
/// the file, lies within it and is no longer than configured.
pub proof fn law_windows_are_head_and_tail(total: i64, config: Config)
    requires
        total >= 0,
        config.credits_scan_ns >= 0,
    ensures
        region_bounds(RegionSpec::Intro, Some(total), config) == Some(
            (0int, config.intro_scan_ns as int),
        ),
        region_bounds(RegionSpec::Credits, Some(total), config) matches Some((start, end)) && {
            &&& end == total
            &&& 0 <= start <= end
            &&& end - start <= config.credits_scan_ns
        },
{
}

/// A file that is no longer than the credits window is decoded whole: the
/// budget of its credits window holds every frame of the track.
pub proof fn law_short_file_is_decoded_whole(track: TrackInfo, n: u64, config: Config)
    requires
        track.n_frames == Some(n),
        1 <= track_rate(track) <= 1_000_000_000,
        n * 1_000_000_000 + track_rate(track) - 1 <= i64::MAX * track_rate(track),
        frames_duration(n as int, track_rate(track)) <= config.credits_scan_ns,
    ensures
        region_bounds(RegionSpec::Credits, track_duration(track), config) == Some(
            (0int, frames_duration(n as int, track_rate(track))),
        ),
        sample_budget(
            0,
            frames_duration(n as int, track_rate(track)),
            track_rate(track),
            track_channels(track),
        ) == if n * track_channels(track) > usize::MAX {
            usize::MAX as int
        } else {
            n * track_channels(track)
        },
{
    let rate = track_rate(track);
    let frames = n as int;
    let total = (frames * 1_000_000_000 + rate - 1) / rate;
    assert(frames * 1_000_000_000 <= total * rate <= frames * 1_000_000_000 + rate - 1)
        by (nonlinear_arith)
        requires
            rate >= 1,
            total == (frames * 1_000_000_000 + rate - 1) / rate,
    ;
    assert(0 <= total <= i64::MAX) by (nonlinear_arith)
        requires
            rate >= 1,
            frames >= 0,
            frames * 1_000_000_000 <= total * rate,
            total * rate <= i64::MAX * rate,
    ;
    assert(total * rate / 1_000_000_000 == frames);
    if total == 0 {
        assert(0 * rate == 0);
        assert(0 * track_channels(track) == 0);
    }
}

/// Where the audio of a region comes from.
#[derive(Debug, Clone, Copy, PartialEq, Eq, Structural)]
pub enum DecodeRoute {
    /// The built-in decoders have delivered it.
    Builtin,
    /// `ffmpeg` decodes it, from one point in time to another.
    Tool { start_ns: i64, end_ns: i64 },
    /// Nowhere: `ffmpeg` would be needed, and is not installed.
    NoTool,
    /// Nowhere: the tail of a file of unknown length was asked for.
    UnknownDuration,
}

/// The route to the audio of a region: what the built-in decoders could not
/// handle goes to `ffmpeg`, where it is installed and the region has bounds.
pub open spec fn route_of(
    decoded: bool,
    available: bool,
    total_duration_ns: Option<i64>,
    spec: RegionSpec,
    config: Config,
) -> DecodeRoute {
    if decoded {
        DecodeRoute::Builtin
    } else if !available {
        DecodeRoute::NoTool
    } else {
        match region_bounds(spec, total_duration_ns, config) {
            Some((start, end)) => DecodeRoute::Tool { start_ns: start as i64, end_ns: end as i64 },
            None => DecodeRoute::UnknownDuration,
        }
    }
}

/// Decides where the audio of a region comes from, once the built-in decoders
/// have been tried: whether they have decoded it, whether `ffmpeg` is
/// available, and the length of the file as far as `ffprobe` knows it.
pub fn after_builtin(
    decoded: bool,
    available: bool,
    total_duration_ns: Option<i64>,
    spec: RegionSpec,
    config: &Config,
) -> (route: DecodeRoute)
    ensures
        route == route_of(decoded, available, total_duration_ns, spec, *config),
        match route {
            DecodeRoute::Builtin => decoded,
            DecodeRoute::Tool { start_ns, end_ns } => {
                &&& !decoded
                &&& available
                &&& region_bounds(spec, total_duration_ns, *config) == Some(
                    (start_ns as int, end_ns as int),
                )
            },
            DecodeRoute::NoTool => !decoded && !available,
            DecodeRoute::UnknownDuration => {
                &&& !decoded
                &&& available
                &&& spec == RegionSpec::Credits
                &&& total_duration_ns is None
            },
        },
{
    if decoded {
        return DecodeRoute::Builtin;
    }
    if !available {
        return DecodeRoute::NoTool;
    }
    match region_window(spec, total_duration_ns, config) {
        Some((start_ns, end_ns)) => DecodeRoute::Tool { start_ns, end_ns },
        None => DecodeRoute::UnknownDuration,
    }
}

/// The credits window is the last part of a file: it ends with the file and is
/// as long as configured, or begins with the file where that is shorter. A region
/// between two points in time is that region.
pub proof fn law_regions_are_where_they_are_asked_for(
    total: i64,
    config: Config,
    start_ns: i64,
    end_ns: i64,
    length: Option<i64>,
)
    requires
        total >= 0,
        config.credits_scan_ns >= 0,
    ensures
        config.credits_scan_ns < total ==> region_bounds(
            RegionSpec::Credits,
            Some(total),
            config,
        ) == Some((total - config.credits_scan_ns, total as int)),
        config.credits_scan_ns >= total ==> region_bounds(
            RegionSpec::Credits,
            Some(total),
            config,
        ) == Some((0int, total as int)),
        region_bounds(RegionSpec::Credits, None, config) is None,
        region_bounds(RegionSpec::Intro, length, config) == Some(
            (0int, config.intro_scan_ns as int),
        ),
        region_bounds(RegionSpec::Absolute { start_ns, end_ns }, length, config) == Some(
            (start_ns as int, end_ns as int),
        ),
{
}

/// The budget of a region is what it holds: the whole frames that fit between its
/// ends, with a sample for every channel. A region that ends before it begins
/// holds nothing.
pub proof fn law_budget_is_what_the_region_holds(
    start: int,
    end: int,
    rate: int,
    channels: int,
    frames: int,
)
    requires
        rate >= 0,
        channels >= 0,
        start < end ==> frames * 1_000_000_000 <= (end - start) * rate < (frames + 1)
            * 1_000_000_000,
        end <= start ==> frames == 0,
        frames * channels <= usize::MAX,
    ensures
        sample_budget(start, end, rate, channels) == frames * channels,
{
    if start < end {
        let x = (end - start) * rate;
        assert(x / 1_000_000_000 == frames);
    } else {
        assert(0 * channels == 0);
    }
}

/// A track is as long as its frames last, to the nanosecond after the last one.
pub proof fn law_track_lasts_as_long_as_its_frames(track: TrackInfo, n: u64)
    requires
        track.n_frames == Some(n),
        track_rate(track) > 0,
        n * 1_000_000_000 + track_rate(track) - 1 <= i64::MAX * track_rate(track),
    ensures
        track_duration(track) matches Some(d) && (d - 1) * track_rate(track) < n * 1_000_000_000
            <= d * track_rate(track),
        track.sample_rate is None ==> track_rate(track) == 44_100,
        track.sample_rate matches Some(rate) ==> track_rate(track) == rate,
        track.channels is None ==> track_channels(track) == 2,
        track.channels matches Some(channels) ==> track_channels(track) == channels,
{
    let rate = track_rate(track);
    let x = n * 1_000_000_000 + rate - 1;
    let d = x / rate;
    assert(d * rate <= x < d * rate + rate) by (nonlinear_arith)
        requires
            rate > 0,
            d == x / rate,
    ;
    assert(0 <= d <= i64::MAX) by (nonlinear_arith)
        requires
            rate > 0,
            x >= 0,
            d * rate <= x < d * rate + rate,
            x <= i64::MAX * rate,
    ;
    assert((d - 1) * rate == d * rate - rate) by (nonlinear_arith);
}

/// What is decoded is the first track that has a codec, at its own rate, between
/// the bounds of the region.
pub proof fn law_first_track_is_decoded(
    plan: DecodePlan,
    tracks: Seq<TrackInfo>,
    i: int,
    spec: RegionSpec,
    config: Config,
)
    requires
        is_planned(Ok(plan), tracks, spec, config),
        0 <= i < tracks.len(),
        tracks[i].has_codec,
        forall|j: int| 0 <= j < i ==> !(#[trigger] tracks[j]).has_codec,
    ensures
        plan.track_id == tracks[i].id,
        plan.native_rate == (match tracks[i].sample_rate {
            Some(rate) => rate,
            None => 44_100u32,
        }),
        plan.channels == (match tracks[i].channels {
            Some(channels) => channels,
            None => 2usize,
        }),
        plan.total_duration_ns == track_duration(tracks[i]),
        region_bounds(spec, track_duration(tracks[i]), config) == Some(
            (plan.start_ns as int, plan.end_ns as int),
        ),
        plan.max_samples == sample_budget(
            plan.start_ns as int,
            plan.end_ns as int,
            plan.native_rate as int,
            plan.channels as int,
        ),
{
    let k = choose|k: int| #[trigger]
        is_first_audio(tracks, k) && {
            let bounds = region_bounds(spec, track_duration(tracks[k]), config);
            bounds is Some && plan == track_plan(tracks[k], bounds->0)
        };
    if k < i {
        assert(!tracks[k].has_codec);
    }
    if i < k {
        assert(!tracks[i].has_codec);
    }
    let bounds = region_bounds(spec, track_duration(tracks[k]), config)->0;
    let frames = if bounds.1 <= bounds.0 {
        0
    } else {
        (bounds.1 - bounds.0) * track_rate(tracks[k]) / 1_000_000_000
    };
    let channels = track_channels(tracks[k]);
    assert(frames >= 0) by {
        if bounds.1 > bounds.0 {
            let (a, b) = (bounds.1 - bounds.0, track_rate(tracks[k]));
            assert(a * b >= 0) by (nonlinear_arith)
                requires
                    a >= 0,
                    b >= 0,
            ;
        }
    }
    assert(frames * channels >= 0) by (nonlinear_arith)
        requires
            frames >= 0,
            channels >= 0,
    ;
}

/// Nothing is decoded of a file in which no track has a codec, nor of the tail of
/// a file whose length is not known; everything else is.
pub proof fn law_what_cannot_be_decoded(
    plan: Result<DecodePlan, DecodeError>,
    tracks: Seq<TrackInfo>,
    i: int,
    spec: RegionSpec,
    config: Config,
)
    requires
        is_planned(plan, tracks, spec, config),
        0 <= i < tracks.len(),
        tracks[i].has_codec,
        forall|j: int| 0 <= j < i ==> !(#[trigger] tracks[j]).has_codec,
    ensures
        plan is Err <==> spec == RegionSpec::Credits && (tracks[i].n_frames is None
            || tracks[i].sample_rate == Some(0u32)),
        plan is Err ==> plan == Err::<DecodePlan, DecodeError>(DecodeError::UnknownDuration),
{
    match plan {
        Ok(p) => {
            law_first_track_is_decoded(p, tracks, i, spec, config);
        },
        Err(DecodeError::NoAudioTrack) => {
            assert(!tracks[i].has_codec);
        },
        Err(DecodeError::UnknownDuration) => {
            let k = choose|k: int| #[trigger]
                is_first_audio(tracks, k) && track_duration(tracks[k]) is None;
            if k < i {
                assert(!tracks[k].has_codec);
            }
            if i < k {
                assert(!tracks[i].has_codec);
            }
        },
    }
}

} // verus!
