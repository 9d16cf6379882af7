//! Decoding plans and the tools.

use tacet::audio::ffmpeg::{
    binary_exists, decoded_audio, duration_from, ffprobe_available, is_available, probe_duration,
    probed_duration, read_stream, ToolError, ToolProbes,
};
use tacet::audio::{
    after_builtin, decode_credits_region, decode_intro_region, decode_region, ffmpeg,
    find_audio_track, resample, DecodeError, DecodeRoute, PacketAction, PacketEvent, RegionSpec,
    TrackInfo,
};
use tacet::Config;

fn track(id: u32, has_codec: bool) -> TrackInfo {
    TrackInfo { id, has_codec, sample_rate: Some(48_000), channels: Some(2), n_frames: Some(48_000 * 1_000) }
}

const SECOND: i64 = 1_000_000_000;

#[test]
fn the_first_track_with_a_codec_is_decoded() {
    let tracks = [track(1, false), track(2, true), track(3, true)];
    assert_eq!(find_audio_track(&tracks), Some(1));
    let plan = decode_intro_region(&tracks, &Config::default()).unwrap();
    assert_eq!(plan.track_id, 2);
    assert_eq!((plan.start_ns, plan.end_ns), (0, 1080 * SECOND));
    assert_eq!(plan.total_duration_ns, Some(1_000 * SECOND));
    assert_eq!(plan.max_samples, 1080 * 48_000 * 2);
    assert_eq!(plan.seek_target(), None);
}

#[test]
fn credits_are_the_tail() {
    let plan = decode_credits_region(&[track(1, true)], &Config::default()).unwrap();
    assert_eq!((plan.start_ns, plan.end_ns), (520 * SECOND, 1_000 * SECOND));
    assert_eq!(plan.seek_target(), Some((520, 0)));
    let mut short = track(1, true);
    short.n_frames = Some(48_000 * 60);
    let plan = decode_credits_region(&[short], &Config::default()).unwrap();
    assert_eq!((plan.start_ns, plan.end_ns), (0, 60 * SECOND));
}

#[test]
fn planning_errors_say_why() {
    let config = Config::default();
    let none = decode_intro_region(&[track(1, false)], &config);
    assert_eq!(none, Err(DecodeError::NoAudioTrack));
    assert_eq!(none.unwrap_err().message(), "No audio track found");
    let mut endless = track(1, true);
    endless.n_frames = None;
    let unknown = decode_credits_region(&[endless], &config);
    assert_eq!(unknown, Err(DecodeError::UnknownDuration));
    assert_eq!(unknown.unwrap_err().message(), "Unknown duration; cannot scan credits");
    assert_eq!(decode_intro_region(&[endless], &config).unwrap().total_duration_ns, None);
}

#[test]
fn silent_headers_get_usual_values() {
    let bare = TrackInfo { id: 4, has_codec: true, sample_rate: None, channels: None, n_frames: None };
    let plan = decode_region(&[bare], &Config::default(), 1_500_000_000, 3 * SECOND).unwrap();
    assert_eq!((plan.native_rate, plan.channels), (44_100, 2));
    assert_eq!(plan.max_samples, 66_150 * 2);
    assert_eq!(plan.seek_target(), Some((1, 500_000_000)));
    let backwards = decode_region(&[bare], &Config::default(), 3 * SECOND, SECOND).unwrap();
    assert_eq!(backwards.max_samples, 0);
    let endless = decode_region(&[bare], &Config::default(), i64::MIN, i64::MAX).unwrap();
    assert_eq!(endless.max_samples, 813_501_413_650_591 * 2);
}

#[test]
fn packets_of_other_tracks_are_skipped() {
    let plan = decode_intro_region(&[track(7, true)], &Config::default()).unwrap();
    assert_eq!(plan.on_packet(PacketEvent::Packet { track_id: 7 }), PacketAction::Decode);
    assert_eq!(plan.on_packet(PacketEvent::Packet { track_id: 8 }), PacketAction::Skip);
    assert_eq!(plan.on_packet(PacketEvent::EndOfFile), PacketAction::Finish);
    assert_eq!(plan.on_packet(PacketEvent::Failed), PacketAction::Fail);
}

#[test]
fn collecting_stops_at_the_budget() {
    let plan = decode_region(&[track(7, true)], &Config::default(), 0, 1_000_000).unwrap();
    assert_eq!(plan.max_samples, 96);
    assert_eq!(plan.on_samples(95), (95, false));
    assert_eq!(plan.on_samples(96), (96, true));
    assert_eq!(plan.on_samples(4_096), (96, true));
    assert_eq!(plan.whole_frames(95), 94);
    assert_eq!(plan.whole_frames(96), 96);
    assert!(plan.needs_resampling(&Config::default()));
    assert!(!plan.needs_resampling(&Config { sample_rate: 48_000, ..Config::default() }));
}

#[test]
fn resampling_pads_the_last_chunk_and_trims_the_output() {
    let plan = resample(2_500, 48_000, 16_000);
    assert_eq!((plan.chunks, plan.padding, plan.output_len), (3, 572, 833));
    let plan = resample(2_048, 44_100, 16_000);
    assert_eq!((plan.chunks, plan.padding, plan.output_len), (2, 0, 743));
    let plan = resample(0, 44_100, 16_000);
    assert_eq!((plan.chunks, plan.padding, plan.output_len), (0, 0, 0));
    let plan = resample(0, 0, 16_000);
    assert_eq!((plan.chunks, plan.padding, plan.output_len), (0, 0, 0));
    // A half is rounded up.
    assert_eq!(resample(1, 2, 1).output_len, 1);
}

#[test]
fn binary_exists_detects_a_real_tool() {
    // A tool that is there ends with success when asked for its version.
    assert!(binary_exists(Some(true)));
}

#[test]
fn binary_exists_returns_false_for_nonsense() {
    // A tool that is not there cannot be started; one that fails is no use.
    assert!(!binary_exists(None));
    assert!(!binary_exists(Some(false)));
}

#[test]
fn tools_are_tried_once() {
    let mut probes = ToolProbes::new();
    assert!(is_available(&mut probes, Some(true)));
    assert!(is_available(&mut probes, None));
    assert!(!ffprobe_available(&mut probes, Some(false)));
    assert!(!ffprobe_available(&mut probes, Some(true)));
    assert_eq!(probes, ToolProbes { ffmpeg: Some(true), ffprobe: Some(false) });
}

#[test]
fn decoding_runs_are_told_what_to_write() {
    let config = Config::default();
    let command = ffmpeg::decode_region(true, &config, 1_500_000_000, Some(4 * SECOND)).unwrap();
    assert_eq!(
        command.before_path,
        ["-nostdin", "-loglevel", "error", "-ss", "1.5", "-t", "2.5", "-i"]
    );
    assert_eq!(
        command.after_path,
        ["-vn", "-map", "a:0", "-ac", "1", "-ar", "16000", "-f", "f32le", "pipe:1"]
    );
    let whole = ffmpeg::decode_region(true, &config, 0, None).unwrap();
    assert_eq!(whole.before_path, ["-nostdin", "-loglevel", "error", "-ss", "0", "-i"]);
    let empty = ffmpeg::decode_region(true, &config, 5 * SECOND, Some(SECOND)).unwrap();
    assert_eq!(empty.before_path[6], "0");
    let missing = ffmpeg::decode_region(false, &config, 0, None).unwrap_err();
    assert_eq!(missing.message(), "ffmpeg not found on PATH");
}

#[test]
fn raw_samples_are_little_endian() {
    let mut bytes: Vec<u8> = Vec::new();
    for x in [0.25f32, -1.0, 3.5] {
        bytes.extend(x.to_le_bytes());
    }
    bytes.push(9);
    let config = Config::default();
    let total = Some(90 * SECOND);
    let audio = decoded_audio(true, "", "", &bytes, 7 * SECOND, total, &config).unwrap();
    assert_eq!(audio.samples, read_stream(&bytes));
    let values: Vec<f32> = audio.samples.into_iter().map(f32::from_bits).collect();
    assert_eq!(values, vec![0.25, -1.0, 3.5]);
    assert_eq!(audio.sample_rate, 16_000);
    assert_eq!(audio.offset_ns, 7 * SECOND);
    assert_eq!(audio.total_duration_ns, total);
    let log = "a\n  b: broken \n\n \t";
    let failed = decoded_audio(false, "exit status: 1", log, &bytes, 0, None, &config);
    assert_eq!(failed.unwrap_err().message(), "ffmpeg exited with exit status: 1:   b: broken");
    let silent = decoded_audio(false, "exit status: 1", " \n", &[], 0, None, &config);
    assert_eq!(silent.unwrap_err().message(), "ffmpeg exited with exit status: 1: (no stderr)");
}

#[test]
fn durations_are_probed() {
    let command = probe_duration(true).unwrap();
    assert_eq!(
        command.before_path,
        ["-v", "error", "-show_entries", "format=duration", "-of", "csv=p=0"]
    );
    assert!(command.after_path.is_empty());
    assert!(matches!(probe_duration(false), Err(ToolError::NoFfprobe)));
    assert_eq!(ToolError::NoFfprobe.message(), "ffprobe not found on PATH");
    assert_eq!(probed_duration(true, " 1420.5\u{a0}\r\n", "").unwrap(), "1420.5");
    let failed = probed_duration(false, "", "\nno such file\n").unwrap_err();
    assert_eq!(failed.message(), "ffprobe failed: no such file");
}

#[test]
fn probed_lengths_are_read() {
    assert_eq!(duration_from("1420.500000"), Some(1_420_500_000_000));
    assert_eq!(duration_from("+3"), Some(3 * SECOND));
    assert_eq!(duration_from("1e3"), Some(1_000 * SECOND));
    assert_eq!(duration_from("-1.5E+2"), Some(-150 * SECOND));
    assert_eq!(duration_from("12345.678e-2"), Some(123_456_780_000));
    assert_eq!(duration_from(".25e1"), Some(2_500_000_000));
    assert_eq!(duration_from("7.e0"), Some(7 * SECOND));
    assert_eq!(duration_from("19e-10"), Some(1));
    assert_eq!(duration_from("0e99999999999999999999999999999999999999999"), Some(0));
    assert_eq!(duration_from("1e99999999999999999999999999999999999999999"), Some(i64::MAX));
    assert_eq!(duration_from("-1e400"), Some(-i64::MAX));
    assert_eq!(duration_from("5e-99999999999999999999999999999999999999999"), Some(0));
    assert_eq!(duration_from("0.00000000000000000000001e25"), Some(100 * SECOND));
    assert_eq!(duration_from("-0.25"), Some(-250_000_000));
    assert_eq!(duration_from("0.0000000019"), Some(1));
    assert_eq!(duration_from("99999999999999999999"), Some(i64::MAX));
    for bad in ["N/A", "", "-", ".", "1.2.3", "--1", " 1", "e3", "1e", "1e+", ".e1", "1e2.5", "1e2e3"] {
        assert_eq!(duration_from(bad), None, "{bad:?}");
    }
}

#[test]
fn what_is_not_decoded_goes_to_the_tool() {
    let config = Config::default();
    let total = Some(1_000 * SECOND);
    let route = |decoded, available, total, spec| {
        after_builtin(decoded, available, total, spec, &config)
    };
    assert_eq!(route(true, false, None, RegionSpec::Credits), DecodeRoute::Builtin);
    assert_eq!(
        route(false, true, None, RegionSpec::Intro),
        DecodeRoute::Tool { start_ns: 0, end_ns: 1080 * SECOND }
    );
    assert_eq!(
        route(false, true, total, RegionSpec::Credits),
        DecodeRoute::Tool { start_ns: 520 * SECOND, end_ns: 1_000 * SECOND }
    );
    assert_eq!(
        route(false, true, None, RegionSpec::Absolute { start_ns: 5, end_ns: 9 }),
        DecodeRoute::Tool { start_ns: 5, end_ns: 9 }
    );
    assert_eq!(route(false, false, total, RegionSpec::Intro), DecodeRoute::NoTool);
    assert_eq!(route(false, true, None, RegionSpec::Credits), DecodeRoute::UnknownDuration);
}

#[test]
fn a_short_file_is_decoded_whole() {
    let mono = TrackInfo {
        id: 1,
        has_codec: true,
        sample_rate: Some(44_100),
        channels: Some(1),
        n_frames: Some(44_101),
    };
    let plan = decode_credits_region(&[mono], &Config::default()).unwrap();
    assert_eq!((plan.start_ns, plan.end_ns), (0, 1_000_022_676));
    assert_eq!(plan.max_samples, 44_101);
    let stereo = TrackInfo { channels: None, n_frames: Some(44_099), ..mono };
    let plan = decode_credits_region(&[stereo], &Config::default()).unwrap();
    assert_eq!(plan.max_samples, 44_099 * 2);
    let empty = TrackInfo { n_frames: Some(0), ..mono };
    let plan = decode_credits_region(&[empty], &Config::default()).unwrap();
    assert_eq!((plan.total_duration_ns, plan.max_samples), (Some(0), 0));
}

#[test]
fn a_track_without_a_rate_has_nothing_to_collect() {
    let mut still = track(3, true);
    still.sample_rate = Some(0);
    let config = Config::default();
    let plan = decode_intro_region(&[still], &config).unwrap();
    assert_eq!((plan.native_rate, plan.max_samples, plan.total_duration_ns), (0, 0, None));
    assert_eq!((plan.start_ns, plan.end_ns), (0, 1080 * SECOND));
    assert_eq!(plan.on_samples(500), (0, true));
    assert_eq!(decode_credits_region(&[still], &config), Err(DecodeError::UnknownDuration));
    assert_eq!(decode_region(&[still], &config, 5, 9).unwrap().max_samples, 0);
}
