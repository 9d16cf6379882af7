//! Driving the `ffmpeg` and `ffprobe` tools.
//!
//! `ffmpeg` decodes what the built-in decoders cannot handle: it is told to
//! write mono single-precision samples at the target rate to a pipe. The length
//! of a file is asked of `ffprobe`, which reads only the container's header.

use vstd::prelude::*;
use vstd::string::StringExecFns;

use crate::audio::{self, DecodeRoute, RegionSpec};
use crate::{decimal, scientific, text, Config};

verus! {

/// The arguments of a command line, around the path of the input file.
#[derive(Debug, Clone)]
pub struct CommandLine {
    /// Arguments that come before the path.
    pub before_path: Vec<String>,
    /// Arguments that come after the path.
    pub after_path: Vec<String>,
}

/// The characters of each argument.
pub open spec fn words(args: Seq<String>) -> Seq<Seq<char>> {
    args.map_values(|s: String| s@)
}

/// Appends one argument.
pub fn push_word(args: &mut Vec<String>, word: &str)
    ensures
        words(final(args)@) == words(old(args)@).push(word@),
{
    args.push(word.to_owned());
    assert(words(args@) =~= words(old(args)@).push(word@));
}

/// Appends an argument already built.
pub fn push_built(args: &mut Vec<String>, word: String)
    ensures
        words(final(args)@) == words(old(args)@).push(word@),
{
    args.push(word);
    assert(words(args@) =~= words(old(args)@).push(word@));
}

/// A time in decimal seconds, as a string.
pub fn seconds_word(ns: i64) -> (word: String)
    ensures
        word@ == decimal::seconds_text(ns as int),
{
    let mut word: String = String::new();
    decimal::push_seconds(&mut word, ns);
    assert(word@ =~= decimal::seconds_text(ns as int));
    word
}

/// Which tools were found, as far as it was tried.
#[derive(Debug, Clone, Copy, PartialEq, Eq, Structural)]
pub struct ToolProbes {
    /// Whether `ffmpeg` can be called.
    pub ffmpeg: Option<bool>,
    /// Whether `ffprobe` can be called.
    pub ffprobe: Option<bool>,
}

impl ToolProbes {
    /// Nothing was tried yet.
    pub fn new() -> (probes: ToolProbes)
        ensures
            probes.ffmpeg is None,
            probes.ffprobe is None,
    {
        ToolProbes { ffmpeg: None, ffprobe: None }
    }
}

/// Whether a tool exists, given how asking it for its version ended: with
/// success or not, or, where it could not be started, not at all.
pub fn binary_exists(exit: Option<bool>) -> (found: bool)
    ensures
        found == (exit == Some(true)),
{
    match exit {
        Some(success) => success,
        None => false,
    }
}

/// The first answer about a tool is the one that counts.
pub open spec fn remembered(known: Option<bool>, exit: Option<bool>) -> bool {
    match known {
        Some(answer) => answer,
        None => exit == Some(true),
    }
}

/// Whether `ffmpeg` can be called. It is tried once; `exit` is how that ended,
/// and is not looked at where the answer is known already.
pub fn is_available(probes: &mut ToolProbes, exit: Option<bool>) -> (available: bool)
    ensures
        available == remembered(old(probes).ffmpeg, exit),
        final(probes).ffmpeg == Some(available),
        final(probes).ffprobe == old(probes).ffprobe,
{
    let available: bool = match probes.ffmpeg {
        Some(answer) => answer,
        None => binary_exists(exit),
    };
    probes.ffmpeg = Some(available);
    available
}

/// Whether `ffprobe` can be called; see [`is_available`].
pub fn ffprobe_available(probes: &mut ToolProbes, exit: Option<bool>) -> (available: bool)
    ensures
        available == remembered(old(probes).ffprobe, exit),
        final(probes).ffprobe == Some(available),
        final(probes).ffmpeg == old(probes).ffmpeg,
{
    let available: bool = match probes.ffprobe {
        Some(answer) => answer,
        None => binary_exists(exit),
    };
    probes.ffprobe = Some(available);
    available
}

/// A tool that was found once stays found, and one that was missed stays
/// missed, whatever a later attempt would say.
pub proof fn law_first_probe_counts(known: Option<bool>, exit: Option<bool>, later: Option<bool>)
    ensures
        remembered(Some(remembered(known, exit)), later) == remembered(known, exit),
{
}

/// Why a tool gave no result.
#[derive(Debug, Clone)]
pub enum ToolError {
    /// `ffmpeg` is not installed.
    NoFfmpeg,
    /// `ffprobe` is not installed.
    NoFfprobe,
    /// `ffmpeg` failed; `line` is the last line that it wrote to its log.
    DecodeFailed { status: String, line: String },
    /// `ffprobe` failed, with this log.
    ProbeFailed { log: String },
}

impl ToolError {
    /// The text of the error.
    pub open spec fn spec_message(self) -> Seq<char> {
        match self {
            ToolError::NoFfmpeg => "ffmpeg not found on PATH"@,
            ToolError::NoFfprobe => "ffprobe not found on PATH"@,
            ToolError::DecodeFailed { status, line } => "ffmpeg exited with "@ + status@ + ": "@
                + line@,
            ToolError::ProbeFailed { log } => "ffprobe failed: "@ + log@,
        }
    }

    /// Describes the error.
    pub fn message(&self) -> (message: String)
        ensures
            message@ == self.spec_message(),
    {
        let mut message: String = String::new();
        match self {
            ToolError::NoFfmpeg => message.append("ffmpeg not found on PATH"),
            ToolError::NoFfprobe => message.append("ffprobe not found on PATH"),
            ToolError::DecodeFailed { status, line } => {
                message.append("ffmpeg exited with ");
                message.append(status.as_str());
                message.append(": ");
                message.append(line.as_str());
            },
            ToolError::ProbeFailed { log } => {
                message.append("ffprobe failed: ");
                message.append(log.as_str());
            },
        }
        assert(message@ =~= self.spec_message());
        message
    }
}

/// The length of a region, as an argument: not below zero.
pub open spec fn region_length(start: int, end: int) -> int {
    if end - start <= 0 {
        0
    } else {
        crate::time::clamped(end - start)
    }
}

/// The arguments of a decoding run that come before the path.
pub open spec fn decode_words(start: int, end: Option<i64>) -> Seq<Seq<char>> {
    let length = match end {
        Some(end) => seq!["-t"@, decimal::seconds_text(region_length(start, end as int))],
        None => Seq::empty(),
    };
    seq!["-nostdin"@, "-loglevel"@, "error"@, "-ss"@, decimal::seconds_text(start)] + length + seq![
        "-i"@,
    ]
}

/// The arguments of a decoding run that come after the path: the first audio
/// stream alone, mixed to one channel at the target rate, as raw samples on
/// standard output.
pub open spec fn decode_output_words(sample_rate: nat) -> Seq<Seq<char>> {
    seq![
        "-vn"@,
        "-map"@,
        "a:0"@,
        "-ac"@,
        "1"@,
        "-ar"@,
        decimal::decimal(sample_rate),
        "-f"@,
        "f32le"@,
        "pipe:1"@,
    ]
}

/// The command line that decodes a region of a file, to its end where
/// `end_ns` is `None`. There is none where the tool is missing.
pub fn decode_region(available: bool, config: &Config, start_ns: i64, end_ns: Option<i64>) -> (command:
    Result<CommandLine, ToolError>)
    ensures
        match command {
            Ok(c) => {
                &&& available
                &&& words(c.before_path@) == decode_words(start_ns as int, end_ns)
                &&& words(c.after_path@) == decode_output_words(config.sample_rate as nat)
            },
            Err(error) => !available && error is NoFfmpeg,
        },
{
    if !available {
        return Err(ToolError::NoFfmpeg);
    }
    let mut before: Vec<String> = Vec::new();
    push_word(&mut before, "-nostdin");
    push_word(&mut before, "-loglevel");
    push_word(&mut before, "error");
    push_word(&mut before, "-ss");
    push_built(&mut before, seconds_word(start_ns));
    match end_ns {
        Some(end) => {
            let length: i128 = end as i128 - start_ns as i128;
            let length: i64 = if length <= 0 {
                0
            } else {
                crate::time::clamp(length)
            };
            push_word(&mut before, "-t");
            push_built(&mut before, seconds_word(length));
        },
        None => {},
    }
    push_word(&mut before, "-i");
    let mut rate: String = String::new();
    decimal::push_decimal(&mut rate, config.sample_rate as u64);
    assert(rate@ =~= decimal::decimal(config.sample_rate as nat));
    let mut after: Vec<String> = Vec::new();
    push_word(&mut after, "-vn");
    push_word(&mut after, "-map");
    push_word(&mut after, "a:0");
    push_word(&mut after, "-ac");
    push_word(&mut after, "1");
    push_word(&mut after, "-ar");
    push_built(&mut after, rate);
    push_word(&mut after, "-f");
    push_word(&mut after, "f32le");
    push_word(&mut after, "pipe:1");
    proof {
        assert(words(before@) =~= decode_words(start_ns as int, end_ns));
        assert(words(after@) =~= decode_output_words(config.sample_rate as nat));
    }
    Ok(CommandLine { before_path: before, after_path: after })
}

/// The number that four bytes hold, the least significant first.
pub open spec fn little_endian(bytes: Seq<u8>, at: int) -> int {
    bytes[at] + 0x100 * bytes[at + 1] + 0x1_0000 * bytes[at + 2] + 0x100_0000 * bytes[at + 3]
}

/// The bit patterns of the samples in a raw stream; bytes left over at the end
/// are dropped.
pub open spec fn stream_samples(bytes: Seq<u8>) -> Seq<u32> {
    Seq::new(bytes.len() / 4, |i: int| little_endian(bytes, 4 * i) as u32)
}

/// The audio that a decoding run delivered.
#[derive(Debug, Clone)]
pub struct DecodedAudio {
    /// Bit patterns of the mono samples.
    pub samples: Vec<u32>,
    /// Sample rate of the audio, in hertz.
    pub sample_rate: u32,
    /// Where in the file the audio begins.
    pub offset_ns: i64,
    /// Length of the source file, if known.
    pub total_duration_ns: Option<i64>,
}

/// The audio that a decoding run from `start_ns` on delivers with these bytes.
pub open spec fn is_audio_of(
    audio: DecodedAudio,
    bytes: Seq<u8>,
    start_ns: i64,
    total_duration_ns: Option<i64>,
    config: Config,
) -> bool {
    &&& audio.samples@ == stream_samples(bytes)
    &&& audio.sample_rate == config.sample_rate
    &&& audio.offset_ns == start_ns
    &&& audio.total_duration_ns == total_duration_ns
}

/// Reads the samples of a raw stream.
pub fn read_stream(bytes: &[u8]) -> (samples: Vec<u32>)
    ensures
        samples@ == stream_samples(bytes@),
{
    let count: usize = bytes.len() / 4;
    let mut samples: Vec<u32> = Vec::new();
    let mut i: usize = 0;
    while i < count
        invariant
            i <= count == bytes@.len() / 4,
            bytes@.len() <= usize::MAX,
            samples@ == stream_samples(bytes@).take(i as int),
        decreases count - i,
    {
        let at: usize = 4 * i;
        let sample: u32 = bytes[at] as u32 + 0x100 * (bytes[at + 1] as u32) + 0x1_0000 * (bytes[at
            + 2] as u32) + 0x100_0000 * (bytes[at + 3] as u32);
        samples.push(sample);
        assert(stream_samples(bytes@)[i as int] == sample);
        assert(stream_samples(bytes@).take(i + 1) =~= stream_samples(bytes@).take(i as int).push(
            sample,
        ));
        i = i + 1;
    }
    assert(stream_samples(bytes@).take(i as int) =~= stream_samples(bytes@));
    samples
}

/// Takes the audio out of what a decoding run from `start_ns` on wrote.
pub fn decoded_audio(
    success: bool,
    status: &str,
    log: &str,
    bytes: &[u8],
    start_ns: i64,
    total_duration_ns: Option<i64>,
    config: &Config,
) -> (audio: Result<DecodedAudio, ToolError>)
    ensures
        match audio {
            Ok(a) => success && is_audio_of(a, bytes@, start_ns, total_duration_ns, *config),
            Err(error) => {
                &&& !success
                &&& error matches ToolError::DecodeFailed { status: given, line }
                &&& given@ == status@
                &&& line@ == text::last_line(text::trimmed(log@))
            },
        },
{
    if !success {
        return Err(
            ToolError::DecodeFailed {
                status: status.to_owned(),
                line: text::final_line(&text::trim(log)),
            },
        );
    }
    Ok(
        DecodedAudio {
            samples: read_stream(bytes),
            sample_rate: config.sample_rate,
            offset_ns: start_ns,
            total_duration_ns,
        },
    )
}

/// The intro window of a file that the built-in decoders cannot handle comes
/// from `ffmpeg`, whatever is known of the file's length: it is asked for the
/// configured time from the beginning of the file on, and what it delivers are
/// samples at the configured rate that begin with the file.
pub proof fn law_intro_falls_back(
    total_duration_ns: Option<i64>,
    config: Config,
    bytes: Seq<u8>,
    audio: DecodedAudio,
)
    requires
        is_audio_of(audio, bytes, 0, total_duration_ns, config),
    ensures
        audio::route_of(false, true, total_duration_ns, RegionSpec::Intro, config)
            == (DecodeRoute::Tool { start_ns: 0, end_ns: config.intro_scan_ns }),
        decode_words(0, Some(config.intro_scan_ns)) == seq![
            "-nostdin"@,
            "-loglevel"@,
            "error"@,
            "-ss"@,
            decimal::seconds_text(0),
            "-t"@,
            decimal::seconds_text(region_length(0, config.intro_scan_ns as int)),
            "-i"@,
        ],
        audio.samples@ == stream_samples(bytes),
        audio.sample_rate == config.sample_rate,
        audio.offset_ns == 0,
{
    assert(decode_words(0, Some(config.intro_scan_ns)) =~= seq![
        "-nostdin"@,
        "-loglevel"@,
        "error"@,
        "-ss"@,
        decimal::seconds_text(0),
        "-t"@,
        decimal::seconds_text(region_length(0, config.intro_scan_ns as int)),
        "-i"@,
    ]);
}

/// The command line that asks for the length of a file. There is none where
/// the tool is missing.
pub fn probe_duration(available: bool) -> (command: Result<CommandLine, ToolError>)
    ensures
        match command {
            Ok(c) => {
                &&& available
                &&& words(c.before_path@) == seq![
                    "-v"@,
                    "error"@,
                    "-show_entries"@,
                    "format=duration"@,
                    "-of"@,
                    "csv=p=0"@,
                ]
                &&& c.after_path@.len() == 0
            },
            Err(error) => !available && error is NoFfprobe,
        },
{
    if !available {
        return Err(ToolError::NoFfprobe);
    }
    let mut before: Vec<String> = Vec::new();
    push_word(&mut before, "-v");
    push_word(&mut before, "error");
    push_word(&mut before, "-show_entries");
    push_word(&mut before, "format=duration");
    push_word(&mut before, "-of");
    push_word(&mut before, "csv=p=0");
    assert(words(before@) =~= seq![
        "-v"@,
        "error"@,
        "-show_entries"@,
        "format=duration"@,
        "-of"@,
        "csv=p=0"@,
    ]);
    Ok(CommandLine { before_path: before, after_path: Vec::new() })
}

/// Takes the length of a file, still as text, out of what the tool wrote.
pub fn probed_duration(success: bool, output: &str, log: &str) -> (duration: Result<
    String,
    ToolError,
>)
    ensures
        match duration {
            Ok(d) => success && d@ == text::trimmed(output@),
            Err(error) => {
                &&& !success
                &&& error matches ToolError::ProbeFailed { log: given }
                &&& given@ == text::trimmed(log@)
            },
        },
{
    if success {
        Ok(text::string_of(&text::trim(output)))
    } else {
        Err(ToolError::ProbeFailed { log: text::string_of(&text::trim(log)) })
    }
}

/// What reading a length in seconds gives: a sign or none, and a number with or
/// without an exponent. The words for infinity and for what is no number, which
/// no time holds, give no length.
pub open spec fn signed_seconds(s: Seq<char>) -> Option<int> {
    if s.len() > 0 && s[0] == '-' {
        match scientific::scientific_seconds(s.skip(1)) {
            Some(ns) => Some(-ns),
            None => None,
        }
    } else if s.len() > 0 && s[0] == '+' {
        scientific::scientific_seconds(s.skip(1))
    } else {
        scientific::scientific_seconds(s)
    }
}

/// Reads the length of a file that the tool gave, in seconds. There is no length
/// where it gave no number, as for a stream without an end.
pub fn duration_from(text: &str) -> (ns: Option<i64>)
    ensures
        match ns {
            Some(t) => signed_seconds(text@) == Some(t as int),
            None => signed_seconds(text@) is None,
        },
{
    let chars: Vec<char> = text::chars_of(text);
    if chars.len() > 0 && (chars[0] == '-' || chars[0] == '+') {
        let magnitude: i64 = match scientific::parse_scientific(&chars, 1) {
            Some(magnitude) => magnitude,
            None => return None,
        };
        if chars[0] == '-' {
            Some(-magnitude)
        } else {
            Some(magnitude)
        }
    } else {
        assert(chars@.skip(0) =~= chars@);
        scientific::parse_scientific(&chars, 0)
    }
}

/// A raw stream holds a sample in every four bytes, the least significant first;
/// what is left over is dropped.
pub proof fn law_stream_holds_a_sample_in_four_bytes(bytes: Seq<u8>, i: int)
    requires
        0 <= i < stream_samples(bytes).len(),
    ensures
        ({
            let n = stream_samples(bytes).len() as int;
            4 * n <= bytes.len() < 4 * n + 4
        }),
        stream_samples(bytes)[i] == bytes[4 * i] + bytes[4 * i + 1] * 256 + bytes[4 * i + 2]
            * 65_536 + bytes[4 * i + 3] * 16_777_216,
{
}

/// A region is as long as the time from its start to its end, and never shorter
/// than nothing.
pub proof fn law_region_length_is_the_time_between(start: i64, end: i64)
    ensures
        start <= end && end - start <= i64::MAX ==> region_length(start as int, end as int) == end
            - start,
        end <= start ==> region_length(start as int, end as int) == 0,
{
}

/// The tool is told where to begin and, unless it is to go on to the end, how much
/// to decode.
pub proof fn law_tool_is_told_the_region(start: int, end: i64, sample_rate: nat)
    ensures
        ({
            let part = decode_words(start, Some(end));
            &&& part.len() == 8
            &&& part[3] == "-ss"@ && part[4] == decimal::seconds_text(start)
            &&& part[5] == "-t"@
            &&& start <= end && end - start <= i64::MAX ==> part[6] == decimal::seconds_text(
                end - start,
            )
            &&& end <= start ==> part[6] == decimal::seconds_text(0)
            &&& part[7] == "-i"@
        }),
        ({
            let all = decode_words(start, None);
            &&& all.len() == 6
            &&& all[3] == "-ss"@ && all[4] == decimal::seconds_text(start)
            &&& all[5] == "-i"@
        }),
        ({
            let output = decode_output_words(sample_rate);
            &&& output.len() == 10
            &&& output[3] == "-ac"@ && output[4] == "1"@
            &&& output[5] == "-ar"@ && output[6] == decimal::decimal(sample_rate)
        }),
{
}

/// A length with a sign is that length, before or after zero.
pub proof fn law_sign_is_read(s: Seq<char>)
    requires
        s.len() > 0 ==> s[0] != '-' && s[0] != '+',
    ensures
        signed_seconds(s) == scientific::scientific_seconds(s),
        signed_seconds(seq!['+'] + s) == scientific::scientific_seconds(s),
        match scientific::scientific_seconds(s) {
            Some(ns) => signed_seconds(seq!['-'] + s) == Some(-ns),
            None => signed_seconds(seq!['-'] + s) is None,
        },
{
    assert((seq!['+'] + s).skip(1) =~= s);
    assert((seq!['-'] + s).skip(1) =~= s);
}

} // verus!
