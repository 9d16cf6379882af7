//! Black-frame detection for credits that share no audio.
//!
//! Where each episode scores its credits differently there is nothing for the
//! fingerprints to find, but the transition into the credits roll is usually a
//! long fade to black. A video tool scans the tail of the file and logs the
//! black stretches it sees; the longest one that counts marks where the credits
//! start.

pub mod log;

pub use log::parse_blackdetect;

use vstd::prelude::*;
use vstd::string::StringExecFns;

use crate::audio::ffmpeg::{self, CommandLine};
use crate::{decimal, text, time};

verus! {

/// One black stretch of the video.
#[derive(Debug, Clone, Copy, PartialEq, Eq, Structural)]
pub struct BlackSegment {
    pub start_ns: i64,
    pub end_ns: i64,
    pub duration_ns: i64,
}

/// Settings of one scan.
#[derive(Debug, Clone)]
pub struct ScanOptions {
    /// How far from the end of the file to scan.
    pub scan_ns: i64,
    /// Shortest black stretch for the tool to log.
    pub min_black_ns: i64,
    /// Luma threshold below which a pixel counts as black, in billionths.
    pub pix_threshold_billionths: i64,
    /// Frames per second to sample, in billionths.
    pub sample_fps_billionths: i64,
    /// Hardware accelerator to name to the tool; `None` decodes in software.
    pub hwaccel: Option<String>,
    /// Wall-clock deadline of the scan, in seconds.
    pub timeout_seconds: u64,
}

/// What the tool was seen to do.
#[derive(Debug, Clone)]
pub enum ScanOutcome {
    /// The tool is not installed.
    Unavailable,
    /// The tool could not be started or watched.
    Broken { reason: String },
    /// The tool ran past its deadline and was killed.
    TimedOut,
    /// The tool ended by itself, with this log.
    Exited { success: bool, status: String, log: String },
}

/// Why a scan gave no segments.
#[derive(Debug, Clone)]
pub enum ScanError {
    /// The tool is not installed.
    Unavailable,
    /// The tool could not be started or watched.
    Broken { reason: String },
    /// The tool was killed at its deadline.
    TimedOut { seconds: u64 },
    /// The tool failed; `line` is the last line of its log.
    Failed { status: String, line: String },
}

/// Segment `i` is the one that marks the credits: long enough to count, no
/// other that counts is longer, and none after it is as long.
pub open spec fn marks_credits(segments: Seq<BlackSegment>, min_ns: int, i: int) -> bool {
    &&& 0 <= i < segments.len()
    &&& segments[i].duration_ns >= min_ns
    &&& forall|j: int|
        0 <= j < segments.len() ==> (#[trigger] segments[j]).duration_ns <= segments[i].duration_ns
    &&& forall|j: int|
        i < j < segments.len() ==> (#[trigger] segments[j]).duration_ns < segments[i].duration_ns
}

/// Where the credits start: at the longest black stretch that is at least
/// `min_ns` long, the last of these where several are equally long.
pub open spec fn credits_start(segments: Seq<BlackSegment>, min_ns: int) -> Option<i64> {
    if exists|i: int| marks_credits(segments, min_ns, i) {
        Some(segments[choose|i: int| marks_credits(segments, min_ns, i)].start_ns)
    } else {
        None
    }
}

/// The segment that marks the credits is unique.
proof fn lemma_mark_is_unique(segments: Seq<BlackSegment>, min_ns: int, i: int, j: int)
    requires
        marks_credits(segments, min_ns, i),
        marks_credits(segments, min_ns, j),
    ensures
        i == j,
{
}

/// Picks the start of the credits from the black stretches of a tail scan.
///
/// The credits roll opens with the longest fade to black of the scan, typically
/// several seconds of dark frames before the text fades in. `None` where no
/// stretch is at least `min_significant_ns` long.
pub fn pick_credits_start(segments: &[BlackSegment], min_significant_ns: i64) -> (start: Option<
    i64,
>)
    ensures
        start == credits_start(segments@, min_significant_ns as int),
        start is None <==> forall|i: int|
            0 <= i < segments@.len() ==> (#[trigger] segments@[i]).duration_ns < min_significant_ns,
        start matches Some(t) ==> exists|i: int|
            0 <= i < segments@.len() && (#[trigger] segments@[i]).start_ns == t
                && segments@[i].duration_ns >= min_significant_ns && forall|j: int|
                0 <= j < segments@.len() ==> (#[trigger] segments@[j]).duration_ns
                    <= segments@[i].duration_ns,
{
    let mut best: Option<usize> = None;
    let mut i: usize = 0;
    while i < segments.len()
        invariant
            i <= segments@.len(),
            match best {
                Some(b) => {
                    &&& b < i
                    &&& segments@[b as int].duration_ns >= min_significant_ns
                    &&& forall|j: int|
                        0 <= j < i ==> (#[trigger] segments@[j]).duration_ns
                            <= segments@[b as int].duration_ns
                    &&& forall|j: int|
                        b < j < i ==> (#[trigger] segments@[j]).duration_ns
                            < segments@[b as int].duration_ns
                },
                None => forall|j: int|
                    0 <= j < i ==> (#[trigger] segments@[j]).duration_ns < min_significant_ns,
            },
        decreases segments@.len() - i,
    {
        let duration: i64 = segments[i].duration_ns;
        if duration >= min_significant_ns {
            match best {
                Some(b) => {
                    if segments[b].duration_ns <= duration {
                        best = Some(i);
                    }
                },
                None => {
                    best = Some(i);
                },
            }
        }
        i = i + 1;
    }
    match best {
        Some(b) => {
            proof {
                assert(marks_credits(segments@, min_significant_ns as int, b as int));
                let c = choose|i: int| marks_credits(segments@, min_significant_ns as int, i);
                lemma_mark_is_unique(segments@, min_significant_ns as int, b as int, c);
                assert(segments@[b as int].start_ns == segments@[c].start_ns);
            }
            Some(segments[b].start_ns)
        },
        None => None,
    }
}

/// The credits start at the longest black stretch. Where stretch `i` is long
/// enough to count, no stretch is longer and none after it is as long, the
/// credits start with it.
pub proof fn law_longest_stretch_marks_the_credits(
    segments: Seq<BlackSegment>,
    min_ns: i64,
    i: int,
)
    requires
        0 <= i < segments.len(),
        segments[i].duration_ns >= min_ns,
        forall|j: int|
            0 <= j < segments.len() ==> (#[trigger] segments[j]).duration_ns
                <= segments[i].duration_ns,
        forall|j: int|
            i < j < segments.len() ==> (#[trigger] segments[j]).duration_ns
                < segments[i].duration_ns,
    ensures
        credits_start(segments, min_ns as int) == Some(segments[i].start_ns),
{
    assert(marks_credits(segments, min_ns as int, i));
    let c = choose|c: int| marks_credits(segments, min_ns as int, c);
    lemma_mark_is_unique(segments, min_ns as int, i, c);
}

/// What is reported as the start of the credits is the start of a stretch that
/// is long enough and than which none is longer; there is none only where every
/// stretch is too short.
pub proof fn law_credits_start_with_a_longest_stretch(segments: Seq<BlackSegment>, min_ns: i64)
    ensures
        match credits_start(segments, min_ns as int) {
            Some(t) => exists|i: int|
                0 <= i < segments.len() && (#[trigger] segments[i]).start_ns == t
                    && segments[i].duration_ns >= min_ns && forall|j: int|
                    0 <= j < segments.len() ==> (#[trigger] segments[j]).duration_ns
                        <= segments[i].duration_ns,
            None => forall|i: int|
                0 <= i < segments.len() ==> (#[trigger] segments[i]).duration_ns < min_ns,
        },
{
    if credits_start(segments, min_ns as int) is Some {
        let c = choose|c: int| marks_credits(segments, min_ns as int, c);
        assert(marks_credits(segments, min_ns as int, c));
        assert(segments[c].start_ns == credits_start(segments, min_ns as int)->0);
    } else if segments.len() > 0 {
        let c = lemma_longest_exists(segments, segments.len() as int);
        if segments[c].duration_ns >= min_ns {
            assert(marks_credits(segments, min_ns as int, c));
        }
    }
}

/// The last of the longest among the first `n` stretches.
proof fn lemma_longest_exists(segments: Seq<BlackSegment>, n: int) -> (c: int)
    requires
        0 < n <= segments.len(),
    ensures
        0 <= c < n,
        forall|j: int|
            0 <= j < n ==> (#[trigger] segments[j]).duration_ns <= segments[c].duration_ns,
        forall|j: int|
            c < j < n ==> (#[trigger] segments[j]).duration_ns < segments[c].duration_ns,
    decreases n,
{
    if n == 1 {
        0
    } else {
        let c = lemma_longest_exists(segments, n - 1);
        if segments[n - 1].duration_ns >= segments[c].duration_ns {
            n - 1
        } else {
            c
        }
    }
}

/// A scan covers the last `scan_ns` of a file, or all of it where it is shorter.
pub proof fn law_scan_covers_the_tail(total_duration_ns: i64, scan_ns: i64)
    requires
        0 <= total_duration_ns,
        0 <= scan_ns,
    ensures
        scan_ns < total_duration_ns ==> tail_start(total_duration_ns as int, scan_ns as int)
            + scan_ns == total_duration_ns,
        scan_ns >= total_duration_ns ==> tail_start(total_duration_ns as int, scan_ns as int) == 0,
{
}

/// Where a scan of the tail begins: `scan_ns` before the end, but not before
/// the start of the file.
pub open spec fn tail_start(total_duration_ns: int, scan_ns: int) -> int {
    if total_duration_ns - scan_ns <= 0 {
        0
    } else {
        time::clamped(total_duration_ns - scan_ns)
    }
}

/// Computes [`tail_start`].
pub fn scan_start(total_duration_ns: i64, scan_ns: i64) -> (start_ns: i64)
    ensures
        start_ns == tail_start(total_duration_ns as int, scan_ns as int),
{
    let start: i128 = total_duration_ns as i128 - scan_ns as i128;
    if start <= 0 {
        0
    } else {
        time::clamp(start)
    }
}

/// The filter chain of a scan: sample a few frames per second, scale them down
/// hard, and log the black stretches. Credits transitions are seconds long, so
/// little is lost.
pub open spec fn filter_text(options: ScanOptions) -> Seq<char> {
    "fps="@ + decimal::seconds_text(options.sample_fps_billionths as int)
        + ",scale=160:90,blackdetect=d="@ + decimal::seconds_text(options.min_black_ns as int)
        + ":pix_th="@ + decimal::seconds_text(options.pix_threshold_billionths as int)
}

/// The arguments of a scan that come before the path. An accelerator has to be
/// named before the input.
pub open spec fn scan_words(options: ScanOptions, start: int) -> Seq<Seq<char>> {
    let accelerator = match options.hwaccel {
        Some(name) => seq!["-hwaccel"@, name@],
        None => Seq::empty(),
    };
    seq!["-nostdin"@, "-loglevel"@, "info"@] + accelerator + seq![
        "-ss"@,
        decimal::seconds_text(start),
        "-i"@,
    ]
}

/// The arguments of a scan that come after the path.
pub open spec fn scan_filter_words(options: ScanOptions) -> Seq<Seq<char>> {
    seq!["-vf"@, filter_text(options), "-an"@, "-sn"@, "-f"@, "null"@, "-"@]
}

/// The command line of the tool for a scan of the tail of a file.
pub fn scan_command(total_duration_ns: i64, options: &ScanOptions) -> (command: CommandLine)
    ensures
        ffmpeg::words(command.before_path@) == scan_words(
            *options,
            tail_start(total_duration_ns as int, options.scan_ns as int),
        ),
        ffmpeg::words(command.after_path@) == scan_filter_words(*options),
{
    let start: i64 = scan_start(total_duration_ns, options.scan_ns);
    let mut before: Vec<String> = Vec::new();
    ffmpeg::push_word(&mut before, "-nostdin");
    ffmpeg::push_word(&mut before, "-loglevel");
    ffmpeg::push_word(&mut before, "info");
    match &options.hwaccel {
        Some(name) => {
            ffmpeg::push_word(&mut before, "-hwaccel");
            ffmpeg::push_word(&mut before, name.as_str());
        },
        None => {},
    }
    ffmpeg::push_word(&mut before, "-ss");
    ffmpeg::push_built(&mut before, ffmpeg::seconds_word(start));
    ffmpeg::push_word(&mut before, "-i");
    let mut filter: String = String::new();
    filter.append("fps=");
    decimal::push_seconds(&mut filter, options.sample_fps_billionths);
    filter.append(",scale=160:90,blackdetect=d=");
    decimal::push_seconds(&mut filter, options.min_black_ns);
    filter.append(":pix_th=");
    decimal::push_seconds(&mut filter, options.pix_threshold_billionths);
    assert(filter@ =~= filter_text(*options));
    let mut after: Vec<String> = Vec::new();
    ffmpeg::push_word(&mut after, "-vf");
    ffmpeg::push_built(&mut after, filter);
    ffmpeg::push_word(&mut after, "-an");
    ffmpeg::push_word(&mut after, "-sn");
    ffmpeg::push_word(&mut after, "-f");
    ffmpeg::push_word(&mut after, "null");
    ffmpeg::push_word(&mut after, "-");
    proof {
        assert(ffmpeg::words(before@) =~= scan_words(
            *options,
            tail_start(total_duration_ns as int, options.scan_ns as int),
        ));
        assert(ffmpeg::words(after@) =~= scan_filter_words(*options));
    }
    CommandLine { before_path: before, after_path: after }
}

/// How long to wait between two looks at a running scan, in milliseconds.
pub const POLL_MILLIS: u64 = 50;

/// What to do next about a scan that was started.
#[derive(Debug, Clone, Copy, PartialEq, Eq, Structural)]
pub enum WatchStep {
    /// It ended: collect its log.
    Collect,
    /// It reached its deadline: kill it.
    Kill,
    /// Look again after this many milliseconds.
    Sleep { millis: u64 },
}

/// The watchdog of a scan. Some accelerators hang for minutes without a word;
/// at the deadline the tool is killed, so that one file cannot hold up the
/// others.
pub fn watch(exited: bool, elapsed_ns: u64, options: &ScanOptions) -> (step: WatchStep)
    ensures
        step == if exited {
            WatchStep::Collect
        } else if elapsed_ns >= options.timeout_seconds * 1_000_000_000 {
            WatchStep::Kill
        } else {
            WatchStep::Sleep { millis: POLL_MILLIS }
        },
{
    if exited {
        WatchStep::Collect
    } else if elapsed_ns as u128 >= options.timeout_seconds as u128 * 1_000_000_000 {
        WatchStep::Kill
    } else {
        WatchStep::Sleep { millis: POLL_MILLIS }
    }
}

/// The error that an outcome other than success stands for.
pub open spec fn reports(error: ScanError, outcome: ScanOutcome, options: ScanOptions) -> bool {
    match outcome {
        ScanOutcome::Unavailable => error is Unavailable,
        ScanOutcome::Broken { reason } => {
            error matches ScanError::Broken { reason: given } && given@ == reason@
        },
        ScanOutcome::TimedOut => {
            error matches ScanError::TimedOut { seconds } && seconds == options.timeout_seconds
        },
        ScanOutcome::Exited { success, status, log } => {
            error matches ScanError::Failed { status: given, line } && !success && given@ == status@
                && line@ == text::last_line(log@)
        },
    }
}

/// The tool ended by itself and reported success.
pub open spec fn succeeded(outcome: ScanOutcome) -> bool {
    outcome matches ScanOutcome::Exited { success, .. } && success
}

/// What a scan of the tail of a file found, given what the tool did.
///
/// The segments come in the order of the log, with times from the start of the
/// file rather than from the seek position.
pub fn scan_tail(total_duration_ns: i64, options: &ScanOptions, outcome: &ScanOutcome) -> (found:
    Result<Vec<BlackSegment>, ScanError>)
    ensures
        match found {
            Ok(segments) => succeeded(*outcome) && segments@ == log::log_segments(
                outcome->log@,
                tail_start(total_duration_ns as int, options.scan_ns as int),
            ),
            Err(error) => !succeeded(*outcome) && reports(error, *outcome, *options),
        },
{
    match outcome {
        ScanOutcome::Unavailable => Err(ScanError::Unavailable),
        ScanOutcome::Broken { reason } => Err(ScanError::Broken { reason: reason.clone() }),
        ScanOutcome::TimedOut => Err(ScanError::TimedOut { seconds: options.timeout_seconds }),
        ScanOutcome::Exited { success, status, log } => {
            if *success {
                Ok(log::parse_blackdetect(log.as_str(), scan_start(total_duration_ns, options.scan_ns)))
            } else {
                Err(
                    ScanError::Failed {
                        status: status.clone(),
                        line: text::final_line(&text::chars_of(log.as_str())),
                    },
                )
            }
        },
    }
}

/// A deadline in words. No time at all is counted in the smallest unit.
pub open spec fn deadline_text(seconds: u64) -> Seq<char> {
    if seconds == 0 {
        "0ns"@
    } else {
        decimal::decimal(seconds as nat) + "s"@
    }
}

impl ScanError {
    /// The text of the error.
    pub open spec fn spec_message(self) -> Seq<char> {
        match self {
            ScanError::Unavailable => "ffmpeg not found on PATH"@,
            ScanError::Broken { reason } => reason@,
            ScanError::TimedOut { seconds } => "ffmpeg blackdetect exceeded "@ + deadline_text(
                seconds,
            ) + " timeout; killed"@,
            ScanError::Failed { status, line } => "ffmpeg blackdetect exited with "@ + status@
                + ": "@ + line@,
        }
    }

    /// Describes the error.
    pub fn message(&self) -> (message: String)
        ensures
            message@ == self.spec_message(),
    {
        let mut message: String = String::new();
        match self {
            ScanError::Unavailable => message.append("ffmpeg not found on PATH"),
            ScanError::Broken { reason } => message.append(reason.as_str()),
            ScanError::TimedOut { seconds } => {
                message.append("ffmpeg blackdetect exceeded ");
                if *seconds == 0 {
                    message.append("0ns");
                } else {
                    decimal::push_decimal(&mut message, *seconds);
                    message.append("s");
                }
                message.append(" timeout; killed");
            },
            ScanError::Failed { status, line } => {
                message.append("ffmpeg blackdetect exited with ");
                message.append(status.as_str());
                message.append(": ");
                message.append(line.as_str());
            },
        }
        assert(message@ =~= self.spec_message());
        message
    }
}

/// The tool is told to begin where the scan does, to sample, scale down and log
/// as configured, and to name its accelerator, if there is one, before the input.
pub proof fn law_tool_is_told_the_settings(options: ScanOptions, start: int)
    ensures
        ({
            let words = scan_words(options, start);
            let n = words.len() as int;
            &&& words[n - 3] == "-ss"@
            &&& words[n - 2] == decimal::seconds_text(start)
            &&& words[n - 1] == "-i"@
            &&& options.hwaccel is None ==> n == 6
            &&& options.hwaccel matches Some(name) ==> n == 8 && words[3] == "-hwaccel"@
                && words[4] == name@
        }),
        scan_filter_words(options)[0] == "-vf"@,
        scan_filter_words(options)[1] == "fps="@ + decimal::seconds_text(
            options.sample_fps_billionths as int,
        ) + ",scale=160:90,blackdetect=d="@ + decimal::seconds_text(options.min_black_ns as int)
            + ":pix_th="@ + decimal::seconds_text(options.pix_threshold_billionths as int),
{
}

} // verus!
