//! Black-frame scans.

use tacet::blackframe::{
    parse_blackdetect, pick_credits_start, scan_command, scan_start, scan_tail, watch, BlackSegment,
    ScanError, ScanOptions, ScanOutcome, WatchStep,
};

fn ns(seconds: f64) -> i64 {
    (seconds * 1e9).round() as i64
}

fn seconds(ns: i64) -> f64 {
    ns as f64 / 1e9
}

fn segment(start: f64, end: f64, duration: f64) -> BlackSegment {
    BlackSegment { start_ns: ns(start), end_ns: ns(end), duration_ns: ns(duration) }
}

fn options(hwaccel: Option<&str>) -> ScanOptions {
    ScanOptions {
        scan_ns: ns(180.0),
        min_black_ns: ns(3.0),
        pix_threshold_billionths: 100_000_000,
        sample_fps_billionths: 2_000_000_000,
        hwaccel: hwaccel.map(|h| h.to_string()),
        timeout_seconds: 60,
    }
}

fn exited(success: bool, log: &str) -> ScanOutcome {
    ScanOutcome::Exited { success, status: "exit status: 1".to_string(), log: log.to_string() }
}

#[test]
fn parse_handles_real_blackdetect_output() {
    let log = "\
frame= 2964 fps=1482 q=-0.0 size=N/A
[Parsed_blackdetect_0 @ 0x7f] black_start:134.031 black_end:135.074 black_duration:1.043
[Parsed_blackdetect_0 @ 0x7f] black_start:141.706 black_end:168.232 black_duration:26.526
";
    let out = parse_blackdetect(log, ns(2400.0));
    assert_eq!(out.len(), 2);
    assert!((seconds(out[0].start_ns) - 2534.031).abs() < 1e-3);
    assert!((seconds(out[1].duration_ns) - 26.526).abs() < 1e-3);
    assert!((seconds(out[1].start_ns) - 2541.706).abs() < 1e-3);
    assert_eq!(out[1], segment(2541.706, 2568.232, 26.526));
}

#[test]
fn lines_without_all_three_numbers_are_skipped() {
    let log = "black_start:1 black_end:2\r\n\
               black_start:x black_end:2 black_duration:1\n\
               black_start:1.2.3 black_end:2 black_duration:1\n\
               black_end:2 black_duration:1\n\
               noise black_start:5. black_end:.5 black_duration:7,";
    assert_eq!(parse_blackdetect(log, 0), vec![segment(5.0, 0.5, 7.0)]);
    assert!(parse_blackdetect("", 0).is_empty());
}

#[test]
fn numbers_out_of_range_are_held() {
    let log = "black_start:99999999999999999999 black_end:0.0000000019 black_duration:1";
    let out = parse_blackdetect(log, 5);
    assert_eq!(out[0].start_ns, i64::MAX);
    assert_eq!(out[0].end_ns, 6);
}

#[test]
fn pick_credits_start_returns_longest_above_threshold() {
    let segs = vec![
        segment(100.0, 101.0, 1.0),
        segment(200.0, 226.5, 26.5),
        segment(250.0, 252.0, 2.0),
    ];
    assert_eq!(pick_credits_start(&segs, ns(3.0)), Some(ns(200.0)));
    // None qualify when the threshold is too high.
    assert_eq!(pick_credits_start(&segs, ns(30.0)), None);
}

#[test]
fn pick_credits_start_ignores_short_segments() {
    let segs = vec![segment(100.0, 100.5, 0.5), segment(200.0, 200.5, 0.5)];
    assert_eq!(pick_credits_start(&segs, ns(3.0)), None);
}

#[test]
fn the_last_of_equally_long_segments_counts() {
    let segs = vec![segment(10.0, 14.0, 4.0), segment(20.0, 24.0, 4.0), segment(30.0, 33.0, 3.0)];
    assert_eq!(pick_credits_start(&segs, ns(3.0)), Some(ns(20.0)));
}

#[test]
fn scan_starts_inside_the_file() {
    assert_eq!(scan_start(ns(2541.706), ns(180.0)), ns(2361.706));
    assert_eq!(scan_start(ns(60.0), ns(180.0)), 0);
}

#[test]
fn scan_command_names_the_accelerator_before_the_input() {
    let command = scan_command(ns(2541.706), &options(Some("vaapi")));
    assert_eq!(
        command.before_path,
        ["-nostdin", "-loglevel", "info", "-hwaccel", "vaapi", "-ss", "2361.706", "-i"]
    );
    assert_eq!(
        command.after_path,
        [
            "-vf",
            "fps=2,scale=160:90,blackdetect=d=3:pix_th=0.1",
            "-an",
            "-sn",
            "-f",
            "null",
            "-"
        ]
    );
    let software = scan_command(ns(100.0), &options(None));
    assert_eq!(software.before_path, ["-nostdin", "-loglevel", "info", "-ss", "0", "-i"]);
}

#[test]
fn watchdog_kills_at_the_deadline() {
    let options = options(None);
    assert_eq!(watch(false, 0, &options), WatchStep::Sleep { millis: 50 });
    assert_eq!(watch(false, 59_999_999_999, &options), WatchStep::Sleep { millis: 50 });
    assert_eq!(watch(false, 60_000_000_000, &options), WatchStep::Kill);
    assert_eq!(watch(true, 60_000_000_000, &options), WatchStep::Collect);
}

#[test]
fn scan_reports_absolute_times() {
    let log = "black_start:10 black_end:16.5 black_duration:6.5\n";
    let found = scan_tail(ns(1000.0), &options(None), &exited(true, log)).unwrap();
    assert_eq!(found, vec![segment(830.0, 836.5, 6.5)]);
}

#[test]
fn failed_scans_say_why() {
    let opts = options(None);
    let message = |outcome: &ScanOutcome| scan_tail(0, &opts, outcome).unwrap_err().message();
    assert_eq!(message(&ScanOutcome::Unavailable), "ffmpeg not found on PATH");
    assert_eq!(message(&ScanOutcome::TimedOut), "ffmpeg blackdetect exceeded 60s timeout; killed");
    assert_eq!(
        ScanError::TimedOut { seconds: 0 }.message(),
        "ffmpeg blackdetect exceeded 0ns timeout; killed"
    );
    assert_eq!(
        message(&ScanOutcome::Broken { reason: "spawning".to_string() }),
        "spawning"
    );
    assert_eq!(
        message(&exited(false, "first\r\nNo such file\n")),
        "ffmpeg blackdetect exited with exit status: 1: No such file"
    );
    assert_eq!(
        message(&exited(false, "")),
        "ffmpeg blackdetect exited with exit status: 1: (no stderr)"
    );
    assert!(matches!(
        scan_tail(0, &opts, &ScanOutcome::TimedOut),
        Err(ScanError::TimedOut { seconds: 60 })
    ));
}
