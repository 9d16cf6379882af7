//! Times, decimals, strings and defaults.

use tacet::decimal::{parse_seconds, parse_u32, push_decimal, push_padded, push_seconds};
use tacet::text::{
    chars_of, final_line, find_first, find_last, same, split_lines, string_of, substring, trim,
};
use tacet::{default_source, Config, Ratio, Segment, SegmentSource};

fn seconds_text(ns: i64) -> String {
    let mut s = String::new();
    push_seconds(&mut s, ns);
    s
}

fn read_seconds(s: &str) -> Option<i64> {
    let chars = chars_of(s);
    parse_seconds(&chars, 0, chars.len())
}

#[test]
fn defaults_are_the_documented_ones() {
    let config = Config::default();
    assert_eq!(config.sample_rate, 16_000);
    assert_eq!((config.fft_size, config.hop_size, config.num_bands), (4096, 2048, 6));
    assert_eq!(config.intro_scan_ns, 18 * 60 * 1_000_000_000);
    assert_eq!(config.credits_scan_ns, 8 * 60 * 1_000_000_000);
    assert_eq!(config.min_segment_ns, 5_000_000_000);
    assert_eq!(config.min_credits_ns, 30_000_000_000);
    assert_eq!(config.max_credits_tail_gap_ns, 30_000_000_000);
    assert_eq!(config.match_threshold, Ratio { num: 8, den: 100 });
    assert_eq!((config.fan_out, config.max_target_delta), (5, 50));
    assert!(config.blackframe_fallback);
    assert_eq!(config.blackframe_hwaccel, None);
    assert_eq!(config.blackframe_timeout_seconds, 60);
    assert_eq!(default_source(), SegmentSource::AudioFingerprint);
}

#[test]
fn segments_convert_to_milliseconds() {
    let mut segment = Segment {
        start_ns: 2_345_999_999,
        end_ns: 63_800_000_000,
        confidence: Ratio { num: 1, den: 1 },
        source: SegmentSource::Blackframe,
    };
    assert_eq!((segment.start_ms(), segment.end_ms()), (2_345, 63_800));
    assert_eq!(segment.duration(), 61_454_000_001);
    segment.end_ns = -1_999_999;
    assert_eq!(segment.end_ms(), -1);
    assert_eq!(segment.duration(), 0);
    segment.start_ns = i64::MIN;
    segment.end_ns = i64::MAX;
    assert_eq!(segment.duration(), i64::MAX);
}

#[test]
fn ratios_compare_as_fractions() {
    let half = Ratio { num: 1, den: 2 };
    assert!(Ratio { num: 49, den: 100 }.below(&half));
    assert!(!Ratio { num: 50, den: 100 }.below(&half));
    assert!(Ratio { num: u64::MAX - 1, den: u64::MAX }.below(&Ratio { num: 1, den: 1 }));
}

#[test]
fn seconds_are_written_without_trailing_zeros() {
    assert_eq!(seconds_text(0), "0");
    assert_eq!(seconds_text(2_541_706_000_000), "2541.706");
    assert_eq!(seconds_text(50_000_000), "0.05");
    assert_eq!(seconds_text(1), "0.000000001");
    assert_eq!(seconds_text(-1_500_000_000), "-1.5");
    assert_eq!(seconds_text(i64::MIN), "-9223372036.854775808");
}

#[test]
fn seconds_read_back() {
    for ns in [0, 1, 10, 999_999_999, 1_000_000_000, 2_541_706_000_000, i64::MAX] {
        assert_eq!(read_seconds(&seconds_text(ns)), Some(ns));
    }
    assert_eq!(read_seconds("7."), Some(7_000_000_000));
    assert_eq!(read_seconds(".25"), Some(250_000_000));
    assert_eq!(read_seconds("007"), Some(7_000_000_000));
    assert_eq!(read_seconds("1.2345678919"), Some(1_234_567_891));
    assert_eq!(read_seconds("9223372037"), Some(i64::MAX));
    for bad in ["", ".", "1.2.3", "-1", "1e3", "x"] {
        assert_eq!(read_seconds(bad), None, "{bad}");
    }
}

#[test]
fn numbers_are_written_and_read() {
    let mut s = String::new();
    push_decimal(&mut s, u64::MAX);
    s.push(' ');
    push_padded(&mut s, 7);
    push_padded(&mut s, 10);
    push_padded(&mut s, u32::MAX);
    assert_eq!(s, "18446744073709551615 07104294967295");
    let read = |s: &str| parse_u32(&chars_of(s), 0, s.len());
    assert_eq!(read("4294967295"), Some(u32::MAX));
    assert_eq!(read("4294967296"), None);
    assert_eq!(read("+0012"), Some(12));
    for bad in ["", "+", "-0", "1 ", "++1"] {
        assert_eq!(read(bad), None, "{bad}");
    }
}

#[test]
fn strings_are_searched_by_character() {
    let hay = chars_of("äbcäbc");
    assert_eq!(find_first(&hay, &chars_of("bc")), Some(1));
    assert_eq!(find_last(&hay, &chars_of("bc")), Some(4));
    assert_eq!(find_first(&hay, &chars_of("x")), None);
    assert_eq!(find_last(&hay, &chars_of("cc")), None);
    assert_eq!(find_last(&hay, &[].to_vec()), Some(6));
    assert_eq!(string_of(&hay), "äbcäbc");
    assert_eq!(substring(&hay, 2, 4), "cä");
    assert!(same("mkv", "mkv") && !same("mkv", "mk") && !same("mkv", "mkw"));
}

#[test]
fn lines_split_as_in_the_standard_library() {
    for text in ["", "\n", "a", "a\n", "a\r\nb\n\nc\r", "\r\n\r", "x\n\r\ny"] {
        let ours: Vec<String> = split_lines(&chars_of(text)).iter().map(string_of).collect();
        let theirs: Vec<&str> = text.lines().collect();
        assert_eq!(ours, theirs, "{text:?}");
        let last = text.lines().last().unwrap_or("(no stderr)");
        assert_eq!(final_line(&chars_of(text)), last);
    }
}

#[test]
fn trimming_drops_all_white_space() {
    for text in ["", "  ", " a b ", "\u{3000}\u{85}x\u{2028}", "\u{200b}y\t"] {
        assert_eq!(string_of(&trim(text)), text.trim(), "{text:?}");
    }
}
