//! File names and output lines.

use tacet::cli::{csv_header, csv_row, discover_episodes, parse_episode_number, read_uint, MediaEntry};
use tacet::{Ratio, Segment, SegmentMarkers, SegmentSource};

fn entry(name: &str) -> MediaEntry {
    let (stem, extension) = match name.rsplit_once('.') {
        Some((stem, extension)) => (stem, Some(extension.to_string())),
        None => (name, None),
    };
    MediaEntry { name: name.as_bytes().to_vec(), stem: Some(stem.to_string()), extension }
}

#[test]
fn parse_episode_number_matches_common_formats() {
    assert_eq!(parse_episode_number("Golden Time - S01E07 - Masquerade", 1), Some(7));
    assert_eq!(parse_episode_number("show.s01e07.title", 1), Some(7));
    assert_eq!(parse_episode_number("Show - S2E12 - Foo", 2), Some(12));
}

#[test]
fn parse_episode_number_rejects_wrong_season() {
    // S02E01 must not match a Season 1 scan.
    assert_eq!(parse_episode_number("Show - S02E01 - Foo", 1), None);
}

#[test]
fn parse_episode_number_returns_none_for_no_match() {
    assert_eq!(parse_episode_number("random video clip", 1), None);
    assert_eq!(parse_episode_number("Episode 7 of something", 1), None);
}

#[test]
fn a_later_mark_of_the_season_counts() {
    assert_eq!(parse_episode_number("S02E01 aka s01E05", 1), Some(5));
    assert_eq!(parse_episode_number("S3 S1E9", 1), Some(9));
    assert_eq!(parse_episode_number("ÄS1Eé S1E4", 1), Some(4));
    assert_eq!(parse_episode_number("", 1), None);
    assert_eq!(parse_episode_number("S1E", 1), None);
}

#[test]
fn an_unreadable_number_gives_the_name_up() {
    assert_eq!(parse_episode_number("S99999999999 S01E02", 1), None);
    assert_eq!(parse_episode_number("S01E99999999999 S01E02", 1), None);
}

#[test]
fn read_uint_stops_at_the_first_other_character() {
    let chars: Vec<char> = "x4294967295y4294967296".chars().collect();
    assert_eq!(read_uint(&chars, 1), Some((4294967295, 11)));
    assert_eq!(read_uint(&chars, 0), None);
    assert_eq!(read_uint(&chars, 12), None);
    assert_eq!(read_uint(&chars, chars.len()), None);
    assert_eq!(read_uint(&chars, chars.len() + 5), None);
    assert_eq!(read_uint(&chars, usize::MAX), None);
}

#[test]
fn episodes_are_ordered_by_number_and_the_rest_by_name() {
    let entries = vec![
        entry("Show S01E10.mkv"),
        entry("extra b.mp4"),
        entry("notes.txt"),
        entry("Show S01E02.mkv"),
        entry("extra a.mp4"),
        entry("Show S01E02 copy.mkv"),
        entry("README"),
        entry("Show S01E03.MKV"),
    ];
    let found = discover_episodes(&entries, "show", 1);
    let paths: Vec<usize> = found.iter().map(|e| e.path).collect();
    assert_eq!(paths, vec![3, 5, 0, 4, 1]);
    let ids: Vec<&str> = found.iter().map(|e| e.id.as_str()).collect();
    assert_eq!(ids, ["show-s01e02", "show-s01e02", "show-s01e10", "show-s01e04", "show-s01e05"]);
    let numbers: Vec<u32> = found.iter().map(|e| e.episode_number).collect();
    assert_eq!(numbers, vec![2, 2, 10, 4, 5]);
}

#[test]
fn the_order_of_the_listing_does_not_matter() {
    let names = ["S01E03.mkv", "b.mkv", "S01E01.mkv", "a.mkv", "S01E02.mkv"];
    let sorted = ["S01E01.mkv", "S01E02.mkv", "S01E03.mkv", "a.mkv", "b.mkv"];
    for turn in 0..names.len() {
        let mut listing = names;
        listing.rotate_left(turn);
        let entries: Vec<MediaEntry> = listing.iter().map(|n| entry(n)).collect();
        let found = discover_episodes(&entries, "show", 1);
        let order: Vec<&str> = found.iter().map(|e| listing[e.path]).collect();
        assert_eq!(order, sorted);
        assert_eq!(found[4].id, "show-s01e05");
    }
}

#[test]
fn every_media_extension_is_found() {
    let names = ["mkv", "mp4", "avi", "m4v", "ts", "flac", "mp3", "ogg", "wav", "srt", "Mkv"];
    let entries: Vec<MediaEntry> = names.iter().map(|e| entry(&format!("file.{e}"))).collect();
    assert_eq!(discover_episodes(&entries, "x", 1).len(), 9);
    assert!(discover_episodes(&[], "x", 1).is_empty());
}

#[test]
fn files_with_names_that_are_no_text_come_last() {
    let odd = MediaEntry { name: vec![0xff], stem: None, extension: Some("mkv".to_string()) };
    let found = discover_episodes(&[odd, entry("b.mkv"), entry("S1E1.mkv")], "x", 1);
    let paths: Vec<usize> = found.iter().map(|e| e.path).collect();
    assert_eq!(paths, vec![2, 1, 0]);
}

#[test]
fn csv_lines_hold_seconds() {
    let segment = Segment {
        start_ns: 2_300_000_000,
        end_ns: 63_000_000_000,
        confidence: Ratio { num: 94, den: 100 },
        source: SegmentSource::AudioFingerprint,
    };
    let markers = SegmentMarkers {
        episode_id: "breaking-bad-s01e01".to_string(),
        intro: Some(segment),
        credits: None,
    };
    assert_eq!(csv_header(), "episode_id,intro_start,intro_end,credits_start,credits_end");
    assert_eq!(csv_row(&markers), "breaking-bad-s01e01,2.3,63,-1,-1");
}
