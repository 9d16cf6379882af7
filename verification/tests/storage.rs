//! The layout of the data directory and the marker table.

use std::collections::BTreeMap;

use rusqlite::Connection;
use tacet::fingerprint::FingerprintKind;
use tacet::storage::references::{load_references, save_references};
use tacet::storage::{
    build_segment, episode_fp_path, episode_id, is_stale_reference, parse_episode_id, reference_path,
    sanitize, season_dir, MarkerRow,
};
use tacet::{Ratio, Segment, SegmentMarkers, SegmentSource};

const SCHEMA: &str = "CREATE TABLE markers (
    episode_id TEXT PRIMARY KEY, series_id TEXT NOT NULL, season_number INTEGER NOT NULL,
    intro_start REAL, intro_end REAL, intro_confidence REAL,
    credits_start REAL, credits_end REAL, credits_confidence REAL)";

fn seconds(ns: Option<i64>) -> Option<f64> {
    ns.map(|t| t as f64 / 1e9)
}

fn nanos(seconds: Option<f64>) -> Option<i64> {
    seconds.map(|t| (t * 1e9).round() as i64)
}

fn share(r: Option<Ratio>) -> Option<f64> {
    r.map(|r| r.num as f64 / r.den as f64)
}

fn ratio(share: Option<f64>) -> Option<Ratio> {
    share.map(|s| Ratio { num: (s * 1e9).round() as u64, den: 1_000_000_000 })
}

fn save(conn: &Connection, m: &SegmentMarkers) {
    let row = MarkerRow::from_markers(m);
    conn.execute(
        "INSERT INTO markers VALUES (?1, ?2, ?3, ?4, ?5, ?6, ?7, ?8, ?9)",
        (
            row.episode_id,
            row.series_id,
            row.season_number,
            seconds(row.intro_start_ns),
            seconds(row.intro_end_ns),
            share(row.intro_confidence),
            seconds(row.credits_start_ns),
            seconds(row.credits_end_ns),
            share(row.credits_confidence),
        ),
    )
    .unwrap();
}

fn load(row: &rusqlite::Row<'_>) -> rusqlite::Result<SegmentMarkers> {
    Ok(MarkerRow {
        episode_id: row.get(0)?,
        series_id: row.get(1)?,
        season_number: row.get(2)?,
        intro_start_ns: nanos(row.get(3)?),
        intro_end_ns: nanos(row.get(4)?),
        intro_confidence: ratio(row.get(5)?),
        credits_start_ns: nanos(row.get(6)?),
        credits_end_ns: nanos(row.get(7)?),
        credits_confidence: ratio(row.get(8)?),
    }
    .into_markers())
}

fn segment(start: i64, end: i64, num: u64) -> Segment {
    Segment {
        start_ns: start * 1_000_000_000,
        end_ns: end * 1_000_000_000,
        confidence: Ratio { num, den: 100 },
        source: SegmentSource::AudioFingerprint,
    }
}

#[test]
fn save_and_get_markers_roundtrip() {
    let conn = Connection::open_in_memory().unwrap();
    conn.execute(SCHEMA, ()).unwrap();

    let m = SegmentMarkers {
        episode_id: "breaking-bad-s01e02".to_string(),
        intro: Some(segment(5, 65, 94)),
        credits: Some(segment(2800, 2840, 87)),
    };
    save(&conn, &m);

    let got = conn
        .query_row(
            "SELECT * FROM markers WHERE episode_id = ?1",
            ("breaking-bad-s01e02",),
            load,
        )
        .unwrap();
    assert_eq!(got.episode_id, m.episode_id);
    assert_eq!(got.intro.as_ref().unwrap().start_ns, 5_000_000_000);
    assert_eq!(got.credits.as_ref().unwrap().end_ns, 2_840_000_000_000);

    let mut statement = conn
        .prepare("SELECT * FROM markers WHERE series_id = ?1 AND season_number = ?2")
        .unwrap();
    let season: Vec<SegmentMarkers> =
        statement.query_map(("breaking-bad", 1), load).unwrap().map(|r| r.unwrap()).collect();
    assert_eq!(season.len(), 1);
}

#[test]
fn rows_forget_the_source_alone() {
    let mut heuristic = segment(100, 200, 50);
    heuristic.source = SegmentSource::Blackframe;
    let m = SegmentMarkers { episode_id: "x".to_string(), intro: None, credits: Some(heuristic) };
    let row = MarkerRow::from_markers(&m);
    assert_eq!((row.series_id.as_str(), row.season_number), ("x", 0));
    assert_eq!(row.intro_start_ns, None);
    let back = row.into_markers();
    assert_eq!(back.intro, None);
    assert_eq!(back.credits, Some(segment(100, 200, 50)));
}

#[test]
fn a_segment_needs_all_its_columns() {
    let half = Some(Ratio { num: 1, den: 2 });
    assert!(build_segment(Some(1), Some(2), half).is_some());
    assert!(build_segment(None, Some(2), half).is_none());
    assert!(build_segment(Some(1), None, half).is_none());
    assert!(build_segment(Some(1), Some(2), None).is_none());
}

#[test]
fn episode_id_parsing() {
    assert_eq!(
        parse_episode_id("breaking-bad-s01e02"),
        ("breaking-bad".to_string(), 1)
    );
    assert_eq!(
        parse_episode_id("the-wire-s03e10"),
        ("the-wire".to_string(), 3)
    );
    assert_eq!(parse_episode_id("garbled"), ("garbled".to_string(), 0));
}

#[test]
fn odd_ids_name_themselves() {
    for id in ["", "show-s", "show-s01", "show-sXXe01", "show-s-1e01", "show-s99999999999e01"] {
        assert_eq!(parse_episode_id(id), (id.to_string(), 0));
    }
    assert_eq!(parse_episode_id("show-s+7e01"), ("show".to_string(), 7));
}

#[test]
fn made_ids_parse_back() {
    for series in ["the-wire", "x-s01e01", "", "é-së"] {
        for season in [0, 1, 12, u32::MAX] {
            let id = episode_id(series, season, 7);
            assert_eq!(parse_episode_id(&id), (series.to_string(), season));
        }
    }
    assert_eq!(episode_id("show", 1, 2), "show-s01e02");
    assert_eq!(episode_id("show", 10, 123), "show-s10e123");
}

#[test]
fn names_follow_the_layout() {
    assert_eq!(season_dir("a/b\\c:d\0e", 3), ("a_b_c_d_e".to_string(), "s03".to_string()));
    assert_eq!(sanitize("plain"), "plain");
    assert_eq!(episode_fp_path(2, FingerprintKind::Intro), "e02.intro.bin");
    assert_eq!(episode_fp_path(120, FingerprintKind::Credits), "e120.credits.bin");
    assert_eq!(reference_path(FingerprintKind::Intro, 0), "intro.ref.0.bin");
    assert_eq!(reference_path(FingerprintKind::Credits, 11), "credits.ref.11.bin");
    assert_eq!(FingerprintKind::Intro.suffix(), "intro");
}

#[test]
fn no_two_windows_or_references_share_a_file() {
    let kinds = [FingerprintKind::Intro, FingerprintKind::Credits];
    let mut names: Vec<String> = Vec::new();
    for kind in kinds {
        for n in [0, 1, 9, 10, 11, 99, 100, 101, 1000] {
            names.push(episode_fp_path(n, kind));
            names.push(reference_path(kind, n as usize));
        }
    }
    let count = names.len();
    names.sort();
    names.dedup();
    assert_eq!(names.len(), count);
}

#[test]
fn stale_files_are_those_of_the_kind() {
    assert!(is_stale_reference("intro.ref.3.bin", FingerprintKind::Intro));
    assert!(is_stale_reference("intro.ref..bin", FingerprintKind::Intro));
    assert!(!is_stale_reference("intro.ref.3.bin", FingerprintKind::Credits));
    assert!(!is_stale_reference("e01.intro.bin", FingerprintKind::Intro));
    assert!(!is_stale_reference("intro.ref.3.tmp", FingerprintKind::Intro));
    assert!(!is_stale_reference("", FingerprintKind::Intro));
}

#[test]
fn saved_references_replace_the_earlier_ones() {
    let mut files: BTreeMap<String, u32> = BTreeMap::new();
    for (name, content) in [("e01.intro.bin", 100), ("credits.ref.0.bin", 200)] {
        files.insert(name.to_string(), content);
    }
    for saved in [vec![1, 2, 3], vec![4], vec![]] {
        let listing: Vec<String> = files.keys().cloned().collect();
        let plan = save_references(FingerprintKind::Intro, &listing, saved.len());
        for i in &plan.remove {
            files.remove(&listing[*i]);
        }
        for (name, content) in plan.write.iter().zip(&saved) {
            files.insert(name.clone(), *content);
        }
        let mut loader = load_references(FingerprintKind::Intro);
        loop {
            let found = files.get(&loader.next_file()).copied();
            if loader.accept(found) {
                break;
            }
        }
        assert_eq!(loader.loaded, saved);
        assert_eq!(files["e01.intro.bin"], 100);
        assert_eq!(files["credits.ref.0.bin"], 200);
    }
}
