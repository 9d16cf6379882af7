//! Decisions of the command line: which files of a directory are the episodes
//! of a season, and how markers are written out.

pub mod discover;
pub mod number;

pub use discover::{discover_episodes, MediaEntry};
pub use number::{parse_episode_number, read_uint};

use vstd::prelude::*;
use vstd::string::StringExecFns;

use crate::{decimal, Segment, SegmentMarkers};

verus! {

/// How markers are printed.
#[derive(Debug, Clone, Copy, PartialEq, Eq, Structural)]
pub enum OutputFormat {
    Json,
    Csv,
    Table,
}

/// The first line of a list of markers in comma-separated form.
pub fn csv_header() -> (line: &'static str)
    ensures
        line@ == "episode_id,intro_start,intro_end,credits_start,credits_end"@,
{
    "episode_id,intro_start,intro_end,credits_start,credits_end"
}

/// The bounds of a segment in comma-separated form. A segment that was not
/// found is at minus one second.
pub open spec fn csv_bounds(segment: Option<Segment>) -> Seq<char> {
    match segment {
        Some(s) => decimal::seconds_text(s.start_ns as int) + ","@ + decimal::seconds_text(
            s.end_ns as int,
        ),
        None => "-1,-1"@,
    }
}

/// The line of an episode's markers in comma-separated form.
pub open spec fn csv_line(markers: SegmentMarkers) -> Seq<char> {
    markers.episode_id@ + ","@ + csv_bounds(markers.intro) + ","@ + csv_bounds(markers.credits)
}

/// Appends [`csv_bounds`].
fn push_bounds(line: &mut String, segment: &Option<Segment>)
    ensures
        final(line)@ == old(line)@ + csv_bounds(*segment),
{
    match segment {
        Some(s) => {
            decimal::push_seconds(line, s.start_ns);
            line.append(",");
            decimal::push_seconds(line, s.end_ns);
        },
        None => {
            line.append("-1,-1");
        },
    }
    assert(line@ =~= old(line)@ + csv_bounds(*segment));
}

/// Writes an episode's markers as one line of a comma-separated list.
pub fn csv_row(markers: &SegmentMarkers) -> (line: String)
    ensures
        line@ == csv_line(*markers),
{
    let mut line: String = markers.episode_id.clone();
    line.append(",");
    push_bounds(&mut line, &markers.intro);
    line.append(",");
    push_bounds(&mut line, &markers.credits);
    assert(line@ =~= csv_line(*markers));
    line
}

/// A line lists the id, the bounds of the intro and those of the credits, with
/// commas between them; a segment that was not found is at minus one.
pub proof fn law_line_lists_both_segments(markers: SegmentMarkers)
    ensures
        ({
            let intro = match markers.intro {
                Some(s) => (
                    decimal::seconds_text(s.start_ns as int),
                    decimal::seconds_text(s.end_ns as int),
                ),
                None => (seq!['-', '1'], seq!['-', '1']),
            };
            let credits = match markers.credits {
                Some(s) => (
                    decimal::seconds_text(s.start_ns as int),
                    decimal::seconds_text(s.end_ns as int),
                ),
                None => (seq!['-', '1'], seq!['-', '1']),
            };
            csv_line(markers) == markers.episode_id@ + seq![','] + intro.0 + seq![','] + intro.1
                + seq![','] + credits.0 + seq![','] + credits.1
        }),
{
    reveal_strlit(",");
    reveal_strlit("-1,-1");
    assert(","@ =~= seq![',']);
    assert("-1,-1"@ =~= seq!['-', '1'] + seq![','] + seq!['-', '1']);
    let intro = match markers.intro {
        Some(s) => (
            decimal::seconds_text(s.start_ns as int),
            decimal::seconds_text(s.end_ns as int),
        ),
        None => (seq!['-', '1'], seq!['-', '1']),
    };
    let credits = match markers.credits {
        Some(s) => (
            decimal::seconds_text(s.start_ns as int),
            decimal::seconds_text(s.end_ns as int),
        ),
        None => (seq!['-', '1'], seq!['-', '1']),
    };
    assert(csv_line(markers) =~= markers.episode_id@ + seq![','] + intro.0 + seq![','] + intro.1
        + seq![','] + credits.0 + seq![','] + credits.1);
}

} // verus!
