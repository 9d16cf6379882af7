//! The layout of the data directory.
//!
//! - `tacet.db`: a database of segment markers
//! - `fp/<series>/s<NN>/e<NN>.intro.bin`: intro fingerprint of an episode
//! - `fp/<series>/s<NN>/e<NN>.credits.bin`: credits fingerprint of an episode
//! - `fp/<series>/s<NN>/intro.ref.<N>.bin`: intro reference, cluster N
//! - `fp/<series>/s<NN>/credits.ref.<N>.bin`: credits reference, cluster N
//!
//! A season may have several references of a kind: an anime that changes its
//! opening on the way has two clusters of intros, each with its own.

pub mod references;

use vstd::prelude::*;
use vstd::string::StringExecFns;

use crate::fingerprint::FingerprintKind;
use crate::{decimal, default_source, text, Ratio, Segment, SegmentMarkers, SegmentSource};

verus! {

/// The word that stands for a kind in file names.
pub open spec fn suffix_text(kind: FingerprintKind) -> Seq<char> {
    match kind {
        FingerprintKind::Intro => "intro"@,
        FingerprintKind::Credits => "credits"@,
    }
}

impl FingerprintKind {
    /// The word that stands for this kind in file names.
    pub fn suffix(self) -> (word: &'static str)
        ensures
            word@ == suffix_text(self),
    {
        match self {
            FingerprintKind::Intro => "intro",
            FingerprintKind::Credits => "credits",
        }
    }
}

/// A character that would end or leave a path component.
pub open spec fn is_separator(c: char) -> bool {
    c == '/' || c == '\\' || c == ':' || c == '\0'
}

/// A series id as a path component: each separator becomes an underscore.
pub open spec fn sanitized(s: Seq<char>) -> Seq<char> {
    s.map_values(
        |c: char|
            if is_separator(c) {
                '_'
            } else {
                c
            },
    )
}

/// Makes a path component of a series id.
pub fn sanitize(s: &str) -> (component: String)
    ensures
        component@ == sanitized(s@),
{
    let chars: Vec<char> = text::chars_of(s);
    let mut component: String = String::new();
    let mut i: usize = 0;
    while i < chars.len()
        invariant
            i <= chars@.len(),
            component@ == sanitized(chars@).take(i as int),
        decreases chars@.len() - i,
    {
        let c: char = chars[i];
        let kept: char = if c == '/' || c == '\\' || c == ':' || c == '\0' {
            '_'
        } else {
            c
        };
        component.push(kept);
        assert(sanitized(chars@).take(i + 1) =~= sanitized(chars@).take(i as int).push(kept));
        i = i + 1;
    }
    assert(sanitized(chars@).take(i as int) =~= sanitized(chars@));
    component
}

/// A series id stays inside its own directory: the component that stands for it
/// holds no separator, and is as long as the id.
pub proof fn law_component_holds_no_separator(s: Seq<char>)
    ensures
        sanitized(s).len() == s.len(),
        forall|i: int| 0 <= i < s.len() ==> !is_separator(#[trigger] sanitized(s)[i]),
{
}

/// The directory of a season, below that of its series.
pub open spec fn season_folder(season: nat) -> Seq<char> {
    "s"@ + decimal::padded(season)
}

/// The file of an episode's fingerprint.
pub open spec fn episode_file(episode: nat, kind: FingerprintKind) -> Seq<char> {
    "e"@ + decimal::padded(episode) + "."@ + suffix_text(kind) + ".bin"@
}

/// What the files of a kind's references begin with.
pub open spec fn reference_prefix(kind: FingerprintKind) -> Seq<char> {
    suffix_text(kind) + ".ref."@
}

/// The file of a season's reference.
pub open spec fn reference_file(kind: FingerprintKind, cluster: nat) -> Seq<char> {
    reference_prefix(kind) + decimal::decimal(cluster) + ".bin"@
}

/// The directory of a season: the one of the series, and the one below it.
pub fn season_dir(series_id: &str, season: u32) -> (components: (String, String))
    ensures
        components.0@ == sanitized(series_id@),
        components.1@ == season_folder(season as nat),
{
    let mut folder: String = String::new();
    folder.append("s");
    decimal::push_padded(&mut folder, season);
    assert(folder@ =~= season_folder(season as nat));
    (sanitize(series_id), folder)
}

/// The file name of an episode's fingerprint, within the season's directory.
pub fn episode_fp_path(episode_index: u32, kind: FingerprintKind) -> (name: String)
    ensures
        name@ == episode_file(episode_index as nat, kind),
{
    let mut name: String = String::new();
    name.append("e");
    decimal::push_padded(&mut name, episode_index);
    name.append(".");
    name.append(kind.suffix());
    name.append(".bin");
    assert(name@ =~= episode_file(episode_index as nat, kind));
    name
}

/// The file name of a reference, within the season's directory.
pub fn reference_path(kind: FingerprintKind, cluster: usize) -> (name: String)
    ensures
        name@ == reference_file(kind, cluster as nat),
{
    let mut name: String = String::new();
    name.append(kind.suffix());
    name.append(".ref.");
    decimal::push_decimal(&mut name, cluster as u64);
    name.append(".bin");
    assert(name@ =~= reference_file(kind, cluster as nat));
    name
}

/// `s` begins with `prefix`.
pub open spec fn begins_with(s: Seq<char>, prefix: Seq<char>) -> bool {
    prefix.len() <= s.len() && s.take(prefix.len() as int) == prefix
}

/// `s` ends with `suffix`.
pub open spec fn finishes_with(s: Seq<char>, suffix: Seq<char>) -> bool {
    suffix.len() <= s.len() && s.skip(s.len() - suffix.len()) == suffix
}

/// A file that an earlier save of references of this kind may have left.
pub open spec fn is_stale(name: Seq<char>, kind: FingerprintKind) -> bool {
    begins_with(name, reference_prefix(kind)) && finishes_with(name, ".bin"@)
}

/// Whether a file of the season's directory has to go before the references of
/// a kind are written anew. An earlier run may have found more clusters than
/// this one, and a later read must not pick these up.
pub fn is_stale_reference(name: &str, kind: FingerprintKind) -> (stale: bool)
    ensures
        stale == is_stale(name@, kind),
{
    let chars: Vec<char> = text::chars_of(name);
    let mut prefix: String = String::new();
    prefix.append(kind.suffix());
    prefix.append(".ref.");
    assert(prefix@ =~= reference_prefix(kind));
    let head: Vec<char> = text::chars_of(prefix.as_str());
    let tail: Vec<char> = text::chars_of(".bin");
    if head.len() > chars.len() || tail.len() > chars.len() {
        return false;
    }
    proof {
        assert(chars@.subrange(0, head@.len() as int) =~= chars@.take(head@.len() as int));
        assert(chars@.subrange(chars@.len() - tail@.len(), chars@.len() as int) =~= chars@.skip(
            chars@.len() - tail@.len(),
        ));
    }
    text::matches_at(&chars, &head, 0) && text::matches_at(&chars, &tail, chars.len() - tail.len())
}

/// A segment out of its stored columns. All three must be there. The source is
/// not stored; a stored segment counts as matched by fingerprint.
pub open spec fn segment_of(
    start: Option<i64>,
    end: Option<i64>,
    confidence: Option<Ratio>,
) -> Option<Segment> {
    match (start, end, confidence) {
        (Some(start_ns), Some(end_ns), Some(confidence)) => Some(
            Segment { start_ns, end_ns, confidence, source: SegmentSource::AudioFingerprint },
        ),
        _ => None,
    }
}

/// Builds a segment out of its stored columns.
pub fn build_segment(
    start: Option<i64>,
    end: Option<i64>,
    confidence: Option<Ratio>,
) -> (segment: Option<Segment>)
    ensures
        segment == segment_of(start, end, confidence),
{
    match (start, end, confidence) {
        (Some(start_ns), Some(end_ns), Some(confidence)) => Some(
            Segment { start_ns, end_ns, confidence, source: default_source() },
        ),
        _ => None,
    }
}

/// One row of the marker table, but for the time of the update.
#[derive(Debug, Clone)]
pub struct MarkerRow {
    pub episode_id: String,
    pub series_id: String,
    pub season_number: u32,
    pub intro_start_ns: Option<i64>,
    pub intro_end_ns: Option<i64>,
    pub intro_confidence: Option<Ratio>,
    pub credits_start_ns: Option<i64>,
    pub credits_end_ns: Option<i64>,
    pub credits_confidence: Option<Ratio>,
}

/// The columns of a segment.
pub open spec fn columns_of(segment: Option<Segment>) -> (Option<i64>, Option<i64>, Option<Ratio>) {
    match segment {
        Some(s) => (Some(s.start_ns), Some(s.end_ns), Some(s.confidence)),
        None => (None, None, None),
    }
}

/// The series and the season that an episode id names: what stands before the
/// last `-s`, and the number between it and the next `e`. An id of another form
/// names itself as the series, and season zero.
pub open spec fn id_parts(id: Seq<char>) -> (Seq<char>, u32) {
    let whole = (id, 0u32);
    match text::rfind(id, "-s"@) {
        Some(i) => {
            let rest = id.skip(i + 2);
            match text::find(rest, "e"@) {
                Some(j) => match decimal::parsed_u32(rest.take(j)) {
                    Some(season) => (id.take(i), season),
                    None => whole,
                },
                None => whole,
            }
        },
        None => whole,
    }
}

/// Splits an episode id into series and season.
pub fn parse_episode_id(episode_id: &str) -> (parts: (String, u32))
    ensures
        (parts.0@, parts.1) == id_parts(episode_id@),
{
    let id: Vec<char> = text::chars_of(episode_id);
    let mark: Vec<char> = text::chars_of("-s");
    let mark_e: Vec<char> = text::chars_of("e");
    proof {
        reveal_strlit("-s");
        reveal_strlit("e");
    }
    if let Some(i) = text::find_last(&id, &mark) {
        assert(i + mark@.len() <= id.len());
        let from: usize = i + 2;
        let ghost rest = id@.skip(from as int);
        let found: Option<usize> = text::find_from(&id, &mark_e, from);
        proof {
            text::lemma_find_in_rest(id@, mark_e@, from as int, found);
        }
        if let Some(j) = found {
            assert(id@.subrange(from as int, j as int) =~= rest.take(j - from));
            if let Some(season) = decimal::parse_u32(&id, from, j) {
                assert(id@.subrange(0, i as int) =~= id@.take(i as int));
                return (text::substring(&id, 0, i), season);
            }
        }
    }
    (episode_id.to_owned(), 0)
}

impl MarkerRow {
    /// The row holds the markers of an episode, under the series and season
    /// that its id names.
    pub open spec fn holds(self, markers: SegmentMarkers) -> bool {
        &&& self.episode_id@ == markers.episode_id@
        &&& (self.series_id@, self.season_number) == id_parts(markers.episode_id@)
        &&& (self.intro_start_ns, self.intro_end_ns, self.intro_confidence) == columns_of(
            markers.intro,
        )
        &&& (self.credits_start_ns, self.credits_end_ns, self.credits_confidence) == columns_of(
            markers.credits,
        )
    }

    /// Makes the row to store for an episode.
    pub fn from_markers(markers: &SegmentMarkers) -> (row: MarkerRow)
        ensures
            row.holds(*markers),
    {
        let (series_id, season_number) = parse_episode_id(markers.episode_id.as_str());
        let (intro_start_ns, intro_end_ns, intro_confidence) = segment_columns(&markers.intro);
        let (credits_start_ns, credits_end_ns, credits_confidence) = segment_columns(
            &markers.credits,
        );
        MarkerRow {
            episode_id: markers.episode_id.clone(),
            series_id,
            season_number,
            intro_start_ns,
            intro_end_ns,
            intro_confidence,
            credits_start_ns,
            credits_end_ns,
            credits_confidence,
        }
    }

    /// Takes the markers out of a stored row.
    pub fn into_markers(self) -> (markers: SegmentMarkers)
        ensures
            markers.episode_id@ == self.episode_id@,
            markers.intro == segment_of(
                self.intro_start_ns,
                self.intro_end_ns,
                self.intro_confidence,
            ),
            markers.credits == segment_of(
                self.credits_start_ns,
                self.credits_end_ns,
                self.credits_confidence,
            ),
    {
        let intro: Option<Segment> = build_segment(
            self.intro_start_ns,
            self.intro_end_ns,
            self.intro_confidence,
        );
        let credits: Option<Segment> = build_segment(
            self.credits_start_ns,
            self.credits_end_ns,
            self.credits_confidence,
        );
        SegmentMarkers { episode_id: self.episode_id, intro, credits }
    }
}

/// Computes [`columns_of`].
fn segment_columns(segment: &Option<Segment>) -> (columns: (
    Option<i64>,
    Option<i64>,
    Option<Ratio>,
))
    ensures
        columns == columns_of(*segment),
{
    match segment {
        Some(s) => (Some(s.start_ns), Some(s.end_ns), Some(s.confidence)),
        None => (None, None, None),
    }
}

/// A segment as it comes back from the store: unchanged but for its source,
/// which is not stored.
pub open spec fn restored(segment: Option<Segment>) -> Option<Segment> {
    match segment {
        Some(s) => Some(Segment { source: SegmentSource::AudioFingerprint, ..s }),
        None => None,
    }
}

/// A stored segment reads back as it was written, but for its source.
pub proof fn law_stored_segment_reads_back(segment: Option<Segment>)
    ensures
        ({
            let (start, end, confidence) = columns_of(segment);
            segment_of(start, end, confidence) == restored(segment)
        }),
{
}

/// The id of an episode: series, season and number.
pub open spec fn episode_id_text(series: Seq<char>, season: nat, number: nat) -> Seq<char> {
    series + "-s"@ + decimal::padded(season) + "e"@ + decimal::padded(number)
}

/// Makes the id of an episode.
pub fn episode_id(series_id: &str, season: u32, number: u32) -> (id: String)
    ensures
        id@ == episode_id_text(series_id@, season as nat, number as nat),
{
    let mut id: String = series_id.to_owned();
    id.append("-s");
    decimal::push_padded(&mut id, season);
    id.append("e");
    decimal::push_padded(&mut id, number);
    assert(id@ =~= episode_id_text(series_id@, season as nat, number as nat));
    id
}

/// The id of an episode names its series and its season, whatever the series
/// is called.
pub proof fn law_episode_id_names_its_season(series: Seq<char>, season: u32, number: u32)
    ensures
        id_parts(episode_id_text(series, season as nat, number as nat)) == (series, season),
{
    reveal_strlit("-s");
    reveal_strlit("e");
    let id = episode_id_text(series, season as nat, number as nat);
    let s = decimal::padded(season as nat);
    let n = decimal::padded(number as nat);
    decimal::lemma_padded(season as nat);
    decimal::lemma_padded(number as nat);
    let at = series.len() as int;
    assert("-s"@ =~= seq!['-', 's']);
    assert("e"@ =~= seq!['e']);
    assert(id.subrange(at, at + 2) =~= "-s"@);
    assert(text::occurs_at(id, "-s"@, at));
    assert forall|j: int| #[trigger] text::occurs_at(id, "-s"@, j) implies j <= at by {
        if j > at {
            assert(id.subrange(j, j + 2)[0] == id[j]);
            assert(id[j] == '-');
            let k = j - at - 2;
            if k >= 0 && k < s.len() {
                assert(id[j] == s[k]);
                assert(decimal::is_digit(s[k]));
            } else if k > s.len() {
                assert(id[j] == n[k - s.len() - 1]);
                assert(decimal::is_digit(n[k - s.len() - 1]));
            }
        }
    }
    text::lemma_rfind_is(id, "-s"@, at);
    let rest = id.skip(at + 2);
    assert(rest =~= s + "e"@ + n);
    let e = s.len() as int;
    assert(rest.subrange(e, e + 1) =~= "e"@);
    assert(text::occurs_at(rest, "e"@, e));
    assert forall|j: int| #[trigger] text::occurs_at(rest, "e"@, j) implies e <= j by {
        if j < e {
            assert(rest.subrange(j, j + 1)[0] == rest[j]);
            assert(rest[j] == s[j]);
            assert(decimal::is_digit(s[j]));
        }
    }
    text::lemma_find_is(rest, "e"@, e);
    assert(rest.take(e) =~= s);
    assert(decimal::is_digit(s[0]));
    assert(id.take(at) =~= series);
}

/// A series id is kept as it is, but for an underscore in place of every character
/// that would leave its directory.
pub proof fn law_other_characters_are_kept(s: Seq<char>, i: int)
    requires
        0 <= i < s.len(),
    ensures
        sanitized(s).len() == s.len(),
        s[i] == '/' || s[i] == '\\' || s[i] == ':' || s[i] == '\0' ==> sanitized(s)[i] == '_',
        s[i] != '/' && s[i] != '\\' && s[i] != ':' && s[i] != '\0' ==> sanitized(s)[i] == s[i],
{
}

/// An id without a season mark names itself as the series, and season zero.
pub proof fn law_plain_id_names_itself(id: Seq<char>)
    requires
        forall|j: int|
            0 <= j < id.len() - 1 ==> !(#[trigger] id[j] == '-' && id[j + 1] == 's'),
    ensures
        id_parts(id) == (id, 0u32),
{
    reveal_strlit("-s");
    text::law_search_from_the_end_finds_the_last(id, "-s"@);
    if text::rfind(id, "-s"@) is Some {
        let i = text::rfind(id, "-s"@)->0;
        let part = id.subrange(i, i + 2);
        assert(part[0] == id[i] && part[1] == id[i + 1]);
        assert("-s"@[0] == '-' && "-s"@[1] == 's');
        assert(id[i] == '-');
    }
}

/// An id is split at its last season mark: what stands before is the series, and
/// the number that follows, up to the letter e, is the season.
pub proof fn law_id_is_split_at_the_last_mark(
    series: Seq<char>,
    digits: Seq<char>,
    rest: Seq<char>,
)
    requires
        digits.len() > 0,
        decimal::all_digits(digits),
        decimal::value(digits) <= u32::MAX,
        forall|j: int| 0 <= j < rest.len() ==> rest[j] != '-',
    ensures
        id_parts(series + seq!['-', 's'] + digits + seq!['e'] + rest) == (
            series,
            decimal::value(digits) as u32,
        ),
{
    reveal_strlit("-s");
    reveal_strlit("e");
    let id = series + seq!['-', 's'] + digits + seq!['e'] + rest;
    let at = series.len() as int;
    assert("-s"@ =~= seq!['-', 's']);
    assert("e"@ =~= seq!['e']);
    assert(id.subrange(at, at + 2) =~= "-s"@);
    assert(text::occurs_at(id, "-s"@, at));
    let n = digits.len() as int;
    assert forall|j: int| #[trigger] text::occurs_at(id, "-s"@, j) implies j <= at by {
        if j > at {
            assert(id.subrange(j, j + 2)[0] == id[j]);
            assert(id[j] == '-');
            let k = j - at - 2;
            if 0 <= k < n {
                assert(id[j] == digits[k]);
                assert(decimal::is_digit(digits[k]));
            } else if k > n {
                assert(id[j] == rest[k - n - 1]);
            }
        }
    }
    text::lemma_rfind_is(id, "-s"@, at);
    let tail = id.skip(at + 2);
    assert(tail =~= digits + seq!['e'] + rest);
    assert(tail.subrange(n, n + 1) =~= "e"@);
    assert(text::occurs_at(tail, "e"@, n));
    assert forall|j: int| #[trigger] text::occurs_at(tail, "e"@, j) implies n <= j by {
        if j < n {
            assert(tail.subrange(j, j + 1)[0] == tail[j]);
            assert(tail[j] == digits[j]);
            assert(decimal::is_digit(digits[j]));
        }
    }
    text::lemma_find_is(tail, "e"@, n);
    assert(tail.take(n) =~= digits);
    assert(decimal::is_digit(digits[0]));
    assert(id.take(at) =~= series);
    decimal::lemma_value_grows(digits, n);
}

/// A row holds the bounds and the confidence of both segments, each in its own
/// column, and nothing for a segment that was not found; what is taken out of it
/// again is what was put in, but for the source of a segment.
pub proof fn law_row_keeps_the_markers(row: MarkerRow, markers: SegmentMarkers)
    requires
        row.holds(markers),
    ensures
        row.episode_id@ == markers.episode_id@,
        match markers.intro {
            Some(s) => {
                &&& row.intro_start_ns == Some(s.start_ns)
                &&& row.intro_end_ns == Some(s.end_ns)
                &&& row.intro_confidence == Some(s.confidence)
                &&& segment_of(row.intro_start_ns, row.intro_end_ns, row.intro_confidence) == Some(
                    Segment {
                        start_ns: s.start_ns,
                        end_ns: s.end_ns,
                        confidence: s.confidence,
                        source: SegmentSource::AudioFingerprint,
                    },
                )
            },
            None => row.intro_start_ns is None && row.intro_end_ns is None
                && row.intro_confidence is None && segment_of(
                row.intro_start_ns,
                row.intro_end_ns,
                row.intro_confidence,
            ) is None,
        },
        match markers.credits {
            Some(s) => {
                &&& row.credits_start_ns == Some(s.start_ns)
                &&& row.credits_end_ns == Some(s.end_ns)
                &&& row.credits_confidence == Some(s.confidence)
                &&& segment_of(row.credits_start_ns, row.credits_end_ns, row.credits_confidence)
                    == Some(
                    Segment {
                        start_ns: s.start_ns,
                        end_ns: s.end_ns,
                        confidence: s.confidence,
                        source: SegmentSource::AudioFingerprint,
                    },
                )
            },
            None => row.credits_start_ns is None && row.credits_end_ns is None
                && row.credits_confidence is None && segment_of(
                row.credits_start_ns,
                row.credits_end_ns,
                row.credits_confidence,
            ) is None,
        },
{
}

/// A segment needs its start, its end and its confidence: where one is missing,
/// there is none.
pub proof fn law_segment_needs_all_its_columns(
    start: Option<i64>,
    end: Option<i64>,
    confidence: Option<Ratio>,
)
    ensures
        segment_of(start, end, confidence) is Some <==> start is Some && end is Some && confidence
            is Some,
{
}

/// Directories and files have the names of the layout.
pub proof fn law_names_follow_the_layout(season: nat, episode: nat, cluster: nat)
    ensures
        season_folder(season) == "s"@ + decimal::padded(season),
        episode_file(episode, FingerprintKind::Intro) == "e"@ + decimal::padded(episode) + "."@
            + "intro"@ + ".bin"@,
        episode_file(episode, FingerprintKind::Credits) == "e"@ + decimal::padded(episode) + "."@
            + "credits"@ + ".bin"@,
        reference_file(FingerprintKind::Intro, cluster) == "intro"@ + ".ref."@ + decimal::decimal(
            cluster,
        ) + ".bin"@,
        reference_file(FingerprintKind::Credits, cluster) == "credits"@ + ".ref."@
            + decimal::decimal(cluster) + ".bin"@,
{
}

/// A file is swept away before references are saved exactly where its name begins
/// and ends like that of a reference of the kind.
pub proof fn law_references_of_the_kind_are_swept(name: Seq<char>)
    ensures
        ({
            let (intro, credits, end) = ("intro"@ + ".ref."@, "credits"@ + ".ref."@, ".bin"@);
            let ends = end.len() <= name.len() && name.skip(name.len() - end.len()) == end;
            &&& is_stale(name, FingerprintKind::Intro) <==> ends && intro.len() <= name.len()
                && name.take(intro.len() as int) == intro
            &&& is_stale(name, FingerprintKind::Credits) <==> ends && credits.len() <= name.len()
                && name.take(credits.len() as int) == credits
        }),
{
}

/// The id of an episode is its series, its season and its number, both with at
/// least two digits.
pub proof fn law_episode_id_is_spelled_out(series: Seq<char>, season: nat, number: nat)
    ensures
        episode_id_text(series, season, number) == series + seq!['-', 's'] + decimal::padded(season)
            + seq!['e'] + decimal::padded(number),
{
    reveal_strlit("-s");
    reveal_strlit("e");
    assert("-s"@ =~= seq!['-', 's']);
    assert("e"@ =~= seq!['e']);
}

} // verus!
