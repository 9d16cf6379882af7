//! Reading the log of a black-frame scan.

use vstd::prelude::*;

use super::BlackSegment;
use crate::{decimal, text, time};

verus! {

/// The longest prefix made of digits and points.
pub open spec fn leading_number(s: Seq<char>) -> Seq<char>
    decreases s.len(),
{
    if s.len() > 0 && (s[0] == '.' || decimal::is_digit(s[0])) {
        seq![s[0]] + leading_number(s.skip(1))
    } else {
        Seq::empty()
    }
}

/// The number that follows the first occurrence of `key` in `s`.
pub open spec fn field(s: Seq<char>, key: Seq<char>) -> Option<int> {
    match text::find(s, key) {
        Some(i) => decimal::parsed_seconds(leading_number(s.skip(i + key.len()))),
        None => None,
    }
}

/// The black stretch that a log line reports, with times taken from `offset`
/// on. A line without a `black_start:` field reports none, and neither does
/// one that lacks any of the three numbers.
pub open spec fn line_segment(line: Seq<char>, offset: int) -> Option<BlackSegment> {
    match text::find(line, "black_start:"@) {
        Some(i) => {
            let rest = line.skip(i);
            match (
                field(rest, "black_start:"@),
                field(rest, "black_end:"@),
                field(rest, "black_duration:"@),
            ) {
                (Some(start), Some(end), Some(duration)) => Some(
                    BlackSegment {
                        start_ns: time::clamped(start + offset) as i64,
                        end_ns: time::clamped(end + offset) as i64,
                        duration_ns: duration as i64,
                    },
                ),
                _ => None,
            }
        },
        None => None,
    }
}

/// The black stretches that the lines of a log report, in order.
pub open spec fn line_segments(lines: Seq<Seq<char>>, offset: int) -> Seq<BlackSegment>
    decreases lines.len(),
{
    if lines.len() == 0 {
        Seq::empty()
    } else {
        let front = line_segments(lines.drop_last(), offset);
        match line_segment(lines.last(), offset) {
            Some(segment) => front.push(segment),
            None => front,
        }
    }
}

/// The black stretches that a log reports.
pub open spec fn log_segments(log: Seq<char>, offset: int) -> Seq<BlackSegment> {
    line_segments(text::lines_of(log), offset)
}

/// Where the leading run of digits and points that starts at `start` ends.
fn number_end(chars: &Vec<char>, start: usize) -> (end: usize)
    requires
        start <= chars@.len(),
    ensures
        start <= end <= chars@.len(),
        chars@.subrange(start as int, end as int) == leading_number(chars@.skip(start as int)),
{
    let mut end: usize = start;
    assert(chars@.subrange(start as int, start as int) =~= Seq::empty());
    assert(Seq::<char>::empty() + leading_number(chars@.skip(start as int)) =~= leading_number(
        chars@.skip(start as int),
    ));
    while end < chars.len() && (chars[end] == '.' || ('0' <= chars[end] && chars[end] <= '9'))
        invariant
            start <= end <= chars@.len(),
            chars@.subrange(start as int, end as int) + leading_number(chars@.skip(end as int))
                == leading_number(chars@.skip(start as int)),
        decreases chars@.len() - end,
    {
        proof {
            let rest = chars@.skip(end as int);
            assert(rest.skip(1) =~= chars@.skip(end + 1));
            assert(rest[0] == chars@[end as int]);
            let tail = leading_number(chars@.skip(end + 1));
            assert(chars@.subrange(start as int, end as int) + (seq![rest[0]] + tail)
                =~= chars@.subrange(start as int, end + 1) + tail);
        }
        end = end + 1;
    }
    proof {
        let rest = chars@.skip(end as int);
        assert(end < chars@.len() ==> rest[0] == chars@[end as int]);
        assert(leading_number(rest) =~= Seq::empty());
        assert(chars@.subrange(start as int, end as int) + Seq::<char>::empty()
            =~= chars@.subrange(start as int, end as int));
    }
    end
}

/// Reads the number that follows the first occurrence of `key` at or after
/// `from`.
fn extract_field(line: &Vec<char>, from: usize, key: &str) -> (ns: Option<i64>)
    requires
        from <= line@.len(),
    ensures
        match ns {
            Some(t) => field(line@.skip(from as int), key@) == Some(t as int),
            None => field(line@.skip(from as int), key@) is None,
        },
{
    let key: Vec<char> = text::chars_of(key);
    let ghost rest = line@.skip(from as int);
    let found: Option<usize> = text::find_from(line, &key, from);
    proof {
        text::lemma_find_in_rest(line@, key@, from as int, found);
    }
    match found {
        Some(i) => {
            assert(rest.skip(i - from + key@.len()) =~= line@.skip(i + key@.len()));
            assert(i + key@.len() <= line.len());
            let start: usize = i + key.len();
            let end: usize = number_end(line, start);
            decimal::parse_seconds(line, start, end)
        },
        None => None,
    }
}

/// Reads one log line.
fn parse_line(line: &Vec<char>, seek_offset_ns: i64) -> (segment: Option<BlackSegment>)
    ensures
        segment == line_segment(line@, seek_offset_ns as int),
{
    let key: Vec<char> = text::chars_of("black_start:");
    match text::find_first(line, &key) {
        Some(i) => {
            match (
                extract_field(line, i, "black_start:"),
                extract_field(line, i, "black_end:"),
                extract_field(line, i, "black_duration:"),
            ) {
                (Some(start), Some(end), Some(duration)) => Some(
                    BlackSegment {
                        start_ns: time::clamp(start as i128 + seek_offset_ns as i128),
                        end_ns: time::clamp(end as i128 + seek_offset_ns as i128),
                        duration_ns: duration,
                    },
                ),
                _ => None,
            }
        },
        None => None,
    }
}

/// Reads the black stretches out of the tool's log. A line looks like this:
///
/// ```text
/// [blackdetect @ 0x7f] black_start:141.706 black_end:168.232 black_duration:26.526
/// ```
///
/// The log counts time from the seek position, `seek_offset_ns`.
pub fn parse_blackdetect(log: &str, seek_offset_ns: i64) -> (segments: Vec<BlackSegment>)
    ensures
        segments@ == log_segments(log@, seek_offset_ns as int),
{
    let chars: Vec<char> = text::chars_of(log);
    let lines: Vec<Vec<char>> = text::split_lines(&chars);
    let mut segments: Vec<BlackSegment> = Vec::new();
    let mut i: usize = 0;
    let ghost all = text::lines_of(log@);
    while i < lines.len()
        invariant
            i <= lines@.len() == all.len(),
            forall|j: int| 0 <= j < lines@.len() ==> (#[trigger] lines@[j])@ == all[j],
            segments@ == line_segments(all.take(i as int), seek_offset_ns as int),
        decreases lines@.len() - i,
    {
        proof {
            assert(all.take(i + 1).drop_last() =~= all.take(i as int));
            assert(all.take(i + 1).last() == lines@[i as int]@);
        }
        match parse_line(&lines[i], seek_offset_ns) {
            Some(segment) => segments.push(segment),
            None => {},
        }
        i = i + 1;
    }
    proof {
        assert(all.take(i as int) =~= all);
    }
    segments
}

/// A text made of digits and points alone.
pub open spec fn is_number_text(s: Seq<char>) -> bool {
    forall|i: int| 0 <= i < s.len() ==> (#[trigger] s[i] == '.' || decimal::is_digit(s[i]))
}

/// The leading number of a text that begins with one.
proof fn lemma_leading_number(number: Seq<char>, after: Seq<char>)
    requires
        is_number_text(number),
        after.len() > 0 ==> after[0] != '.' && !decimal::is_digit(after[0]),
    ensures
        leading_number(number + after) == number,
    decreases number.len(),
{
    let s = number + after;
    if number.len() == 0 {
        assert(s =~= after);
        assert(leading_number(s) =~= number);
    } else {
        let rest = number.skip(1);
        assert(s[0] == number[0]);
        assert(s.skip(1) =~= rest + after);
        assert forall|i: int| 0 <= i < rest.len() implies (#[trigger] rest[i] == '.'
            || decimal::is_digit(rest[i])) by {
            assert(rest[i] == number[i + 1]);
        }
        lemma_leading_number(rest, after);
        assert(seq![number[0]] + rest =~= number);
    }
}

/// A time of at least zero is written in digits and points.
proof fn lemma_seconds_are_a_number(ns: int)
    requires
        0 <= ns,
    ensures
        is_number_text(decimal::seconds_text(ns)),
{
    let whole = decimal::decimal((ns / 1_000_000_000) as nat);
    let f = (ns % 1_000_000_000) as nat;
    decimal::lemma_decimal((ns / 1_000_000_000) as nat);
    assert(forall|i: int| 0 <= i < whole.len() ==> decimal::is_digit(#[trigger] whole[i]));
    if f != 0 {
        let digits = decimal::fraction_digits(f, 100_000_000);
        decimal::lemma_fraction_reads_back(f, 100_000_000);
        let s = decimal::seconds_text(ns);
        assert(s == whole.push('.') + digits);
        assert forall|i: int| 0 <= i < s.len() implies (#[trigger] s[i] == '.'
            || decimal::is_digit(s[i])) by {
            if i < whole.len() {
                assert(s[i] == whole[i]);
            } else if i > whole.len() {
                assert(s[i] == digits[i - whole.len() - 1]);
                assert(decimal::is_digit(digits[i - whole.len() - 1]));
            }
        }
    }
}

/// A log line about a black stretch: some words, and then three numbers under
/// their names.
pub open spec fn black_line(words: Seq<char>, start: int, end: int, duration: int) -> Seq<char> {
    words + "black_start:"@ + decimal::seconds_text(start) + " black_end:"@
        + decimal::seconds_text(end) + " black_duration:"@ + decimal::seconds_text(duration)
}

/// The number under a name is the one that follows it: where `key` first
/// occurs at `at`, and a number follows.
proof fn lemma_field(s: Seq<char>, key: Seq<char>, at: int, ns: int, after: Seq<char>)
    requires
        text::first_at(s, key, at),
        0 <= ns <= i64::MAX,
        s.skip(at + key.len()) == decimal::seconds_text(ns) + after,
        after.len() > 0 ==> after[0] != '.' && !decimal::is_digit(after[0]),
    ensures
        field(s, key) == Some(ns),
{
    text::lemma_find_is(s, key, at);
    lemma_seconds_are_a_number(ns);
    lemma_leading_number(decimal::seconds_text(ns), after);
    decimal::law_seconds_read_back(ns);
}

/// The three named numbers of a line.
spec fn black_fields(start: int, end: int, duration: int) -> Seq<char> {
    "black_start:"@ + decimal::seconds_text(start) + " black_end:"@ + decimal::seconds_text(end)
        + " black_duration:"@ + decimal::seconds_text(duration)
}

/// Where the second name begins.
spec fn second_name(start: int) -> int {
    12 + decimal::seconds_text(start).len() as int + 1
}

/// Where the third name begins.
spec fn third_name(start: int, end: int) -> int {
    second_name(start) + 10 + decimal::seconds_text(end).len() as int + 1
}

/// Before the third name, the letter b stands at the start of the first two
/// names alone, and these go on differently.
proof fn lemma_letters(start: int, end: int, duration: int)
    requires
        0 <= start,
        0 <= end,
    ensures
        ({
            let s = black_fields(start, end, duration);
            let (p, q) = (second_name(start), third_name(start, end));
            &&& s.len() > q
            &&& forall|j: int| 0 <= j < q && j != 0 && j != p ==> #[trigger] s[j] != 'b'
            &&& s[6] == 's'
            &&& s[p + 6] == 'e'
        }),
{
    reveal_strlit("black_start:");
    reveal_strlit(" black_end:");
    reveal_strlit(" black_duration:");
    let s = black_fields(start, end, duration);
    let (p, q) = (second_name(start), third_name(start, end));
    let (k1, m2, m3) = ("black_start:"@, " black_end:"@, " black_duration:"@);
    let a = decimal::seconds_text(start);
    let b = decimal::seconds_text(end);
    lemma_seconds_are_a_number(start);
    lemma_seconds_are_a_number(end);
    assert forall|j: int| 0 <= j < q && j != 0 && j != p implies #[trigger] s[j] != 'b' by {
        if j < 12 {
            assert(s[j] == k1[j]);
        } else if j < p - 1 {
            assert(s[j] == a[j - 12]);
        } else if j < p + 10 {
            assert(s[j] == m2[j - p + 1]);
        } else if j < q - 1 {
            assert(s[j] == b[j - p - 10]);
        } else {
            assert(s[j] == m3[0]);
        }
    }
    assert(s[6] == k1[6]);
    assert(s[p + 6] == m2[7]);
}

/// The three names are found where they stand.
proof fn lemma_names_are_found(start: int, end: int, duration: int)
    requires
        0 <= start,
        0 <= end,
    ensures
        ({
            let s = black_fields(start, end, duration);
            &&& text::first_at(s, "black_start:"@, 0)
            &&& text::first_at(s, "black_end:"@, second_name(start))
            &&& text::first_at(s, "black_duration:"@, third_name(start, end))
        }),
{
    let s = black_fields(start, end, duration);
    let (p, q) = (second_name(start), third_name(start, end));
    lemma_letters(start, end, duration);
    reveal_strlit("black_start:");
    reveal_strlit("black_end:");
    reveal_strlit("black_duration:");
    reveal_strlit(" black_end:");
    reveal_strlit(" black_duration:");
    let (k1, k2, k3) = ("black_start:"@, "black_end:"@, "black_duration:"@);
    assert(s.subrange(0, 12) =~= k1);
    assert(s.subrange(p, p + 10) =~= k2);
    assert(s.subrange(q, q + 15) =~= k3);
    assert forall|j: int| #[trigger] text::occurs_at(s, k2, j) implies p <= j by {
        let part = s.subrange(j, j + 10);
        assert(part[0] == s[j] && part[6] == s[j + 6]);
        assert(part[0] == 'b' && part[6] == 'e');
    }
    assert forall|j: int| #[trigger] text::occurs_at(s, k3, j) implies q <= j by {
        let part = s.subrange(j, j + 15);
        assert(part[0] == s[j] && part[6] == s[j + 6]);
        assert(part[0] == 'b' && part[6] == 'd');
    }
}

/// A log line about a black stretch is read as what it says, with its times
/// taken from the seek position on.
pub proof fn law_black_line_is_read(
    words: Seq<char>,
    start: i64,
    end: i64,
    duration: i64,
    offset: int,
)
    requires
        0 <= start,
        0 <= end,
        0 <= duration,
        forall|j: int| #[trigger]
            text::occurs_at(
                black_line(words, start as int, end as int, duration as int),
                "black_start:"@,
                j,
            ) ==> words.len() <= j,
    ensures
        line_segment(black_line(words, start as int, end as int, duration as int), offset) == Some(
            BlackSegment {
                start_ns: time::clamped(start + offset) as i64,
                end_ns: time::clamped(end + offset) as i64,
                duration_ns: duration,
            },
        ),
{
    let line = black_line(words, start as int, end as int, duration as int);
    let rest = black_fields(start as int, end as int, duration as int);
    let (k1, k2, k3) = ("black_start:"@, "black_end:"@, "black_duration:"@);
    let (m2, m3) = (" black_end:"@, " black_duration:"@);
    let a = decimal::seconds_text(start as int);
    let b = decimal::seconds_text(end as int);
    let c = decimal::seconds_text(duration as int);
    let (p, q) = (second_name(start as int), third_name(start as int, end as int));
    let w = words.len() as int;
    assert(line =~= words + rest);
    assert(line.skip(w) =~= rest);
    lemma_names_are_found(start as int, end as int, duration as int);
    reveal_strlit("black_start:");
    reveal_strlit("black_end:");
    reveal_strlit("black_duration:");
    reveal_strlit(" black_end:");
    reveal_strlit(" black_duration:");
    assert(line.subrange(w, w + 12) =~= rest.subrange(0, 12));
    assert(text::occurs_at(line, k1, w));
    text::lemma_find_is(line, k1, w);
    assert(rest.skip(12) =~= a + (m2 + b + m3 + c));
    assert((m2 + b + m3 + c)[0] == m2[0]);
    lemma_field(rest, k1, 0, start as int, m2 + b + m3 + c);
    assert(rest.skip(p + 10) =~= b + (m3 + c));
    assert((m3 + c)[0] == m3[0]);
    lemma_field(rest, k2, p, end as int, m3 + c);
    assert(rest.skip(q + 15) =~= c + Seq::<char>::empty());
    lemma_field(rest, k3, q, duration as int, Seq::empty());
}

/// Every line of a log counts, in the order of the log: the stretches of a log
/// are that of its first line, if it reports one, and those of what follows.
pub proof fn law_every_line_counts(line: Seq<char>, rest: Seq<char>, offset: int)
    requires
        forall|i: int| 0 <= i < line.len() ==> line[i] != '\n',
        line.len() > 0 ==> line[line.len() - 1] != '\r',
    ensures
        log_segments(line + seq!['\n'] + rest, offset) == (match line_segment(line, offset) {
            Some(segment) => seq![segment] + log_segments(rest, offset),
            None => log_segments(rest, offset),
        }),
{
    let all = line + seq!['\n'] + rest;
    text::law_lines_end_at_line_feeds(line, rest);
    assert(text::lines_of(all) =~= seq![line] + text::lines_of(rest));
    lemma_first_line(line, text::lines_of(rest), offset);
}

/// The stretch of the first of several lines comes first.
proof fn lemma_first_line(line: Seq<char>, rest: Seq<Seq<char>>, offset: int)
    ensures
        line_segments(seq![line] + rest, offset) == (match line_segment(line, offset) {
            Some(segment) => seq![segment] + line_segments(rest, offset),
            None => line_segments(rest, offset),
        }),
    decreases rest.len(),
{
    let all = seq![line] + rest;
    if rest.len() == 0 {
        assert(all.drop_last() =~= Seq::empty());
        assert(all.last() == line);
        assert(line_segments(Seq::empty(), offset) =~= Seq::empty());
        match line_segment(line, offset) {
            Some(segment) => {
                assert(line_segments(all, offset) =~= seq![segment] + line_segments(rest, offset));
            },
            None => {
                assert(line_segments(all, offset) =~= line_segments(rest, offset));
            },
        }
    } else {
        let less = rest.drop_last();
        lemma_first_line(line, less, offset);
        assert(all.drop_last() =~= seq![line] + less);
        assert(all.last() == rest.last());
        match (line_segment(line, offset), line_segment(rest.last(), offset)) {
            (Some(a), Some(b)) => {
                assert((seq![a] + line_segments(less, offset)).push(b) =~= seq![a] + line_segments(
                    less,
                    offset,
                ).push(b));
            },
            _ => {},
        }
    }
}

/// A last line without an ending counts too.
pub proof fn law_last_line_counts(line: Seq<char>, offset: int)
    requires
        line.len() > 0,
        forall|i: int| 0 <= i < line.len() ==> line[i] != '\n',
    ensures
        log_segments(line, offset) == (match line_segment(line, offset) {
            Some(segment) => seq![segment],
            None => Seq::empty(),
        }),
        log_segments(Seq::empty(), offset).len() == 0,
{
    text::law_last_line_needs_no_line_feed(line);
    assert(seq![line].drop_last() =~= Seq::empty());
    assert(line_segments(Seq::empty(), offset) =~= Seq::empty());
    match line_segment(line, offset) {
        Some(segment) => {
            assert(line_segments(seq![line], offset) =~= seq![segment]);
        },
        None => {},
    }
}

/// A line that does not name the start of a black stretch reports none.
pub proof fn law_other_lines_report_nothing(line: Seq<char>, offset: int)
    requires
        forall|j: int|
            0 <= j <= line.len() - 12 ==> #[trigger] line.subrange(j, j + 12) != "black_start:"@,
    ensures
        line_segment(line, offset) is None,
{
    reveal_strlit("black_start:");
    text::law_search_finds_the_first(line, "black_start:"@);
    match text::find(line, "black_start:"@) {
        Some(i) => {
            assert(line.subrange(i, i + 12) == "black_start:"@);
        },
        None => {},
    }
}

} // verus!
