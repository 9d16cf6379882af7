//! Episode numbers in file names.

use vstd::prelude::*;

use crate::{decimal, text};

verus! {

/// Where the run of digits that begins at `start` ends.
pub open spec fn digits_end(s: Seq<char>, start: int) -> int
    decreases s.len() - start,
{
    if 0 <= start < s.len() && decimal::is_digit(s[start]) {
        digits_end(s, start + 1)
    } else {
        start
    }
}

/// The number that begins at `start`, and where it ends. There is none where no
/// digit stands there, or where it does not fit into 32 bits.
pub open spec fn uint_at(s: Seq<char>, start: int) -> Option<(u32, int)> {
    let end = digits_end(s, start);
    let number = decimal::value(s.subrange(start, end));
    if end == start || number > u32::MAX {
        None
    } else {
        Some((number as u32, end))
    }
}

/// A run of digits ends where it is found to end.
proof fn lemma_digits_end(s: Seq<char>, start: int, end: int)
    requires
        0 <= start <= end <= s.len(),
        forall|j: int| start <= j < end ==> decimal::is_digit(#[trigger] s[j]),
        end < s.len() ==> !decimal::is_digit(s[end]),
    ensures
        digits_end(s, start) == end,
    decreases end - start,
{
    if start < end {
        assert(decimal::is_digit(s[start]));
        lemma_digits_end(s, start + 1, end);
    }
}

/// Reads the number that begins at `start`. There is none at or past the end.
pub fn read_uint(chars: &Vec<char>, start: usize) -> (number: Option<(u32, usize)>)
    ensures
        match number {
            Some((n, end)) => uint_at(chars@, start as int) == Some((n, end as int)) && start < end
                <= chars@.len(),
            None => uint_at(chars@, start as int) is None,
        },
{
    if start >= chars.len() {
        return None;
    }
    let mut end: usize = start;
    while end < chars.len() && '0' <= chars[end] && chars[end] <= '9'
        invariant
            start <= end <= chars@.len(),
            forall|j: int| start <= j < end ==> decimal::is_digit(#[trigger] chars@[j]),
        decreases chars@.len() - end,
    {
        end = end + 1;
    }
    proof {
        lemma_digits_end(chars@, start as int, end as int);
    }
    if end == start {
        return None;
    }
    let ghost digits = chars@.subrange(start as int, end as int);
    let parsed: Option<u32> = decimal::parse_u32(chars, start, end);
    proof {
        assert(decimal::all_digits(digits)) by {
            assert forall|j: int| 0 <= j < digits.len() implies decimal::is_digit(
                #[trigger] digits[j],
            ) by {
                assert(digits[j] == chars@[start + j]);
            }
        }
        assert(decimal::is_digit(digits[0]));
        decimal::lemma_value_grows(digits, digits.len() as int);
    }
    match parsed {
        Some(n) => Some((n, end)),
        None => None,
    }
}

/// A season mark begins at `i`: the letter S and a digit.
pub open spec fn season_mark_at(s: Seq<char>, i: int) -> bool {
    &&& 0 <= i < s.len() - 1
    &&& s[i] == 'S' || s[i] == 's'
    &&& decimal::is_digit(s[i + 1])
}

/// An episode mark begins at `i`: the letter E and a digit.
pub open spec fn episode_mark_at(s: Seq<char>, i: int) -> bool {
    &&& 0 <= i < s.len() - 1
    &&& s[i] == 'E' || s[i] == 'e'
    &&& decimal::is_digit(s[i + 1])
}

/// What looking for the episode number at `i` tells.
pub enum Sighting {
    /// The number of an episode of the season.
    Found(u32),
    /// A number too large to read: the name is given up.
    Unreadable,
    /// Nothing that counts: look further on.
    Nothing,
}

/// What stands at `i`: a season mark with its number, and right after it an
/// episode mark with its own, name an episode; it counts if the season is the
/// wanted one.
pub open spec fn sighted(s: Seq<char>, i: int, season: u32) -> Sighting {
    if !season_mark_at(s, i) {
        Sighting::Nothing
    } else {
        match uint_at(s, i + 1) {
            None => Sighting::Unreadable,
            Some((found, after)) => if !episode_mark_at(s, after) {
                Sighting::Nothing
            } else {
                match uint_at(s, after + 1) {
                    None => Sighting::Unreadable,
                    Some((episode, _)) => if found == season {
                        Sighting::Found(episode)
                    } else {
                        Sighting::Nothing
                    },
                }
            },
        }
    }
}

/// The episode number of a name: that of the first sighting from `i` on which
/// is not nothing.
pub open spec fn episode_number(s: Seq<char>, i: int, season: u32) -> Option<u32>
    decreases s.len() - i,
{
    if i >= s.len() {
        None
    } else {
        match sighted(s, i, season) {
            Sighting::Found(episode) => Some(episode),
            Sighting::Unreadable => None,
            Sighting::Nothing => episode_number(s, i + 1, season),
        }
    }
}

/// Extracts the episode number from a file name that holds `S##E##`, in either
/// case of the letters.
///
/// Only a mark of the expected season counts, so that `S02E01` is not picked up
/// in a scan of season 1 of a mixed directory.
pub fn parse_episode_number(stem: &str, expected_season: u32) -> (number: Option<u32>)
    ensures
        number == episode_number(stem@, 0, expected_season),
{
    let chars: Vec<char> = text::chars_of(stem);
    let mut i: usize = 0;
    while i < chars.len()
        invariant
            i <= chars@.len(),
            chars@ == stem@,
            episode_number(chars@, 0, expected_season) == episode_number(
                chars@,
                i as int,
                expected_season,
            ),
        decreases chars@.len() - i,
    {
        if i + 1 < chars.len() && (chars[i] == 'S' || chars[i] == 's') && '0' <= chars[i + 1]
            && chars[i + 1] <= '9' {
            let (season, after) = match read_uint(&chars, i + 1) {
                Some(read) => read,
                None => return None,
            };
            if after < chars.len() && (chars[after] == 'E' || chars[after] == 'e') && after + 1
                < chars.len() && '0' <= chars[after + 1] && chars[after + 1] <= '9' {
                let (episode, _end) = match read_uint(&chars, after + 1) {
                    Some(read) => read,
                    None => return None,
                };
                if season == expected_season {
                    return Some(episode);
                }
            }
        }
        i = i + 1;
    }
    None
}

/// Where nothing counts before `i`, a search from the start is one from `i`.
proof fn lemma_nothing_before(s: Seq<char>, from: int, i: int, season: u32)
    requires
        0 <= from <= i <= s.len(),
        forall|j: int| from <= j < i ==> sighted(s, j, season) is Nothing,
    ensures
        episode_number(s, from, season) == episode_number(s, i, season),
    decreases i - from,
{
    if from < i {
        lemma_nothing_before(s, from + 1, i, season);
    }
}

/// A name that holds the mark of an episode is that episode's name in a scan of
/// its season, if nothing before the mark counts. In a scan of another season it
/// is no episode's name, if nothing after the mark counts either.
pub proof fn law_marked_name_is_recognized(
    before: Seq<char>,
    s_letter: char,
    season: u32,
    e_letter: char,
    episode: u32,
    after: Seq<char>,
    scanned: u32,
)
    requires
        s_letter == 'S' || s_letter == 's',
        e_letter == 'E' || e_letter == 'e',
        after.len() > 0 ==> !decimal::is_digit(after[0]),
        ({
            let name = marked_name(before, s_letter, season, e_letter, episode, after);
            &&& forall|i: int| 0 <= i < before.len() ==> sighted(name, i, scanned) is Nothing
            &&& scanned != season ==> forall|i: int|
                name.len() - after.len() <= i < name.len() ==> sighted(name, i, scanned) is Nothing
        }),
    ensures
        episode_number(
            marked_name(before, s_letter, season, e_letter, episode, after),
            0,
            scanned,
        ) == (if scanned == season {
            Some(episode)
        } else {
            None
        }),
{
    let name = marked_name(before, s_letter, season, e_letter, episode, after);
    let s = decimal::padded(season as nat);
    let n = decimal::padded(episode as nat);
    decimal::lemma_padded(season as nat);
    decimal::lemma_padded(episode as nat);
    let at = before.len() as int;
    let first = at + 1 + s.len();
    let end = first + 1 + n.len();
    assert(name.subrange(at + 1, first) =~= s);
    assert(name.subrange(first + 1, end) =~= n);
    assert forall|j: int| at + 1 <= j < first implies decimal::is_digit(#[trigger] name[j]) by {
        assert(name[j] == s[j - at - 1]);
    }
    assert forall|j: int| first + 1 <= j < end implies decimal::is_digit(#[trigger] name[j]) by {
        assert(name[j] == n[j - first - 1]);
    }
    assert(name[first] == e_letter);
    if end < name.len() {
        assert(name[end] == after[0]);
    }
    lemma_digits_end(name, at + 1, first);
    lemma_digits_end(name, first + 1, end);
    assert(name[at] == s_letter);
    assert(decimal::is_digit(name[at + 1]));
    assert(decimal::is_digit(name[first + 1]));
    lemma_nothing_before(name, 0, at, scanned);
    if scanned == season {
        assert(sighted(name, at, scanned) == Sighting::Found(episode));
    } else {
        assert forall|j: int| 0 <= j < name.len() implies sighted(name, j, scanned) is Nothing by {
            if at < j < end {
                assert(decimal::is_digit(name[j]) || j == first);
            }
        }
        lemma_nothing_before(name, 0, name.len() as int, scanned);
    }
}

/// A file name with the mark of an episode in it.
pub open spec fn marked_name(
    before: Seq<char>,
    s_letter: char,
    season: u32,
    e_letter: char,
    episode: u32,
    after: Seq<char>,
) -> Seq<char> {
    before + seq![s_letter] + decimal::padded(season as nat) + seq![e_letter] + decimal::padded(
        episode as nat,
    ) + after
}

/// Where a run of digits ends does not depend on what stands before it.
proof fn lemma_digits_end_moves(before: Seq<char>, s: Seq<char>, i: int)
    requires
        0 <= i,
    ensures
        digits_end(before + s, before.len() + i) == before.len() + digits_end(s, i),
        i <= digits_end(s, i),
        i <= s.len() ==> digits_end(s, i) <= s.len(),
    decreases s.len() - i,
{
    let all = before + s;
    if i < s.len() {
        assert(all[before.len() + i] == s[i]);
        if decimal::is_digit(s[i]) {
            lemma_digits_end_moves(before, s, i + 1);
        }
    }
}

/// A number does not depend on what stands before it.
proof fn lemma_uint_moves(before: Seq<char>, s: Seq<char>, i: int)
    requires
        0 <= i <= s.len(),
    ensures
        uint_at(before + s, before.len() + i) == (match uint_at(s, i) {
            Some((n, end)) => Some((n, before.len() + end)),
            None => None,
        }),
        uint_at(s, i) matches Some((_, end)) ==> i < end <= s.len(),
{
    let all = before + s;
    lemma_digits_end_moves(before, s, i);
    let end = digits_end(s, i);
    assert(all.subrange(before.len() + i, before.len() + end) =~= s.subrange(i, end));
}

/// A search from some place on does not depend on what stands before it.
proof fn lemma_search_moves(before: Seq<char>, s: Seq<char>, i: int, season: u32)
    requires
        0 <= i,
    ensures
        episode_number(before + s, before.len() + i, season) == episode_number(s, i, season),
    decreases s.len() - i,
{
    let all = before + s;
    let at = before.len() + i;
    if i < s.len() {
        lemma_search_moves(before, s, i + 1, season);
        assert(all[at] == s[i]);
        assert(season_mark_at(all, at) == season_mark_at(s, i)) by {
            if i + 1 < s.len() {
                assert(all[at + 1] == s[i + 1]);
            }
        }
        if season_mark_at(s, i) {
            lemma_uint_moves(before, s, i + 1);
            if uint_at(s, i + 1) is Some {
                let end = (uint_at(s, i + 1)->0).1;
                if end < s.len() {
                    assert(all[before.len() + end] == s[end]);
                }
                if end + 1 < s.len() {
                    assert(all[before.len() + end + 1] == s[end + 1]);
                }
                assert(episode_mark_at(all, before.len() + end) == episode_mark_at(s, end));
                if episode_mark_at(s, end) {
                    lemma_uint_moves(before, s, end + 1);
                }
            }
        }
    }
}

/// A run of digits that another character ends.
pub open spec fn is_digit_run(digits: Seq<char>, after: Seq<char>) -> bool {
    &&& digits.len() > 0
    &&& forall|i: int| 0 <= i < digits.len() ==> '0' <= #[trigger] digits[i] <= '9'
    &&& after.len() > 0 ==> !('0' <= after[0] <= '9')
}

/// The first mark of a name counts. Where no letter S stands before it, a mark
/// made of the letter S and a season, the letter E and an episode gives the
/// number of the episode in a scan of that season; in a scan of another season it
/// is passed over, and what follows it counts.
pub proof fn law_first_mark_counts(
    before: Seq<char>,
    s: char,
    season_digits: Seq<char>,
    e: char,
    episode_digits: Seq<char>,
    after: Seq<char>,
    season: u32,
)
    requires
        forall|i: int| 0 <= i < before.len() ==> before[i] != 'S' && before[i] != 's',
        s == 'S' || s == 's',
        e == 'E' || e == 'e',
        is_digit_run(season_digits, seq![e]),
        is_digit_run(episode_digits, after),
        decimal::value(season_digits) <= u32::MAX,
        decimal::value(episode_digits) <= u32::MAX,
    ensures
        ({
            let name = before + seq![s] + season_digits + seq![e] + episode_digits + after;
            episode_number(name, 0, season) == (if decimal::value(season_digits) == season {
                Some(decimal::value(episode_digits) as u32)
            } else {
                episode_number(after, 0, season)
            })
        }),
{
    let name = before + seq![s] + season_digits + seq![e] + episode_digits + after;
    let at = before.len() as int;
    let first = at + 1 + season_digits.len();
    let end = first + 1 + episode_digits.len();
    assert(name.subrange(at + 1, first) =~= season_digits);
    assert(name.subrange(first + 1, end) =~= episode_digits);
    assert forall|j: int| 0 <= j < at implies sighted(name, j, season) is Nothing by {
        assert(name[j] == before[j]);
    }
    lemma_nothing_before(name, 0, at, season);
    assert forall|j: int| at + 1 <= j < first implies decimal::is_digit(#[trigger] name[j]) by {
        assert(name[j] == season_digits[j - at - 1]);
    }
    assert forall|j: int| first + 1 <= j < end implies decimal::is_digit(#[trigger] name[j]) by {
        assert(name[j] == episode_digits[j - first - 1]);
    }
    assert(name[at] == s);
    assert(name[first] == e);
    if end < name.len() {
        assert(name[end] == after[0]);
    }
    lemma_digits_end(name, at + 1, first);
    lemma_digits_end(name, first + 1, end);
    assert(decimal::is_digit(name[at + 1]));
    assert(decimal::is_digit(name[first + 1]));
    assert(decimal::all_digits(season_digits));
    assert(decimal::all_digits(episode_digits));
    decimal::lemma_value_grows(season_digits, season_digits.len() as int);
    decimal::lemma_value_grows(episode_digits, episode_digits.len() as int);
    if decimal::value(season_digits) != season {
        assert forall|j: int| at <= j < end implies sighted(name, j, season) is Nothing by {
            if j > at {
                assert(decimal::is_digit(name[j]) || j == first);
            }
        }
        lemma_nothing_before(name, at, end, season);
        let front = name.take(end);
        assert(name =~= front + after);
        lemma_search_moves(front, after, 0, season);
    }
}

/// A name in which no letter S is followed by a digit has no number.
pub proof fn law_unmarked_name_has_no_number(name: Seq<char>, season: u32)
    requires
        forall|i: int|
            0 <= i < name.len() - 1 && (#[trigger] name[i] == 'S' || name[i] == 's') ==> !('0'
                <= name[i + 1] <= '9'),
    ensures
        episode_number(name, 0, season) is None,
{
    assert forall|j: int| 0 <= j < name.len() implies sighted(name, j, season) is Nothing by {
        if j < name.len() - 1 && (name[j] == 'S' || name[j] == 's') {
            assert(!('0' <= name[j + 1] <= '9'));
        }
    }
    lemma_nothing_before(name, 0, name.len() as int, season);
}

/// A number is the run of digits that stands at a place, up to the first other
/// character.
pub proof fn law_number_is_the_run_of_digits(
    before: Seq<char>,
    digits: Seq<char>,
    after: Seq<char>,
)
    requires
        is_digit_run(digits, after),
    ensures
        uint_at(before + digits + after, before.len() as int) == (if decimal::value(digits)
            <= u32::MAX {
            Some((decimal::value(digits) as u32, (before.len() + digits.len()) as int))
        } else {
            None
        }),
{
    let s = before + digits + after;
    let at = before.len() as int;
    let end = at + digits.len();
    assert forall|j: int| at <= j < end implies decimal::is_digit(#[trigger] s[j]) by {
        assert(s[j] == digits[j - at]);
    }
    if end < s.len() {
        assert(s[end] == after[0]);
    }
    lemma_digits_end(s, at, end);
    assert(s.subrange(at, end) =~= digits);
}

} // verus!
