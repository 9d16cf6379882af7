//! Strings as sequences of characters: searching, splitting and decimals.

use vstd::prelude::*;

verus! {

/// `String::push` appends the given character to the end of the string.
pub assume_specification[ String::push ](string: &mut String, ch: char)
    ensures
        final(string)@ == old(string)@.push(ch),
;

/// The characters of a string.
pub fn chars_of(s: &str) -> (chars: Vec<char>)
    ensures
        chars@ == s@,
{
    let mut chars: Vec<char> = Vec::new();
    for c in iter: s.chars()
        invariant
            iter.seq() == s@,
            chars@ == s@.take(iter.index() as int),
    {
        chars.push(c);
        assert(s@.take(iter.index() + 1) =~= s@.take(iter.index() as int).push(c));
    }
    assert(s@.take(s@.len() as int) =~= s@);
    chars
}

/// The string of the characters from `start` up to `end`.
pub fn substring(chars: &Vec<char>, start: usize, end: usize) -> (s: String)
    requires
        start <= end <= chars@.len(),
    ensures
        s@ == chars@.subrange(start as int, end as int),
{
    let mut s: String = String::new();
    let mut i: usize = start;
    while i < end
        invariant
            start <= i <= end <= chars@.len(),
            s@ == chars@.subrange(start as int, i as int),
        decreases end - i,
    {
        s.push(chars[i]);
        assert(chars@.subrange(start as int, i + 1) =~= chars@.subrange(
            start as int,
            i as int,
        ).push(chars@[i as int]));
        i = i + 1;
    }
    s
}

/// The string of the given characters.
pub fn string_of(chars: &Vec<char>) -> (s: String)
    ensures
        s@ == chars@,
{
    let s: String = substring(chars, 0, chars.len());
    assert(chars@.subrange(0, chars@.len() as int) =~= chars@);
    s
}

/// `needle` occurs in `hay` at index `i`.
pub open spec fn occurs_at(hay: Seq<char>, needle: Seq<char>, i: int) -> bool {
    &&& 0 <= i <= hay.len() - needle.len()
    &&& hay.subrange(i, i + needle.len()) == needle
}

/// `i` is the first index at which `needle` occurs in `hay`.
pub open spec fn first_at(hay: Seq<char>, needle: Seq<char>, i: int) -> bool {
    &&& occurs_at(hay, needle, i)
    &&& forall|j: int| #[trigger] occurs_at(hay, needle, j) ==> i <= j
}

/// `i` is the last index at which `needle` occurs in `hay`.
pub open spec fn last_at(hay: Seq<char>, needle: Seq<char>, i: int) -> bool {
    &&& occurs_at(hay, needle, i)
    &&& forall|j: int| #[trigger] occurs_at(hay, needle, j) ==> j <= i
}

/// The first index at which `needle` occurs in `hay`, if any.
pub open spec fn find(hay: Seq<char>, needle: Seq<char>) -> Option<int> {
    if exists|i: int| first_at(hay, needle, i) {
        Some(choose|i: int| first_at(hay, needle, i))
    } else {
        None
    }
}

/// The last index at which `needle` occurs in `hay`, if any.
pub open spec fn rfind(hay: Seq<char>, needle: Seq<char>) -> Option<int> {
    if exists|i: int| last_at(hay, needle, i) {
        Some(choose|i: int| last_at(hay, needle, i))
    } else {
        None
    }
}

/// The first occurrence is what [`find`] gives.
pub proof fn lemma_find_is(hay: Seq<char>, needle: Seq<char>, i: int)
    requires
        first_at(hay, needle, i),
    ensures
        find(hay, needle) == Some(i),
{
    let j = choose|j: int| first_at(hay, needle, j);
    assert(first_at(hay, needle, j));
    assert(occurs_at(hay, needle, i) && occurs_at(hay, needle, j));
}

/// The last occurrence is what [`rfind`] gives.
pub proof fn lemma_rfind_is(hay: Seq<char>, needle: Seq<char>, i: int)
    requires
        last_at(hay, needle, i),
    ensures
        rfind(hay, needle) == Some(i),
{
    let j = choose|j: int| last_at(hay, needle, j);
    assert(last_at(hay, needle, j));
    assert(occurs_at(hay, needle, i) && occurs_at(hay, needle, j));
}

/// Tests whether `needle` occurs in `hay` at `i`.
pub fn matches_at(hay: &Vec<char>, needle: &Vec<char>, i: usize) -> (found: bool)
    requires
        i <= hay@.len(),
    ensures
        found == occurs_at(hay@, needle@, i as int),
{
    if needle.len() > hay.len() - i {
        return false;
    }
    let mut k: usize = 0;
    while k < needle.len()
        invariant
            k <= needle@.len(),
            i + needle@.len() <= hay@.len() <= usize::MAX,
            forall|j: int| 0 <= j < k ==> #[trigger] needle@[j] == hay@[i + j],
        decreases needle@.len() - k,
    {
        if hay[i + k] != needle[k] {
            proof {
                assert(hay@.subrange(i as int, i + needle@.len())[k as int] != needle@[k as int]);
            }
            return false;
        }
        k = k + 1;
    }
    assert(hay@.subrange(i as int, i + needle@.len()) =~= needle@);
    true
}

/// Tests whether two strings are the same.
pub fn same(a: &str, b: &str) -> (equal: bool)
    ensures
        equal == (a@ == b@),
{
    let left: Vec<char> = chars_of(a);
    let right: Vec<char> = chars_of(b);
    if left.len() != right.len() {
        return false;
    }
    assert(left@.subrange(0, left@.len() as int) =~= left@);
    matches_at(&left, &right, 0)
}

/// The first index at or after `from` at which `needle` occurs.
pub fn find_from(hay: &Vec<char>, needle: &Vec<char>, from: usize) -> (index: Option<usize>)
    requires
        from <= hay@.len(),
    ensures
        match index {
            Some(i) => {
                &&& from <= i
                &&& occurs_at(hay@, needle@, i as int)
                &&& forall|j: int| from <= j < i ==> !#[trigger] occurs_at(hay@, needle@, j)
            },
            None => forall|j: int| from <= j ==> !#[trigger] occurs_at(hay@, needle@, j),
        },
{
    let mut i: usize = from;
    loop
        invariant
            from <= i <= hay@.len(),
            forall|j: int| from <= j < i ==> !#[trigger] occurs_at(hay@, needle@, j),
        decreases hay@.len() - i,
    {
        if matches_at(hay, needle, i) {
            return Some(i);
        }
        if i == hay.len() {
            return None;
        }
        i = i + 1;
    }
}

/// A search from some index on finds what a search of the rest finds.
pub proof fn lemma_find_in_rest(
    hay: Seq<char>,
    needle: Seq<char>,
    from: int,
    found: Option<usize>,
)
    requires
        0 <= from <= hay.len(),
        match found {
            Some(i) => {
                &&& from <= i
                &&& occurs_at(hay, needle, i as int)
                &&& forall|j: int| from <= j < i ==> !#[trigger] occurs_at(hay, needle, j)
            },
            None => forall|j: int| from <= j ==> !#[trigger] occurs_at(hay, needle, j),
        },
    ensures
        match found {
            Some(i) => find(hay.skip(from), needle) == Some(i - from),
            None => find(hay.skip(from), needle) is None,
        },
{
    let rest = hay.skip(from);
    assert forall|j: int| 0 <= j implies #[trigger] occurs_at(rest, needle, j) == occurs_at(
        hay,
        needle,
        from + j,
    ) by {
        if from + j + needle.len() <= hay.len() {
            assert(rest.subrange(j, j + needle.len()) =~= hay.subrange(
                from + j,
                from + j + needle.len(),
            ));
        }
    }
    match found {
        Some(i) => {
            assert(occurs_at(rest, needle, i - from));
            assert forall|j: int| #[trigger] occurs_at(rest, needle, j) implies i - from <= j by {
                assert(occurs_at(hay, needle, from + j));
            }
            lemma_find_is(rest, needle, i - from);
        },
        None => {
            assert forall|j: int| !first_at(rest, needle, j) by {
                if occurs_at(rest, needle, j) {
                    assert(occurs_at(hay, needle, from + j));
                }
            }
        },
    }
}

/// Computes [`find`].
pub fn find_first(hay: &Vec<char>, needle: &Vec<char>) -> (index: Option<usize>)
    ensures
        match index {
            Some(i) => find(hay@, needle@) == Some(i as int) && first_at(hay@, needle@, i as int),
            None => find(hay@, needle@) is None,
        },
{
    let found: Option<usize> = find_from(hay, needle, 0);
    proof {
        match found {
            Some(i) => {
                lemma_find_is(hay@, needle@, i as int);
            },
            None => {
                assert forall|j: int| !first_at(hay@, needle@, j) by {
                    assert(!occurs_at(hay@, needle@, j));
                }
            },
        }
    }
    found
}

/// Computes [`rfind`].
pub fn find_last(hay: &Vec<char>, needle: &Vec<char>) -> (index: Option<usize>)
    ensures
        match index {
            Some(i) => rfind(hay@, needle@) == Some(i as int) && last_at(hay@, needle@, i as int),
            None => rfind(hay@, needle@) is None,
        },
{
    let mut i: usize = hay.len();
    loop
        invariant
            i <= hay@.len(),
            forall|j: int| i < j ==> !#[trigger] occurs_at(hay@, needle@, j),
        decreases i,
    {
        if matches_at(hay, needle, i) {
            proof {
                lemma_rfind_is(hay@, needle@, i as int);
            }
            return Some(i);
        }
        if i == 0 {
            proof {
                assert forall|j: int| !last_at(hay@, needle@, j) by {
                    assert(!occurs_at(hay@, needle@, j));
                }
            }
            return None;
        }
        i = i - 1;
    }
}

/// `s` without a carriage return at its end.
pub open spec fn without_return(s: Seq<char>) -> Seq<char> {
    if s.len() > 0 && s.last() == '\r' {
        s.drop_last()
    } else {
        s
    }
}

/// The lines of a text. A line ends at a line feed, or at a carriage return
/// and line feed; the last line may lack its ending.
pub open spec fn lines_of(s: Seq<char>) -> Seq<Seq<char>>
    decreases s.len(),
{
    if s.len() == 0 {
        Seq::empty()
    } else {
        proof {
            lemma_line_end(s, 0);
        }
        match line_end(s, 0) {
            Some(k) => seq![without_return(s.take(k))] + lines_of(s.skip(k + 1)),
            None => seq![s],
        }
    }
}

/// The first line feed at or after index `from`, if any.
pub open spec fn line_end(s: Seq<char>, from: int) -> Option<int>
    decreases s.len() - from,
{
    if from < 0 || from >= s.len() {
        None
    } else if s[from] == '\n' {
        Some(from)
    } else {
        line_end(s, from + 1)
    }
}

/// A line feed that [`line_end`] finds is one, and is the first.
pub proof fn lemma_line_end(s: Seq<char>, from: int)
    requires
        0 <= from,
    ensures
        match line_end(s, from) {
            Some(k) => {
                &&& from <= k < s.len()
                &&& s[k] == '\n'
                &&& forall|j: int| from <= j < k ==> s[j] != '\n'
            },
            None => forall|j: int| from <= j < s.len() ==> s[j] != '\n',
        },
    decreases s.len() - from,
{
    if from < s.len() && s[from] != '\n' {
        lemma_line_end(s, from + 1);
    }
}

/// Splits a text into its lines.
pub fn split_lines(text: &Vec<char>) -> (lines: Vec<Vec<char>>)
    ensures
        lines@.len() == lines_of(text@).len(),
        forall|i: int| 0 <= i < lines@.len() ==> (#[trigger] lines@[i])@ == lines_of(text@)[i],
{
    let mut lines: Vec<Vec<char>> = Vec::new();
    let mut start: usize = 0;
    let ghost all = lines_of(text@);
    assert(text@.skip(0) =~= text@);
    while start < text.len()
        invariant
            start <= text@.len(),
            all == lines_of(text@),
            lines@.len() + lines_of(text@.skip(start as int)).len() == all.len(),
            forall|i: int| 0 <= i < lines@.len() ==> (#[trigger] lines@[i])@ == all[i],
            all.skip(lines@.len() as int) == lines_of(text@.skip(start as int)),
        decreases text@.len() - start,
    {
        let ghost rest = text@.skip(start as int);
        let mut line: Vec<char> = Vec::new();
        let mut i: usize = start;
        while i < text.len() && text[i] != '\n'
            invariant
                start <= i <= text@.len(),
                line@ == text@.subrange(start as int, i as int),
                forall|j: int| start <= j < i ==> text@[j] != '\n',
            decreases text@.len() - i,
        {
            line.push(text[i]);
            assert(text@.subrange(start as int, i + 1) =~= text@.subrange(
                start as int,
                i as int,
            ).push(text@[i as int]));
            i = i + 1;
        }
        proof {
            lemma_line_end(rest, 0);
            assert(forall|j: int| 0 <= j < i - start ==> rest[j] == text@[start + j]);
        }
        if i < text.len() {
            proof {
                assert(rest[i - start] == '\n');
                assert(line_end(rest, 0) == Some(i - start));
                assert(rest.take(i - start) =~= line@);
                assert(rest.skip(i - start + 1) =~= text@.skip(i + 1));
            }
            if line.len() > 0 && line[line.len() - 1] == '\r' {
                let ghost before = line@;
                line.pop();
                assert(line@ =~= before.drop_last());
            }
            assert(lines_of(rest) == seq![line@] + lines_of(text@.skip(i + 1)));
            assert(all[lines@.len() as int] == all.skip(lines@.len() as int)[0]);
            assert(all.skip((lines@.len() + 1) as int) =~= all.skip(lines@.len() as int).skip(1));
            assert((seq![line@] + lines_of(text@.skip(i + 1))).skip(1) =~= lines_of(
                text@.skip(i + 1),
            ));
            lines.push(line);
            start = i + 1;
        } else {
            proof {
                assert(line_end(rest, 0) is None);
                assert(rest =~= line@);
                assert(all[lines@.len() as int] == all.skip(lines@.len() as int)[0]);
                assert(all.skip((lines@.len() + 1) as int) =~= all.skip(lines@.len() as int).skip(1));
                assert(seq![rest].skip(1) =~= Seq::empty());
                assert(text@.skip(i as int) =~= Seq::empty());
            }
            lines.push(line);
            start = i;
        }
    }
    assert(text@.skip(start as int) =~= Seq::empty());
    lines
}

/// A character that Unicode counts as white space.
pub open spec fn is_space(c: char) -> bool {
    let n = c as int;
    ||| 0x9 <= n <= 0xd
    ||| n == 0x20
    ||| n == 0x85
    ||| n == 0xa0
    ||| n == 0x1680
    ||| 0x2000 <= n <= 0x200a
    ||| n == 0x2028
    ||| n == 0x2029
    ||| n == 0x202f
    ||| n == 0x205f
    ||| n == 0x3000
}

/// Computes [`is_space`].
fn is_white_space(c: char) -> (space: bool)
    ensures
        space == is_space(c),
{
    let n: u32 = c as u32;
    (0x9 <= n && n <= 0xd) || n == 0x20 || n == 0x85 || n == 0xa0 || n == 0x1680 || (0x2000 <= n
        && n <= 0x200a) || n == 0x2028 || n == 0x2029 || n == 0x202f || n == 0x205f || n == 0x3000
}

/// `s` from its first to its last character that is not white space.
pub open spec fn trimmed(s: Seq<char>) -> Seq<char>
    decreases s.len(),
{
    if s.len() == 0 {
        s
    } else if is_space(s[0]) {
        trimmed(s.skip(1))
    } else if is_space(s.last()) {
        trimmed(s.drop_last())
    } else {
        s
    }
}

/// Drops the white space at both ends of a text.
pub fn trim(text: &str) -> (trimmed_text: Vec<char>)
    ensures
        trimmed_text@ == trimmed(text@),
{
    let chars: Vec<char> = chars_of(text);
    let mut start: usize = 0;
    let mut end: usize = chars.len();
    assert(chars@.subrange(0, chars@.len() as int) =~= chars@);
    while start < end && is_white_space(chars[start])
        invariant
            start <= end == chars@.len(),
            trimmed(chars@.subrange(start as int, end as int)) == trimmed(chars@),
        decreases end - start,
    {
        proof {
            let rest = chars@.subrange(start as int, end as int);
            assert(rest[0] == chars@[start as int]);
            assert(rest.skip(1) =~= chars@.subrange(start + 1, end as int));
        }
        start = start + 1;
    }
    while start < end && is_white_space(chars[end - 1])
        invariant
            start <= end <= chars@.len(),
            start < end ==> !is_space(chars@[start as int]),
            trimmed(chars@.subrange(start as int, end as int)) == trimmed(chars@),
        decreases end - start,
    {
        proof {
            let rest = chars@.subrange(start as int, end as int);
            assert(rest[0] == chars@[start as int]);
            assert(rest.last() == chars@[end - 1]);
            assert(rest.drop_last() =~= chars@.subrange(start as int, end - 1));
        }
        end = end - 1;
    }
    let mut kept: Vec<char> = Vec::new();
    let mut i: usize = start;
    while i < end
        invariant
            start <= i <= end <= chars@.len(),
            kept@ == chars@.subrange(start as int, i as int),
        decreases end - i,
    {
        kept.push(chars[i]);
        assert(chars@.subrange(start as int, i + 1) =~= chars@.subrange(
            start as int,
            i as int,
        ).push(chars@[i as int]));
        i = i + 1;
    }
    proof {
        let rest = chars@.subrange(start as int, end as int);
        if start < end {
            assert(rest[0] == chars@[start as int]);
            assert(rest.last() == chars@[end - 1]);
        }
    }
    kept
}

/// The last line of a log, or a stand-in where the log is empty.
pub open spec fn last_line(log: Seq<char>) -> Seq<char> {
    let lines = lines_of(log);
    if lines.len() == 0 {
        "(no stderr)"@
    } else {
        lines.last()
    }
}

/// Computes [`last_line`].
pub fn final_line(log: &Vec<char>) -> (line: String)
    ensures
        line@ == last_line(log@),
{
    let lines: Vec<Vec<char>> = split_lines(log);
    if lines.len() == 0 {
        "(no stderr)".to_owned()
    } else {
        string_of(&lines[lines.len() - 1])
    }
}

/// A text is split at its line feeds: the first line ends at the first one, and
/// the other lines are those of what follows it.
pub proof fn law_lines_end_at_line_feeds(line: Seq<char>, rest: Seq<char>)
    requires
        forall|i: int| 0 <= i < line.len() ==> line[i] != '\n',
    ensures
        lines_of(line + seq!['\n'] + rest).len() == 1 + lines_of(rest).len(),
        forall|k: int|
            0 <= k < lines_of(rest).len() ==> lines_of(line + seq!['\n'] + rest)[k + 1]
                == #[trigger] lines_of(rest)[k],
        line.len() > 0 && line[line.len() - 1] == '\r' ==> lines_of(
            line + seq!['\n'] + rest,
        )[0] == line.take(line.len() - 1),
        line.len() == 0 || line[line.len() - 1] != '\r' ==> lines_of(
            line + seq!['\n'] + rest,
        )[0] == line,
{
    let s = line + seq!['\n'] + rest;
    let n = line.len() as int;
    lemma_line_end(s, 0);
    assert(s[n] == '\n');
    assert forall|j: int| 0 <= j < n implies s[j] != '\n' by {
        assert(s[j] == line[j]);
    }
    assert(line_end(s, 0) == Some(n));
    assert(s.take(n) =~= line);
    assert(s.skip(n + 1) =~= rest);
    if n > 0 {
        assert(line.take(n - 1) =~= line.drop_last());
    }
}

/// What follows the last line feed is the last line, if it is not empty.
pub proof fn law_last_line_needs_no_line_feed(line: Seq<char>)
    requires
        forall|i: int| 0 <= i < line.len() ==> line[i] != '\n',
    ensures
        line.len() > 0 ==> lines_of(line) == seq![line],
        line.len() == 0 ==> lines_of(line).len() == 0,
{
    lemma_line_end(line, 0);
}

/// Trimming takes away the white space around a text, and nothing else: a text
/// that neither begins nor ends with white space is what is left of it with any
/// white space around it.
pub proof fn law_trimming_takes_the_space_around(
    before: Seq<char>,
    s: Seq<char>,
    after: Seq<char>,
)
    requires
        forall|i: int| 0 <= i < before.len() ==> is_space(#[trigger] before[i]),
        forall|i: int| 0 <= i < after.len() ==> is_space(#[trigger] after[i]),
        s.len() > 0 ==> !is_space(s[0]) && !is_space(s[s.len() - 1]),
    ensures
        trimmed(before + s + after) == s,
    decreases before.len() + after.len(),
{
    let all = before + s + after;
    if before.len() > 0 {
        assert(all[0] == before[0]);
        assert(is_space(before[0]));
        let less = before.skip(1);
        assert forall|i: int| 0 <= i < less.len() implies is_space(#[trigger] less[i]) by {
            assert(less[i] == before[i + 1]);
        }
        assert(all.skip(1) =~= less + s + after);
        law_trimming_takes_the_space_around(less, s, after);
    } else if after.len() > 0 {
        let end = after.len() - 1;
        assert(all.last() == after[end]);
        assert(is_space(after[end]));
        let less = after.drop_last();
        assert forall|i: int| 0 <= i < less.len() implies is_space(#[trigger] less[i]) by {
            assert(less[i] == after[i]);
        }
        if s.len() > 0 {
            assert(all[0] == s[0]);
            assert(all.drop_last() =~= before + s + less);
            law_trimming_takes_the_space_around(before, s, less);
        } else {
            assert(all[0] == after[0]);
            assert(is_space(after[0]));
            let tail = after.skip(1);
            assert forall|i: int| 0 <= i < tail.len() implies is_space(#[trigger] tail[i]) by {
                assert(tail[i] == after[i + 1]);
            }
            assert(all.skip(1) =~= before + s + tail);
            law_trimming_takes_the_space_around(before, s, tail);
        }
    } else {
        assert(all =~= s);
    }
}

/// A search finds the first place at which a text stands in another, and fails
/// only where it stands nowhere.
pub proof fn law_search_finds_the_first(hay: Seq<char>, needle: Seq<char>)
    ensures
        match find(hay, needle) {
            Some(i) => {
                &&& 0 <= i <= hay.len() - needle.len()
                &&& hay.subrange(i, i + needle.len()) == needle
                &&& forall|j: int|
                    0 <= j < i ==> #[trigger] hay.subrange(j, j + needle.len()) != needle
            },
            None => forall|j: int|
                0 <= j <= hay.len() - needle.len() ==> #[trigger] hay.subrange(
                    j,
                    j + needle.len(),
                ) != needle,
        },
{
    if exists|i: int| first_at(hay, needle, i) {
        let i = choose|i: int| first_at(hay, needle, i);
        assert(first_at(hay, needle, i));
        assert forall|j: int| 0 <= j < i implies #[trigger] hay.subrange(j, j + needle.len())
            != needle by {
            if hay.subrange(j, j + needle.len()) == needle {
                assert(occurs_at(hay, needle, j));
            }
        }
    } else {
        assert forall|j: int| 0 <= j <= hay.len() - needle.len() implies #[trigger] hay.subrange(
            j,
            j + needle.len(),
        ) != needle by {
            if hay.subrange(j, j + needle.len()) == needle {
                assert(occurs_at(hay, needle, j));
                lemma_first_exists(hay, needle, j);
            }
        }
    }
}

/// A text that stands somewhere in another stands at a first place.
proof fn lemma_first_exists(hay: Seq<char>, needle: Seq<char>, i: int)
    requires
        occurs_at(hay, needle, i),
    ensures
        exists|j: int| first_at(hay, needle, j),
    decreases i,
{
    if exists|j: int| #[trigger] occurs_at(hay, needle, j) && j < i {
        let j = choose|j: int| #[trigger] occurs_at(hay, needle, j) && j < i;
        lemma_first_exists(hay, needle, j);
    } else {
        assert(first_at(hay, needle, i));
    }
}

/// A search from the end finds the last place at which a text stands in another,
/// and fails only where it stands nowhere.
pub proof fn law_search_from_the_end_finds_the_last(hay: Seq<char>, needle: Seq<char>)
    ensures
        match rfind(hay, needle) {
            Some(i) => {
                &&& 0 <= i <= hay.len() - needle.len()
                &&& hay.subrange(i, i + needle.len()) == needle
                &&& forall|j: int|
                    i < j <= hay.len() - needle.len() ==> #[trigger] hay.subrange(
                        j,
                        j + needle.len(),
                    ) != needle
            },
            None => forall|j: int|
                0 <= j <= hay.len() - needle.len() ==> #[trigger] hay.subrange(
                    j,
                    j + needle.len(),
                ) != needle,
        },
{
    if exists|i: int| last_at(hay, needle, i) {
        let i = choose|i: int| last_at(hay, needle, i);
        assert(last_at(hay, needle, i));
        assert forall|j: int| i < j <= hay.len() - needle.len() implies #[trigger] hay.subrange(
            j,
            j + needle.len(),
        ) != needle by {
            if hay.subrange(j, j + needle.len()) == needle {
                assert(occurs_at(hay, needle, j));
            }
        }
    } else {
        assert forall|j: int| 0 <= j <= hay.len() - needle.len() implies #[trigger] hay.subrange(
            j,
            j + needle.len(),
        ) != needle by {
            if hay.subrange(j, j + needle.len()) == needle {
                assert(occurs_at(hay, needle, j));
                lemma_last_exists(hay, needle, j);
            }
        }
    }
}

/// A text that stands somewhere in another stands at a last place.
proof fn lemma_last_exists(hay: Seq<char>, needle: Seq<char>, i: int)
    requires
        occurs_at(hay, needle, i),
    ensures
        exists|j: int| last_at(hay, needle, j),
    decreases hay.len() - i,
{
    if exists|j: int| #[trigger] occurs_at(hay, needle, j) && j > i {
        let j = choose|j: int| #[trigger] occurs_at(hay, needle, j) && j > i;
        lemma_last_exists(hay, needle, j);
    } else {
        assert(last_at(hay, needle, i));
    }
}

/// The last line of a log is what stands behind its last line feed, where
/// something does. An empty log has a stand-in.
pub proof fn law_last_line_is_the_last(before: Seq<char>, line: Seq<char>)
    requires
        line.len() > 0,
        forall|i: int| 0 <= i < line.len() ==> line[i] != '\n',
    ensures
        last_line(line) == line,
        last_line(before + seq!['\n'] + line) == line,
        last_line(Seq::empty()) == "(no stderr)"@,
    decreases before.len(),
{
    law_last_line_needs_no_line_feed(line);
    let log = before + seq!['\n'] + line;
    lemma_line_end(before, 0);
    match line_end(before, 0) {
        Some(k) => {
            let first = before.take(k);
            let rest = before.skip(k + 1) + seq!['\n'] + line;
            assert(log =~= first + seq!['\n'] + rest);
            law_lines_end_at_line_feeds(first, rest);
            law_last_line_is_the_last(before.skip(k + 1), line);
            let lines = lines_of(log);
            assert(rest.len() > 0);
            let n = lines_of(rest).len() as int;
            assert(n > 0) by {
                lemma_line_end(rest, 0);
            }
            assert(lines[n] == lines_of(rest)[n - 1]);
        },
        None => {
            law_lines_end_at_line_feeds(before, line);
            assert(lines_of(line)[0] == line);
            assert(lines_of(log)[1] == line);
        },
    }
}

} // verus!
