//! Decimal notation of whole numbers and of nanosecond times.

use vstd::prelude::*;

use crate::time;

verus! {

/// An ASCII decimal digit.
pub open spec fn is_digit(c: char) -> bool {
    '0' <= c <= '9'
}

/// The value of a decimal digit.
pub open spec fn digit_value(c: char) -> int {
    c as int - '0' as int
}

/// The digit of a value below ten.
pub open spec fn digit_char(d: int) -> char {
    ('0' as int + d) as char
}

/// Every character is a decimal digit.
pub open spec fn all_digits(s: Seq<char>) -> bool {
    forall|i: int| 0 <= i < s.len() ==> is_digit(#[trigger] s[i])
}

/// The number that a run of digits stands for; zero for the empty run.
pub open spec fn value(s: Seq<char>) -> int
    decreases s.len(),
{
    if s.len() == 0 {
        0
    } else {
        10 * value(s.drop_last()) + digit_value(s.last())
    }
}

/// The decimal notation of a number, without leading zeros.
pub open spec fn decimal(n: nat) -> Seq<char>
    decreases n,
{
    if n < 10 {
        seq![digit_char(n as int)]
    } else {
        decimal(n / 10).push(digit_char((n % 10) as int))
    }
}

/// The decimal notation of a number, filled up with zeros to two digits.
pub open spec fn padded(n: nat) -> Seq<char> {
    if n < 10 {
        seq!['0', digit_char(n as int)]
    } else {
        decimal(n)
    }
}

/// The decimal notation of a number is a run of digits with that value.
pub proof fn lemma_decimal(n: nat)
    ensures
        decimal(n).len() > 0,
        all_digits(decimal(n)),
        value(decimal(n)) == n,
    decreases n,
{
    if n < 10 {
        assert(decimal(n).drop_last() =~= Seq::empty());
        assert(value(Seq::<char>::empty()) == 0);
    } else {
        lemma_decimal(n / 10);
        assert(decimal(n).drop_last() =~= decimal(n / 10));
    }
}

/// The padded notation of a number is a run of digits with that value.
pub proof fn lemma_padded(n: nat)
    ensures
        padded(n).len() >= 2,
        all_digits(padded(n)),
        value(padded(n)) == n,
    decreases n,
{
    lemma_decimal(n);
    if n < 10 {
        let s = padded(n);
        assert(s.drop_last() =~= seq!['0']);
        assert(seq!['0'].drop_last() =~= Seq::empty());
        assert(value(Seq::<char>::empty()) == 0);
        assert(value(seq!['0']) == 0);
    } else {
        lemma_decimal(n / 10);
    }
}

/// A run of digits has a value of at least zero, and a longer one no smaller.
pub proof fn lemma_value_grows(s: Seq<char>, n: int)
    requires
        all_digits(s),
        0 <= n <= s.len(),
    ensures
        0 <= value(s.take(n)) <= value(s),
    decreases s.len() - n, s.len(),
{
    if n == s.len() {
        assert(s.take(n) =~= s);
        if s.len() > 0 {
            let front = s.drop_last();
            assert(front =~= s.take(n - 1));
            assert(all_digits(front));
            lemma_value_grows(front, front.len() as int);
            assert(is_digit(s.last()));
        }
    } else {
        lemma_value_grows(s, n + 1);
        let longer = s.take(n + 1);
        assert(longer.drop_last() =~= s.take(n));
        assert(is_digit(longer.last()));
        lemma_value_grows(s.take(n), n);
        assert(s.take(n).take(n) =~= s.take(n));
    }
}

/// Appends the decimal notation of `n`.
pub fn push_decimal(s: &mut String, n: u64)
    ensures
        final(s)@ == old(s)@ + decimal(n as nat),
    decreases n,
{
    if n >= 10 {
        push_decimal(s, n / 10);
    }
    let digit: u8 = 48 + (n % 10) as u8;
    s.push(digit as char);
    proof {
        assert(s@ =~= old(s)@ + decimal(n as nat));
    }
}

/// Appends the notation of `n` with at least two digits.
pub fn push_padded(s: &mut String, n: u32)
    ensures
        final(s)@ == old(s)@ + padded(n as nat),
{
    if n < 10 {
        s.push('0');
    }
    push_decimal(s, n as u64);
    proof {
        assert(s@ =~= old(s)@ + padded(n as nat));
    }
}

/// What reading `s` as an unsigned 32-bit number gives: an optional plus sign
/// and at least one digit, with a value that fits.
pub open spec fn parsed_u32(s: Seq<char>) -> Option<u32> {
    let digits = if s.len() > 0 && s[0] == '+' {
        s.skip(1)
    } else {
        s
    };
    if digits.len() > 0 && all_digits(digits) && value(digits) <= u32::MAX {
        Some(value(digits) as u32)
    } else {
        None
    }
}

/// Reads the characters from `start` up to `end` as a number.
pub fn parse_u32(chars: &Vec<char>, start: usize, end: usize) -> (number: Option<u32>)
    requires
        start <= end <= chars@.len(),
    ensures
        number == parsed_u32(chars@.subrange(start as int, end as int)),
{
    let ghost field = chars@.subrange(start as int, end as int);
    let mut first: usize = start;
    if start < end && chars[start] == '+' {
        first = start + 1;
    }
    let ghost digits = chars@.subrange(first as int, end as int);
    proof {
        if first > start {
            assert(field[0] == '+');
            assert(field.skip(1) =~= digits);
        } else {
            assert(field =~= digits);
            assert(start < end ==> field[0] == chars@[start as int]);
        }
    }
    if first == end {
        return None;
    }
    let mut number: u64 = 0;
    let mut i: usize = first;
    while i < end
        invariant
            start <= first <= i <= end <= chars@.len(),
            field == chars@.subrange(start as int, end as int),
            digits == chars@.subrange(first as int, end as int),
            parsed_u32(field) == (if digits.len() > 0 && all_digits(digits) && value(digits)
                <= u32::MAX {
                Some(value(digits) as u32)
            } else {
                None
            }),
            all_digits(digits.take(i - first)),
            number == value(digits.take(i - first)),
            number <= u32::MAX,
        decreases end - i,
    {
        let c: char = chars[i];
        assert(digits[i - first] == c);
        if c < '0' || c > '9' {
            return None;
        }
        let d: u64 = (c as u8 - 48) as u64;
        proof {
            let longer = digits.take(i - first + 1);
            assert(longer.drop_last() =~= digits.take(i - first));
            assert(longer.last() == c);
        }
        number = number * 10 + d;
        if number > u32::MAX as u64 {
            proof {
                if all_digits(digits) {
                    lemma_value_grows(digits, i - first + 1);
                }
            }
            return None;
        }
        i = i + 1;
    }
    proof {
        assert(digits.take(i - first) =~= digits);
    }
    Some(number as u32)
}

/// The digits of a fraction of `10 * scale`, up to its last digit that is not
/// zero.
pub open spec fn fraction_digits(f: nat, scale: nat) -> Seq<char>
    decreases scale,
{
    if f == 0 || scale == 0 {
        Seq::empty()
    } else {
        seq![digit_char((f / scale) as int)] + fraction_digits(f % scale, scale / 10)
    }
}

/// What the digits after a decimal point are worth, the first one `scale`.
/// Digits beyond the last whole unit are dropped.
pub open spec fn fraction_value(s: Seq<char>, scale: nat) -> int
    decreases s.len(),
{
    if s.len() == 0 || scale == 0 {
        0
    } else {
        digit_value(s[0]) * scale + fraction_value(s.skip(1), scale / 10)
    }
}

/// A time of at least zero in decimal seconds: whole seconds, and after a
/// point the fraction without trailing zeros.
pub open spec fn magnitude_text(ns: nat) -> Seq<char> {
    let whole = decimal(ns / 1_000_000_000);
    if ns % 1_000_000_000 == 0 {
        whole
    } else {
        whole.push('.') + fraction_digits(ns % 1_000_000_000, 100_000_000)
    }
}

/// A time in decimal seconds.
pub open spec fn seconds_text(ns: int) -> Seq<char> {
    if ns < 0 {
        seq!['-'] + magnitude_text((-ns) as nat)
    } else {
        magnitude_text(ns as nat)
    }
}

/// Appends a time in decimal seconds.
pub fn push_seconds(s: &mut String, ns: i64)
    ensures
        final(s)@ == old(s)@ + seconds_text(ns as int),
{
    let magnitude: u64 = if ns < 0 {
        s.push('-');
        (-(ns as i128)) as u64
    } else {
        ns as u64
    };
    let ghost signed = s@;
    push_decimal(s, magnitude / 1_000_000_000);
    let mut f: u64 = magnitude % 1_000_000_000;
    if f > 0 {
        s.push('.');
        let ghost front = s@;
        let mut scale: u64 = 100_000_000;
        while f > 0
            invariant
                f < 1_000_000_000,
                scale <= 100_000_000,
                f < 10 * scale || f == 0,
                scale == 0 || is_scale(scale as nat),
                s@ + fraction_digits(f as nat, scale as nat) == front + fraction_digits(
                    (magnitude % 1_000_000_000) as nat,
                    100_000_000,
                ),
            decreases scale,
        {
            let ghost before = s@;
            assert(0 <= f / scale <= 9) by (nonlinear_arith)
                requires
                    0 < f < 10 * scale,
            ;
            let digit: u8 = 48 + (f / scale) as u8;
            s.push(digit as char);
            proof {
                let rest = fraction_digits((f % scale) as nat, (scale / 10) as nat);
                assert(s@ + rest =~= before + (seq![digit_char((f / scale) as int)] + rest));
            }
            f = f % scale;
            scale = scale / 10;
        }
        assert(s@ + Seq::<char>::empty() =~= s@);
    }
    proof {
        assert(s@ =~= signed + magnitude_text(magnitude as nat));
        assert(s@ =~= old(s)@ + seconds_text(ns as int));
    }
}

/// A power of ten up to the worth of the first digit after the point.
pub open spec fn is_scale(scale: nat) -> bool {
    ||| scale == 1
    ||| scale == 10
    ||| scale == 100
    ||| scale == 1_000
    ||| scale == 10_000
    ||| scale == 100_000
    ||| scale == 1_000_000
    ||| scale == 10_000_000
    ||| scale == 100_000_000
}

/// Where the first point stands in a field of digits and points.
pub open spec fn point_at(s: Seq<char>, from: int) -> int
    decreases s.len() - from,
{
    if from < 0 || from >= s.len() || s[from] == '.' {
        from
    } else {
        point_at(s, from + 1)
    }
}

/// What reading a field as decimal seconds gives: digits with at most one
/// point among them, and at least one digit. Digits past the ninth decimal
/// place are dropped; a time out of range is held at the largest one.
pub open spec fn parsed_seconds(s: Seq<char>) -> Option<int> {
    let point = point_at(s, 0);
    let whole = s.take(point);
    let fraction = if point < s.len() {
        s.skip(point + 1)
    } else {
        Seq::empty()
    };
    if all_digits(whole) && all_digits(fraction) && whole.len() + fraction.len() > 0 {
        Some(time::clamped(value(whole) * 1_000_000_000 + fraction_value(fraction, 100_000_000)))
    } else {
        None
    }
}

/// The position that [`point_at`] gives is that of the first point, or the
/// end.
pub proof fn lemma_point_at(s: Seq<char>, from: int, point: int)
    requires
        0 <= from <= point <= s.len(),
        point < s.len() ==> s[point] == '.',
        forall|j: int| from <= j < point ==> s[j] != '.',
    ensures
        point_at(s, from) == point,
    decreases point - from,
{
    if from < point {
        lemma_point_at(s, from + 1, point);
    }
}

/// More whole seconds than any time holds.
const SECONDS_CAP: u64 = 10_000_000_000;

/// The value of a run of digits, held at a cap; `None` where a character is
/// not a digit.
fn capped_value(chars: &Vec<char>, start: usize, end: usize) -> (number: Option<u64>)
    requires
        start <= end <= chars@.len(),
    ensures
        match number {
            Some(n) => {
                let digits = chars@.subrange(start as int, end as int);
                &&& all_digits(digits)
                &&& 0 <= value(digits)
                &&& n == if value(digits) > SECONDS_CAP {
                    SECONDS_CAP as int
                } else {
                    value(digits)
                }
            },
            None => !all_digits(chars@.subrange(start as int, end as int)),
        },
{
    let ghost digits = chars@.subrange(start as int, end as int);
    let mut number: u64 = 0;
    let mut i: usize = start;
    while i < end
        invariant
            start <= i <= end <= chars@.len(),
            digits == chars@.subrange(start as int, end as int),
            all_digits(digits.take(i - start)),
            0 <= value(digits.take(i - start)),
            number == if value(digits.take(i - start)) > SECONDS_CAP {
                SECONDS_CAP as int
            } else {
                value(digits.take(i - start))
            },
        decreases end - i,
    {
        let c: char = chars[i];
        assert(digits[i - start] == c);
        if c < '0' || c > '9' {
            return None;
        }
        let d: u64 = (c as u8 - 48) as u64;
        proof {
            let longer = digits.take(i - start + 1);
            assert(longer.drop_last() =~= digits.take(i - start));
            assert(longer.last() == c);
        }
        number = number * 10 + d;
        if number > SECONDS_CAP {
            number = SECONDS_CAP;
        }
        i = i + 1;
    }
    proof {
        assert(digits.take(i - start) =~= digits);
    }
    Some(number)
}

/// The worth of the digits after a point; `None` where a character is not a
/// digit.
fn fraction_nanos(chars: &Vec<char>, start: usize, end: usize) -> (nanos: Option<u64>)
    requires
        start <= end <= chars@.len(),
    ensures
        match nanos {
            Some(n) => {
                let digits = chars@.subrange(start as int, end as int);
                &&& all_digits(digits)
                &&& n == fraction_value(digits, 100_000_000)
                &&& n < 1_000_000_000
            },
            None => !all_digits(chars@.subrange(start as int, end as int)),
        },
{
    let ghost digits = chars@.subrange(start as int, end as int);
    let mut nanos: u64 = 0;
    let mut scale: u64 = 100_000_000;
    let mut i: usize = start;
    assert(digits.skip(0) =~= digits);
    while i < end
        invariant
            start <= i <= end <= chars@.len(),
            digits == chars@.subrange(start as int, end as int),
            all_digits(digits.take(i - start)),
            scale == 0 || is_scale(scale as nat),
            nanos + fraction_value(digits.skip(i - start), scale as nat) == fraction_value(
                digits,
                100_000_000,
            ),
            scale > 0 ==> nanos + 10 * scale <= 1_000_000_000,
            nanos < 1_000_000_000,
        decreases end - i,
    {
        let c: char = chars[i];
        assert(digits[i - start] == c);
        if c < '0' || c > '9' {
            return None;
        }
        let d: u64 = (c as u8 - 48) as u64;
        proof {
            let longer = digits.take(i - start + 1);
            assert(longer.drop_last() =~= digits.take(i - start));
            assert(longer.last() == c);
            let rest = digits.skip(i - start);
            assert(rest.skip(1) =~= digits.skip(i - start + 1));
            assert(rest[0] == c);
            assert(0 <= d * scale <= 9 * scale) by (nonlinear_arith)
                requires
                    0 <= d <= 9,
                    scale >= 0,
            ;
        }
        nanos = nanos + d * scale;
        scale = scale / 10;
        i = i + 1;
    }
    proof {
        assert(digits.take(i - start) =~= digits);
        assert(digits.skip(i - start) =~= Seq::empty());
    }
    Some(nanos)
}

/// Reads the characters from `start` up to `end` as decimal seconds.
pub fn parse_seconds(chars: &Vec<char>, start: usize, end: usize) -> (ns: Option<i64>)
    requires
        start <= end <= chars@.len(),
    ensures
        match ns {
            Some(t) => parsed_seconds(chars@.subrange(start as int, end as int)) == Some(t as int),
            None => parsed_seconds(chars@.subrange(start as int, end as int)) is None,
        },
        ns matches Some(t) ==> t >= 0,
{
    let ghost field = chars@.subrange(start as int, end as int);
    let mut point: usize = start;
    while point < end && chars[point] != '.'
        invariant
            start <= point <= end <= chars@.len(),
            field == chars@.subrange(start as int, end as int),
            forall|j: int| 0 <= j < point - start ==> field[j] != '.',
        decreases end - point,
    {
        assert(field[point - start] == chars@[point as int]);
        point = point + 1;
    }
    let after: usize = if point < end {
        point + 1
    } else {
        end
    };
    proof {
        if point < end {
            assert(field[point - start] == chars@[point as int]);
        }
        lemma_point_at(field, 0, point - start);
        assert(field.take(point - start) =~= chars@.subrange(start as int, point as int));
        if point < end {
            assert(field.skip(point - start + 1) =~= chars@.subrange(after as int, end as int));
        } else {
            assert(Seq::<char>::empty() =~= chars@.subrange(after as int, end as int));
        }
    }
    if point - start + (end - after) == 0 {
        return None;
    }
    match (capped_value(chars, start, point), fraction_nanos(chars, after, end)) {
        (Some(whole), Some(nanos)) => Some(
            time::clamp(whole as i128 * 1_000_000_000 + nanos as i128),
        ),
        _ => None,
    }
}

/// Reading back the digits of a fraction gives the fraction.
pub proof fn lemma_fraction_reads_back(f: nat, scale: nat)
    requires
        scale == 0 || is_scale(scale),
        f < 10 * scale || f == 0,
    ensures
        all_digits(fraction_digits(f, scale)),
        fraction_value(fraction_digits(f, scale), scale) == f,
    decreases scale,
{
    if f > 0 {
        let digit = digit_char((f / scale) as int);
        let rest = fraction_digits(f % scale, scale / 10);
        assert(0 <= f / scale <= 9 && f == (f / scale) * scale + f % scale) by (nonlinear_arith)
            requires
                0 < f < 10 * scale,
        ;
        lemma_fraction_reads_back(f % scale, scale / 10);
        assert(fraction_digits(f, scale).skip(1) =~= rest);
        assert(fraction_digits(f, scale)[0] == digit);
    }
}

/// A time of at least zero written in decimal seconds reads back unchanged.
pub proof fn law_seconds_read_back(ns: int)
    requires
        0 <= ns <= i64::MAX,
    ensures
        parsed_seconds(seconds_text(ns)) == Some(ns),
{
    let text = seconds_text(ns);
    let whole = decimal((ns / 1_000_000_000) as nat);
    lemma_decimal((ns / 1_000_000_000) as nat);
    assert(forall|j: int| 0 <= j < whole.len() ==> is_digit(#[trigger] whole[j]));
    if ns % 1_000_000_000 == 0 {
        lemma_point_at(text, 0, text.len() as int);
        assert(text.take(text.len() as int) =~= whole);
    } else {
        let f = (ns % 1_000_000_000) as nat;
        let digits = fraction_digits(f, 100_000_000);
        lemma_fraction_reads_back(f, 100_000_000);
        assert(text == whole.push('.') + digits);
        assert forall|j: int| 0 <= j < whole.len() implies text[j] != '.' by {
            assert(text[j] == whole[j]);
        }
        lemma_point_at(text, 0, whole.len() as int);
        assert(text.take(whole.len() as int) =~= whole);
        assert(text.skip(whole.len() as int + 1) =~= digits);
    }
}

/// A number is written in digits that stand for it, without a zero in front but
/// for zero itself; padded, it has a zero in front where it has one digit.
pub proof fn law_numbers_are_written_in_decimal(n: nat)
    ensures
        decimal(n).len() > 0,
        forall|i: int| 0 <= i < decimal(n).len() ==> '0' <= #[trigger] decimal(n)[i] <= '9',
        value(decimal(n)) == n,
        n > 0 ==> decimal(n)[0] != '0',
        n == 0 ==> decimal(n) == seq!['0'],
        n < 10 ==> padded(n) == seq!['0'] + decimal(n),
        n >= 10 ==> padded(n) == decimal(n),
    decreases n,
{
    lemma_decimal(n);
    assert forall|i: int| 0 <= i < decimal(n).len() implies '0' <= #[trigger] decimal(n)[i]
        <= '9' by {
        assert(is_digit(decimal(n)[i]));
    }
    if n >= 10 {
        law_numbers_are_written_in_decimal(n / 10);
        assert(decimal(n)[0] == decimal(n / 10)[0]);
    } else {
        assert(padded(n) =~= seq!['0'] + decimal(n));
    }
}

/// A run of digits stands for ten times what it stands for without its last
/// digit, and that digit.
pub proof fn law_digits_stand_for_a_number(front: Seq<char>, last: char)
    requires
        '0' <= last <= '9',
    ensures
        value(front.push(last)) == 10 * value(front) + (last as int - 48),
        value(Seq::empty()) == 0,
{
    assert(front.push(last).drop_last() =~= front);
}

/// A time is written as seconds, a point and the decimals that it has, with no
/// zero at the end; one before zero has a minus sign in front.
pub proof fn law_times_are_written_in_seconds(ns: int)
    requires
        0 < ns <= i64::MAX,
    ensures
        seconds_text(-ns) == seq!['-'] + seconds_text(ns),
        ns % 1_000_000_000 == 0 ==> seconds_text(ns) == decimal((ns / 1_000_000_000) as nat),
        ns % 1_000_000_000 != 0 ==> seconds_text(ns)[seconds_text(ns).len() - 1] != '0',
        parsed_seconds(seconds_text(ns)) == Some(ns),
{
    law_seconds_read_back(ns);
    let f = (ns % 1_000_000_000) as nat;
    if f != 0 {
        lemma_fraction_ends(f, 100_000_000);
        let digits = fraction_digits(f, 100_000_000);
        let text = seconds_text(ns);
        assert(text[text.len() - 1] == digits[digits.len() - 1]);
    }
}

/// The digits of a fraction do not end with a zero.
proof fn lemma_fraction_ends(f: nat, scale: nat)
    requires
        is_scale(scale),
        0 < f < 10 * scale,
    ensures
        fraction_digits(f, scale).len() > 0,
        fraction_digits(f, scale)[fraction_digits(f, scale).len() - 1] != '0',
    decreases scale,
{
    let digits = fraction_digits(f, scale);
    let rest = fraction_digits(f % scale, scale / 10);
    assert(0 <= f / scale <= 9 && f == (f / scale) * scale + f % scale) by (nonlinear_arith)
        requires
            0 < f < 10 * scale,
    ;
    if f % scale == 0 {
        assert(rest =~= Seq::empty());
        assert(f / scale != 0) by {
            if f / scale == 0 {
                assert(0 * scale == 0);
            }
        }
        assert(digits =~= seq![digit_char((f / scale) as int)]);
    } else {
        assert(f % scale < scale) by (nonlinear_arith)
            requires
                scale > 0,
        ;
        assert(scale > 1);
        lemma_fraction_ends(f % scale, scale / 10);
        assert(digits[digits.len() - 1] == rest[rest.len() - 1]);
    }
}

/// A whole number is read from its digits, with or without a plus sign in front,
/// as far as it fits; anything else is no number.
pub proof fn law_whole_numbers_are_read(digits: Seq<char>)
    requires
        digits.len() > 0,
        forall|i: int| 0 <= i < digits.len() ==> '0' <= #[trigger] digits[i] <= '9',
    ensures
        value(digits) <= u32::MAX ==> parsed_u32(digits) == Some(value(digits) as u32)
            && parsed_u32(seq!['+'] + digits) == Some(value(digits) as u32),
        value(digits) > u32::MAX ==> parsed_u32(digits) is None && parsed_u32(seq!['+'] + digits)
            is None,
        parsed_u32(Seq::empty()) is None,
        parsed_u32(seq!['-'] + digits) is None,
{
    assert('0' <= digits[0] <= '9');
    assert((seq!['+'] + digits).skip(1) =~= digits);
    let minus = seq!['-'] + digits;
    assert(!is_digit(minus[0]));
}

} // verus!
