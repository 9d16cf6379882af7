//! Numbers of seconds with an exponent.

use vstd::prelude::*;

use crate::{decimal, time};

verus! {

/// Where the exponent of a number begins: at the first `e` in either case, or
/// at the end.
pub open spec fn exponent_at(s: Seq<char>, from: int) -> int
    decreases s.len() - from,
{
    if from < 0 || from >= s.len() || s[from] == 'e' || s[from] == 'E' {
        from
    } else {
        exponent_at(s, from + 1)
    }
}

/// What reading the digits behind an `e` gives: a sign or none, and at least
/// one digit.
pub open spec fn parsed_exponent(s: Seq<char>) -> Option<int> {
    let signed = s.len() > 0 && (s[0] == '-' || s[0] == '+');
    let digits = if signed {
        s.skip(1)
    } else {
        s
    };
    if digits.len() == 0 || !decimal::all_digits(digits) {
        None
    } else if signed && s[0] == '-' {
        Some(-decimal::value(digits))
    } else {
        Some(decimal::value(digits))
    }
}

/// The number that the first `n` places of a run of digits stand for, zeros
/// filling the places past its end.
pub open spec fn leading_value(digits: Seq<char>, n: int) -> int
    decreases n,
{
    if n <= 0 {
        0
    } else {
        10 * leading_value(digits, n - 1) + if n - 1 < digits.len() {
            decimal::digit_value(digits[n - 1])
        } else {
            0
        }
    }
}

/// What reading decimal seconds times a power of ten gives: the exponent moves
/// the point, and the nanoseconds are the places up to the ninth behind it. A
/// time out of range is held at the largest one.
pub open spec fn scaled_seconds(s: Seq<char>, exponent: int) -> Option<int> {
    let point = decimal::point_at(s, 0);
    let whole = s.take(point);
    let fraction = if point < s.len() {
        s.skip(point + 1)
    } else {
        Seq::empty()
    };
    if decimal::all_digits(whole) && decimal::all_digits(fraction) && whole.len() + fraction.len()
        > 0 {
        Some(time::clamped(leading_value(whole + fraction, whole.len() + exponent + 9)))
    } else {
        None
    }
}

/// What reading a number of seconds gives: decimal seconds, with or without an
/// exponent behind them.
pub open spec fn scientific_seconds(s: Seq<char>) -> Option<int> {
    let split = exponent_at(s, 0);
    if split >= s.len() {
        decimal::parsed_seconds(s)
    } else {
        match parsed_exponent(s.skip(split + 1)) {
            Some(exponent) => scaled_seconds(s.take(split), exponent),
            None => None,
        }
    }
}

/// The position that [`exponent_at`] gives is that of the first `e`, or the
/// end.
proof fn lemma_exponent_at(s: Seq<char>, from: int, split: int)
    requires
        0 <= from <= split <= s.len(),
        split < s.len() ==> s[split] == 'e' || s[split] == 'E',
        forall|j: int| from <= j < split ==> s[j] != 'e' && s[j] != 'E',
    ensures
        exponent_at(s, from) == split,
    decreases split - from,
{
    if from < split {
        lemma_exponent_at(s, from + 1, split);
    }
}

/// More places stand for no smaller a number. Past the end of the digits, zero
/// stays zero, and anything else grows with every place.
proof fn lemma_leading_grows(digits: Seq<char>, n: int, m: int)
    requires
        decimal::all_digits(digits),
        n <= m,
    ensures
        0 <= leading_value(digits, n) <= leading_value(digits, m),
        n >= digits.len() && leading_value(digits, n) == 0 ==> leading_value(digits, m) == 0,
        n >= digits.len() && leading_value(digits, n) > 0 ==> leading_value(digits, m)
            >= leading_value(digits, n) + (m - n),
    decreases (if m > 0 { m } else { 0 }), m - n,
{
    if n < m {
        if m > 0 {
            lemma_leading_grows(digits, n, m - 1);
            if m - 1 < digits.len() {
                assert(decimal::is_digit(digits[m - 1]));
            }
        }
    } else if m > 0 {
        lemma_leading_grows(digits, m - 1, m - 1);
        if m - 1 < digits.len() {
            assert(decimal::is_digit(digits[m - 1]));
        }
    }
}

/// All the places of a run of digits stand for its value.
proof fn lemma_leading_is_value(digits: Seq<char>, n: int)
    requires
        0 <= n <= digits.len(),
    ensures
        leading_value(digits, n) == decimal::value(digits.take(n)),
    decreases n,
{
    if n > 0 {
        lemma_leading_is_value(digits, n - 1);
        assert(digits.take(n).drop_last() =~= digits.take(n - 1));
    }
}

/// What a digit at place `k` behind the point is worth, in nanoseconds.
spec fn place(k: int) -> nat
    decreases k,
{
    if k <= 0 {
        100_000_000
    } else {
        place(k - 1) / 10
    }
}

/// The places up to the ninth behind the point, from place `k` on.
proof fn lemma_leading_fraction(whole: Seq<char>, fraction: Seq<char>, k: int)
    requires
        0 <= k <= 9,
    ensures
        leading_value(whole + fraction, whole.len() as int + 9) == (if k < 9 {
            10 * place(k)
        } else {
            1
        }) * leading_value(whole + fraction, whole.len() + k) + decimal::fraction_value(
            if k <= fraction.len() {
                fraction.skip(k)
            } else {
                Seq::empty()
            },
            place(k),
        ),
    decreases 9 - k,
{
    reveal_with_fuel(place, 10);
    let digits = whole + fraction;
    let here = leading_value(digits, whole.len() + k);
    if k < 9 {
        lemma_leading_fraction(whole, fraction, k + 1);
        let next = leading_value(digits, whole.len() + k + 1);
        let scale = place(k) as int;
        assert((if k < 8 {
            10 * place(k + 1)
        } else {
            1
        }) == scale) by {
            assert(k == 0 || k == 1 || k == 2 || k == 3 || k == 4 || k == 5 || k == 6 || k == 7
                || k == 8);
        }
        let d = if k < fraction.len() {
            decimal::digit_value(fraction[k])
        } else {
            0
        };
        if k < fraction.len() {
            assert(digits[whole.len() + k] == fraction[k]);
            assert(fraction.skip(k)[0] == fraction[k]);
            assert(fraction.skip(k).skip(1) =~= fraction.skip(k + 1));
        } else if k == fraction.len() {
            assert(fraction.skip(k) =~= Seq::empty());
        }
        assert(next == 10 * here + d);
        assert(scale * next == 10 * scale * here + d * scale) by (nonlinear_arith)
            requires
                next == 10 * here + d,
        ;
    }
}

/// An exponent of zero changes nothing.
pub proof fn law_exponent_of_zero(s: Seq<char>)
    ensures
        scaled_seconds(s, 0) == decimal::parsed_seconds(s),
{
    let point = decimal::point_at(s, 0);
    let whole = s.take(point);
    let fraction = if point < s.len() {
        s.skip(point + 1)
    } else {
        Seq::empty()
    };
    if decimal::all_digits(whole) && decimal::all_digits(fraction) && whole.len() + fraction.len()
        > 0 {
        lemma_leading_fraction(whole, fraction, 0);
        let seconds = leading_value(whole + fraction, whole.len() as int);
        assert(10 * place(0) * seconds == 1_000_000_000 * seconds) by (nonlinear_arith)
            requires
                place(0) == 100_000_000,
        ;
        assert(fraction.skip(0) =~= fraction);
        lemma_leading_is_value(whole + fraction, whole.len() as int);
        assert((whole + fraction).take(whole.len() as int) =~= whole);
    }
}

/// A larger exponent than any run of digits is long.
const EXPONENT_CAP: i128 = 1_000_000_000_000_000_000_000_000_000_000;

/// More nanoseconds than any time holds.
const NANOS_CAP: i128 = 10_000_000_000_000_000_000;

/// `x` held between the bounds of the exponent.
spec fn capped_exponent(x: int) -> int {
    if x > EXPONENT_CAP {
        EXPONENT_CAP as int
    } else if x < -EXPONENT_CAP {
        -EXPONENT_CAP
    } else {
        x
    }
}

/// Reads an exponent, held at its bounds.
fn parse_exponent(chars: &Vec<char>, start: usize) -> (exponent: Option<i128>)
    requires
        start <= chars@.len(),
    ensures
        match exponent {
            Some(e) => {
                &&& parsed_exponent(chars@.skip(start as int)) matches Some(x)
                &&& e == capped_exponent(x)
            },
            None => parsed_exponent(chars@.skip(start as int)) is None,
        },
{
    let ghost field = chars@.skip(start as int);
    let end: usize = chars.len();
    let signed: bool = start < end && (chars[start] == '-' || chars[start] == '+');
    let negative: bool = signed && chars[start] == '-';
    let first: usize = if signed {
        start + 1
    } else {
        start
    };
    let ghost digits = chars@.skip(first as int);
    proof {
        if start < end {
            assert(field[0] == chars@[start as int]);
        }
        if signed {
            assert(field.skip(1) =~= digits);
        }
    }
    if first == end {
        return None;
    }
    let mut number: i128 = 0;
    let mut i: usize = first;
    while i < end
        invariant
            first <= i <= end == chars@.len(),
            digits == chars@.skip(first as int),
            field == chars@.skip(start as int),
            !decimal::all_digits(digits) ==> parsed_exponent(field) is None,
            decimal::all_digits(digits.take(i - first)),
            0 <= decimal::value(digits.take(i - first)),
            number == if decimal::value(digits.take(i - first)) > EXPONENT_CAP {
                EXPONENT_CAP as int
            } else {
                decimal::value(digits.take(i - first))
            },
        decreases end - i,
    {
        let c: char = chars[i];
        assert(digits[i - first] == c);
        if c < '0' || c > '9' {
            return None;
        }
        let d: i128 = (c as u8 - 48) as i128;
        proof {
            let longer = digits.take(i - first + 1);
            assert(longer.drop_last() =~= digits.take(i - first));
            assert(longer.last() == c);
        }
        number = number * 10 + d;
        if number > EXPONENT_CAP {
            number = EXPONENT_CAP;
        }
        i = i + 1;
    }
    assert(digits.take(i - first) =~= digits);
    if negative {
        Some(-number)
    } else {
        Some(number)
    }
}

/// Computes [`leading_value`], held at a cap.
fn leading_nanos(digits: &Vec<char>, n: i128) -> (nanos: i128)
    requires
        decimal::all_digits(digits@),
    ensures
        nanos == if leading_value(digits@, n as int) > NANOS_CAP {
            NANOS_CAP as int
        } else {
            leading_value(digits@, n as int)
        },
        0 <= nanos,
{
    let mut number: i128 = 0;
    let mut i: i128 = 0;
    while i < n
        invariant
            0 <= i,
            i <= n || i == 0,
            decimal::all_digits(digits@),
            number == leading_value(digits@, i as int),
            0 <= number <= NANOS_CAP,
        decreases n - i,
    {
        let past: bool = i >= digits.len() as i128;
        if past && number == 0 {
            proof {
                lemma_leading_grows(digits@, i as int, n as int);
            }
            return 0;
        }
        let d: i128 = if past {
            0
        } else {
            let c: char = digits[i as usize];
            assert(decimal::is_digit(digits@[i as int]));
            (c as u8 - 48) as i128
        };
        number = number * 10 + d;
        i = i + 1;
        if number > NANOS_CAP {
            proof {
                lemma_leading_grows(digits@, i as int, n as int);
            }
            return NANOS_CAP;
        }
    }
    number
}

/// Whether the point moved by a capped exponent or by the whole of it, the time
/// is the same.
proof fn lemma_capped_exponent(digits: Seq<char>, places: int, x: int)
    requires
        decimal::all_digits(digits),
        digits.len() <= 0xffff_ffff_ffff_ffff,
        0 <= places <= digits.len(),
    ensures
        time::clamped(leading_value(digits, places + capped_exponent(x) + 9)) == time::clamped(
            leading_value(digits, places + x + 9),
        ),
{
    let near = places + capped_exponent(x) + 9;
    let far = places + x + 9;
    if x > EXPONENT_CAP {
        lemma_leading_grows(digits, digits.len() as int, near);
        lemma_leading_grows(digits, near, far);
    }
}

/// Reads the characters from `start` to the end as a number of seconds.
pub fn parse_scientific(chars: &Vec<char>, start: usize) -> (ns: Option<i64>)
    requires
        start <= chars@.len(),
    ensures
        match ns {
            Some(t) => scientific_seconds(chars@.skip(start as int)) == Some(t as int),
            None => scientific_seconds(chars@.skip(start as int)) is None,
        },
        ns matches Some(t) ==> t >= 0,
{
    let ghost field = chars@.skip(start as int);
    let end: usize = chars.len();
    let mut split: usize = start;
    while split < end && chars[split] != 'e' && chars[split] != 'E'
        invariant
            start <= split <= end == chars@.len(),
            field == chars@.skip(start as int),
            forall|j: int| 0 <= j < split - start ==> field[j] != 'e' && field[j] != 'E',
        decreases end - split,
    {
        assert(field[split - start] == chars@[split as int]);
        split = split + 1;
    }
    proof {
        if split < end {
            assert(field[split - start] == chars@[split as int]);
        }
        lemma_exponent_at(field, 0, split - start);
    }
    if split == end {
        assert(chars@.subrange(start as int, end as int) =~= field);
        return decimal::parse_seconds(chars, start, end);
    }
    let ghost mantissa = field.take(split - start);
    assert(field.skip(split - start + 1) =~= chars@.skip(split + 1));
    let exponent: i128 = match parse_exponent(chars, split + 1) {
        Some(exponent) => exponent,
        None => return None,
    };
    let mut point: usize = start;
    while point < split && chars[point] != '.'
        invariant
            start <= point <= split < chars@.len(),
            field == chars@.skip(start as int),
            mantissa == field.take(split - start),
            forall|j: int| 0 <= j < point - start ==> mantissa[j] != '.',
        decreases split - point,
    {
        assert(mantissa[point - start] == chars@[point as int]);
        point = point + 1;
    }
    proof {
        if point < split {
            assert(mantissa[point - start] == chars@[point as int]);
        }
        decimal::lemma_point_at(mantissa, 0, point - start);
    }
    let after: usize = if point < split {
        point + 1
    } else {
        split
    };
    let ghost whole = mantissa.take(point - start);
    let ghost fraction = chars@.subrange(after as int, split as int);
    proof {
        assert(whole =~= chars@.subrange(start as int, point as int));
        if point < split {
            assert(mantissa.skip(point - start + 1) =~= fraction);
        } else {
            assert(fraction =~= Seq::empty());
        }
    }
    let mut digits: Vec<char> = Vec::new();
    if !push_digits(&mut digits, chars, start, point) || !push_digits(
        &mut digits,
        chars,
        after,
        split,
    ) {
        return None;
    }
    assert(digits@ =~= whole + fraction);
    if digits.len() == 0 {
        return None;
    }
    assert forall|j: int| 0 <= j < digits@.len() implies decimal::is_digit(
        #[trigger] digits@[j],
    ) by {
        if j < whole.len() {
            assert(digits@[j] == whole[j]);
        } else {
            assert(digits@[j] == fraction[j - whole.len()]);
        }
    }
    let places: i128 = (point - start) as i128;
    proof {
        let x = parsed_exponent(field.skip(split - start + 1))->0;
        lemma_capped_exponent(digits@, places as int, x);
    }
    Some(time::clamp(leading_nanos(&digits, places + exponent + 9)))
}

/// Appends the characters from `start` up to `end` if all are digits, and tells
/// whether they are.
fn push_digits(digits: &mut Vec<char>, chars: &Vec<char>, start: usize, end: usize) -> (pure: bool)
    requires
        start <= end <= chars@.len(),
    ensures
        pure == decimal::all_digits(chars@.subrange(start as int, end as int)),
        pure ==> final(digits)@ == old(digits)@ + chars@.subrange(start as int, end as int),
{
    let ghost field = chars@.subrange(start as int, end as int);
    let mut i: usize = start;
    assert(digits@ =~= old(digits)@ + field.take(0));
    while i < end
        invariant
            start <= i <= end <= chars@.len(),
            field == chars@.subrange(start as int, end as int),
            decimal::all_digits(field.take(i - start)),
            digits@ == old(digits)@ + field.take(i - start),
        decreases end - i,
    {
        let c: char = chars[i];
        assert(field[i - start] == c);
        if c < '0' || c > '9' {
            return false;
        }
        digits.push(c);
        assert(field.take(i - start + 1) =~= field.take(i - start).push(c));
        assert(digits@ =~= old(digits)@ + field.take(i - start + 1));
        i = i + 1;
    }
    assert(field.take(i - start) =~= field);
    true
}

/// An exponent moves the point: one place further right, and one less in the
/// exponent, is the same time.
pub proof fn law_exponent_moves_the_point(
    whole: Seq<char>,
    d: char,
    fraction: Seq<char>,
    exponent: int,
)
    requires
        decimal::all_digits(whole),
        '0' <= d <= '9',
        decimal::all_digits(fraction),
    ensures
        scaled_seconds(whole + seq!['.', d] + fraction, exponent) == scaled_seconds(
            whole + seq![d, '.'] + fraction,
            exponent - 1,
        ),
        scaled_seconds(whole + seq!['.', d] + fraction, exponent) is Some,
{
    let one = whole + seq!['.', d] + fraction;
    let other = whole + seq![d, '.'] + fraction;
    let n = whole.len() as int;
    assert(one[n] == '.');
    assert(other[n + 1] == '.');
    assert forall|j: int| 0 <= j < n implies one[j] != '.' by {
        assert(one[j] == whole[j]);
        assert(decimal::is_digit(whole[j]));
    }
    assert forall|j: int| 0 <= j < n + 1 implies other[j] != '.' by {
        if j < n {
            assert(other[j] == whole[j]);
            assert(decimal::is_digit(whole[j]));
        }
    }
    decimal::lemma_point_at(one, 0, n);
    decimal::lemma_point_at(other, 0, n + 1);
    let tail = seq![d] + fraction;
    let head = whole + seq![d];
    assert(one.take(n) =~= whole);
    assert(one.skip(n + 1) =~= tail);
    assert(other.take(n + 1) =~= head);
    assert(other.skip(n + 2) =~= fraction);
    assert(whole + tail =~= head + fraction);
    assert forall|j: int| 0 <= j < tail.len() implies decimal::is_digit(#[trigger] tail[j]) by {
        if j > 0 {
            assert(tail[j] == fraction[j - 1]);
        }
    }
    assert forall|j: int| 0 <= j < head.len() implies decimal::is_digit(#[trigger] head[j]) by {
        if j < n {
            assert(head[j] == whole[j]);
        }
    }
}

/// Ten to the power `n`.
pub open spec fn ten_to(n: nat) -> int
    decreases n,
{
    if n == 0 {
        1
    } else {
        10 * ten_to((n - 1) as nat)
    }
}

/// Digits put after others move these up.
proof fn lemma_value_of_sum(a: Seq<char>, b: Seq<char>)
    ensures
        decimal::value(a + b) == decimal::value(a) * ten_to(b.len()) + decimal::value(b),
    decreases b.len(),
{
    if b.len() == 0 {
        assert(a + b =~= a);
    } else {
        let less = b.drop_last();
        lemma_value_of_sum(a, less);
        assert((a + b).drop_last() =~= a + less);
        assert((a + b).last() == b.last());
        let (x, t) = (decimal::value(a), ten_to(less.len()));
        assert(10 * (x * t) == x * (10 * t)) by (nonlinear_arith);
    }
}

/// Decimal seconds are read to the nanosecond: the digits before the point are
/// seconds, and the nine after it are nanoseconds.
pub proof fn law_nine_decimals_are_nanoseconds(whole: Seq<char>, fraction: Seq<char>)
    requires
        decimal::all_digits(whole),
        decimal::all_digits(fraction),
        fraction.len() == 9,
        decimal::value(whole) * 1_000_000_000 + decimal::value(fraction) <= i64::MAX,
    ensures
        decimal::parsed_seconds(whole + seq!['.'] + fraction) == Some(
            decimal::value(whole) * 1_000_000_000 + decimal::value(fraction),
        ),
{
    let s = whole + seq!['.'] + fraction;
    let n = whole.len() as int;
    assert(s[n] == '.');
    assert forall|j: int| 0 <= j < n implies s[j] != '.' by {
        assert(s[j] == whole[j]);
        assert(decimal::is_digit(whole[j]));
    }
    decimal::lemma_point_at(s, 0, n);
    assert(s.take(n) =~= whole);
    assert(s.skip(n + 1) =~= fraction);
    law_exponent_of_zero(s);
    let digits = whole + fraction;
    lemma_leading_is_value(digits, n + 9);
    assert(digits.take(n + 9) =~= digits);
    lemma_value_of_sum(whole, fraction);
    reveal_with_fuel(ten_to, 10);
    decimal::lemma_value_grows(whole, n);
    decimal::lemma_value_grows(fraction, 9);
    assert(whole.take(n) =~= whole);
    assert(fraction.take(9) =~= fraction);
}

/// A zero put after the digits behind a point changes nothing.
pub proof fn law_trailing_zero_changes_nothing(whole: Seq<char>, fraction: Seq<char>)
    requires
        decimal::all_digits(whole),
        decimal::all_digits(fraction),
        whole.len() + fraction.len() > 0,
    ensures
        decimal::parsed_seconds(whole + seq!['.'] + fraction) == decimal::parsed_seconds(
            whole + seq!['.'] + fraction + seq!['0'],
        ),
{
    let s = whole + seq!['.'] + fraction;
    let t = whole + seq!['.'] + fraction + seq!['0'];
    let n = whole.len() as int;
    assert(s[n] == '.' && t[n] == '.');
    assert forall|j: int| 0 <= j < n implies s[j] != '.' && t[j] != '.' by {
        assert(s[j] == whole[j] && t[j] == whole[j]);
        assert(decimal::is_digit(whole[j]));
    }
    decimal::lemma_point_at(s, 0, n);
    decimal::lemma_point_at(t, 0, n);
    let longer = fraction + seq!['0'];
    assert(s.take(n) =~= whole && t.take(n) =~= whole);
    assert(s.skip(n + 1) =~= fraction);
    assert(t.skip(n + 1) =~= longer);
    assert forall|j: int| 0 <= j < longer.len() implies decimal::is_digit(
        #[trigger] longer[j],
    ) by {
        if j < fraction.len() {
            assert(longer[j] == fraction[j]);
        }
    }
    law_exponent_of_zero(s);
    law_exponent_of_zero(t);
    lemma_leading_zero(whole + fraction, n + 9);
    assert(whole + longer =~= (whole + fraction).push('0'));
}

/// Zeros fill the places past the end, so one more digit zero changes nothing.
proof fn lemma_leading_zero(digits: Seq<char>, n: int)
    ensures
        leading_value(digits.push('0'), n) == leading_value(digits, n),
    decreases n,
{
    if n > 0 {
        lemma_leading_zero(digits, n - 1);
    }
}

/// A number of seconds with an exponent is its mantissa, scaled; without one, it
/// is read as decimal seconds.
pub proof fn law_exponent_stands_behind_the_letter(
    mantissa: Seq<char>,
    letter: char,
    exponent: Seq<char>,
)
    requires
        forall|i: int| 0 <= i < mantissa.len() ==> mantissa[i] != 'e' && mantissa[i] != 'E',
        letter == 'e' || letter == 'E',
        exponent.len() > 0,
        decimal::all_digits(exponent),
    ensures
        scientific_seconds(mantissa) == decimal::parsed_seconds(mantissa),
        scientific_seconds(mantissa + seq![letter] + exponent) == scaled_seconds(
            mantissa,
            decimal::value(exponent),
        ),
        scientific_seconds(mantissa + seq![letter, '+'] + exponent) == scaled_seconds(
            mantissa,
            decimal::value(exponent),
        ),
        scientific_seconds(mantissa + seq![letter, '-'] + exponent) == scaled_seconds(
            mantissa,
            -decimal::value(exponent),
        ),
        scientific_seconds(mantissa + seq![letter]) is None,
{
    let n = mantissa.len() as int;
    lemma_exponent_at(mantissa, 0, n);
    assert(decimal::is_digit(exponent[0]));
    let plain = mantissa + seq![letter] + exponent;
    let plus = mantissa + seq![letter, '+'] + exponent;
    let minus = mantissa + seq![letter, '-'] + exponent;
    let bare = mantissa + seq![letter];
    assert(plain[n] == letter && plus[n] == letter && minus[n] == letter && bare[n] == letter);
    lemma_exponent_at(plain, 0, n);
    lemma_exponent_at(plus, 0, n);
    lemma_exponent_at(minus, 0, n);
    lemma_exponent_at(bare, 0, n);
    assert(plain.take(n) =~= mantissa && plus.take(n) =~= mantissa && minus.take(n) =~= mantissa);
    assert(plain.skip(n + 1) =~= exponent);
    assert(plus.skip(n + 1) =~= seq!['+'] + exponent);
    assert(minus.skip(n + 1) =~= seq!['-'] + exponent);
    assert((seq!['+'] + exponent).skip(1) =~= exponent);
    assert((seq!['-'] + exponent).skip(1) =~= exponent);
    assert(bare.skip(n + 1) =~= Seq::empty());
}

} // verus!
