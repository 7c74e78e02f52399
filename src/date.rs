//! Calendar dates: the library's own representation, their `YYYY-MM-DD` text,
//! and the two calendar services taken from `chrono`.

use chrono::Datelike;
use vstd::prelude::*;

verus! {

/// The earliest year that a `chrono::NaiveDate` can hold.
pub const MIN_YEAR: i32 = -262143;

/// The latest year that a `chrono::NaiveDate` can hold.
pub const MAX_YEAR: i32 = 262142;

/// A day of the proleptic Gregorian calendar.
#[derive(Clone, Copy, Debug, PartialEq, Eq, Structural)]
pub struct Date {
    pub year: i32,
    pub month: u32,
    pub day: u32,
}

pub open spec fn is_leap(y: int) -> bool {
    (y % 4 == 0 && y % 100 != 0) || y % 400 == 0
}

pub open spec fn days_in_month(y: int, m: int) -> int {
    if m == 2 {
        if is_leap(y) {
            29
        } else {
            28
        }
    } else if m == 4 || m == 6 || m == 9 || m == 11 {
        30
    } else {
        31
    }
}

impl Date {
    /// A real calendar day within the years that `chrono` covers.
    pub open spec fn wf(&self) -> bool {
        &&& MIN_YEAR <= self.year <= MAX_YEAR
        &&& 1 <= self.month <= 12
        &&& 1 <= self.day <= days_in_month(self.year as int, self.month as int)
    }

    /// The date of the given year, month and day, if that day exists.
    pub fn from_ymd(year: i32, month: u32, day: u32) -> (r: Option<Date>)
        ensures
            r is Some <==> (Date { year, month, day }).wf(),
            r matches Some(d) ==> d == (Date { year, month, day }),
    {
        if year < MIN_YEAR || year > MAX_YEAR || month < 1 || month > 12 || day < 1 {
            return None;
        }
        if day <= month_length(year, month) {
            Some(Date { year, month, day })
        } else {
            None
        }
    }
}

fn leap_year(y: i32) -> (r: bool)
    requires
        MIN_YEAR <= y <= MAX_YEAR,
    ensures
        r == is_leap(y as int),
{
    // Shifting by a multiple of 400 keeps every divisibility the rule looks at.
    let n: u32 = (y + 400000) as u32;
    proof {
        let yi = y as int;
        assert((yi + 400000) % 4 == yi % 4) by (nonlinear_arith);
        assert((yi + 400000) % 100 == yi % 100) by (nonlinear_arith);
        assert((yi + 400000) % 400 == yi % 400) by (nonlinear_arith);
    }
    (n % 4 == 0 && n % 100 != 0) || n % 400 == 0
}

fn month_length(y: i32, m: u32) -> (r: u32)
    requires
        MIN_YEAR <= y <= MAX_YEAR,
    ensures
        r == days_in_month(y as int, m as int),
{
    if m == 2 {
        if leap_year(y) {
            29
        } else {
            28
        }
    } else if m == 4 || m == 6 || m == 9 || m == 11 {
        30
    } else {
        31
    }
}

/// What `chrono::NaiveDate::parse_from_str(s, "%Y-%m-%d")` finds in `s`, as
/// year, month and day; `None` where it reports an error.
pub uninterp spec fn parsed_ymd(s: Seq<char>) -> Option<(int, int, int)>;

/// Relies on `chrono::NaiveDate::parse_from_str` with the format `%Y-%m-%d`:
/// the outcome depends on `s` alone, and a `NaiveDate` is always a real day
/// between `MIN_YEAR` and `MAX_YEAR`.
#[verifier::external_body]
pub(crate) fn parse_ymd(s: &str) -> (r: Option<Date>)
    ensures
        r is Some <==> parsed_ymd(s@) is Some,
        r matches Some(d) ==> d.wf() && parsed_ymd(s@) == Some(
            (d.year as int, d.month as int, d.day as int),
        ),
{
    match chrono::NaiveDate::parse_from_str(s, "%Y-%m-%d") {
        Ok(d) => Some(Date { year: d.year(), month: d.month(), day: d.day() }),
        Err(_) => None,
    }
}

/// Relies on `chrono::Local::now().date_naive()`: today's date in the local
/// time zone. Which day that is depends on the clock, so only that it is a
/// real day is stated.
#[verifier::external_body]
pub(crate) fn today() -> (r: Date)
    ensures
        r.wf(),
{
    let d = chrono::Local::now().date_naive();
    Date { year: d.year(), month: d.month(), day: d.day() }
}

pub open spec fn pow10(w: nat) -> nat
    decreases w,
{
    if w == 0 {
        1
    } else {
        10 * pow10((w - 1) as nat)
    }
}

pub open spec fn is_digit(c: char) -> bool {
    '0' <= c && c <= '9'
}

pub open spec fn digit_char(n: nat) -> char {
    (('0' as int) + n) as char
}

pub open spec fn all_digits(s: Seq<char>) -> bool {
    forall|i: int| 0 <= i < s.len() ==> is_digit(#[trigger] s[i])
}

/// The number that a string of decimal digits spells.
pub open spec fn digits_value(s: Seq<char>) -> nat
    decreases s.len(),
{
    if s.len() == 0 {
        0
    } else {
        digits_value(s.drop_last()) * 10 + ((s.last() as int) - ('0' as int)) as nat
    }
}

/// The last `w` decimal digits of `n`, zero-padded to exactly `w` characters.
pub open spec fn fixed(n: nat, w: nat) -> Seq<char>
    decreases w,
{
    if w == 0 {
        seq![]
    } else {
        fixed(n / 10, (w - 1) as nat).push(digit_char(n % 10))
    }
}

/// How many digits a year's magnitude is written with: at least four.
pub open spec fn year_width(n: nat) -> nat {
    if n < 10000 {
        4
    } else if n < 100000 {
        5
    } else {
        6
    }
}

/// A year as text: four digits within `0..=9999`, otherwise a sign and at
/// least four digits.
pub open spec fn year_text(y: int) -> Seq<char> {
    if 0 <= y <= 9999 {
        fixed(y as nat, 4)
    } else if y > 9999 {
        seq!['+'] + fixed(y as nat, year_width(y as nat))
    } else {
        seq!['-'] + fixed((-y) as nat, year_width((-y) as nat))
    }
}

/// A date as `YYYY-MM-DD`.
pub open spec fn date_text(d: Date) -> Seq<char> {
    year_text(d.year as int) + seq!['-'] + fixed(d.month as nat, 2) + seq!['-'] + fixed(
        d.day as nat,
        2,
    )
}

/// The year that a text spells: four to six digits, or a sign followed by four
/// to six digits.
pub open spec fn year_of_text(s: Seq<char>) -> Option<int> {
    if 4 <= s.len() <= 6 && all_digits(s) {
        Some(digits_value(s) as int)
    } else if 5 <= s.len() <= 7 && (s[0] == '+' || s[0] == '-') && all_digits(s.drop_first()) {
        if s[0] == '-' {
            Some(-(digits_value(s.drop_first()) as int))
        } else {
            Some(digits_value(s.drop_first()) as int)
        }
    } else {
        None
    }
}

/// The date that a text spells as `YYYY-MM-DD`, if it is a real day.
pub open spec fn date_of_text(s: Seq<char>) -> Option<Date> {
    let n = s.len() as int;
    if n >= 10 && s[n - 6] == '-' && s[n - 3] == '-' && all_digits(s.subrange(n - 5, n - 3))
        && all_digits(s.subrange(n - 2, n)) {
        match year_of_text(s.subrange(0, n - 6)) {
            Some(y) => {
                let d = Date {
                    year: y as i32,
                    month: digits_value(s.subrange(n - 5, n - 3)) as u32,
                    day: digits_value(s.subrange(n - 2, n)) as u32,
                };
                if MIN_YEAR <= y <= MAX_YEAR && d.wf() {
                    Some(d)
                } else {
                    None
                }
            },
            None => None,
        }
    } else {
        None
    }
}

proof fn lemma_fixed(n: nat, w: nat)
    requires
        n < pow10(w),
    ensures
        fixed(n, w).len() == w,
        all_digits(fixed(n, w)),
        digits_value(fixed(n, w)) == n,
    decreases w,
{
    if w > 0 {
        let p = pow10((w - 1) as nat);
        assert(n / 10 < p) by (nonlinear_arith)
            requires
                n < 10 * p,
        ;
        lemma_fixed(n / 10, (w - 1) as nat);
        let f = fixed(n, w);
        assert(f.drop_last() == fixed(n / 10, (w - 1) as nat));
        assert(n == (n / 10) * 10 + n % 10) by (nonlinear_arith);
        assert forall|i: int| 0 <= i < f.len() implies is_digit(#[trigger] f[i]) by {
            if i < f.len() - 1 {
                assert(f[i] == fixed(n / 10, (w - 1) as nat)[i]);
            }
        }
    }
}

proof fn lemma_digits_value_bound(s: Seq<char>)
    requires
        all_digits(s),
    ensures
        digits_value(s) < pow10(s.len()),
    decreases s.len(),
{
    if s.len() > 0 {
        let t = s.drop_last();
        assert forall|i: int| 0 <= i < t.len() implies is_digit(#[trigger] t[i]) by {
            assert(t[i] == s[i]);
        }
        lemma_digits_value_bound(t);
        assert(is_digit(s[s.len() - 1]));
        let v = digits_value(t);
        let p = pow10(t.len());
        let dv = ((s.last() as int) - ('0' as int));
        assert(v * 10 + dv < 10 * p) by (nonlinear_arith)
            requires
                v < p,
                0 <= dv < 10,
        ;
    }
}

/// Reading back the text of a real day gives that day.
pub proof fn lemma_date_text_round_trip(d: Date)
    requires
        d.wf(),
    ensures
        date_of_text(date_text(d)) == Some(d),
{
    let y = d.year as int;
    let yt = year_text(y);
    let mt = fixed(d.month as nat, 2);
    let dt = fixed(d.day as nat, 2);
    reveal_with_fuel(pow10, 7);
    lemma_fixed(d.month as nat, 2);
    lemma_fixed(d.day as nat, 2);
    if 0 <= y <= 9999 {
        lemma_fixed(y as nat, 4);
    } else if y > 9999 {
        lemma_fixed(y as nat, year_width(y as nat));
        let f = fixed(y as nat, year_width(y as nat));
        assert((seq!['+'] + f).drop_first() =~= f);
        assert(!is_digit((seq!['+'] + f)[0]));
    } else {
        lemma_fixed((-y) as nat, year_width((-y) as nat));
        let f = fixed((-y) as nat, year_width((-y) as nat));
        assert((seq!['-'] + f).drop_first() =~= f);
        assert(!is_digit((seq!['-'] + f)[0]));
    }
    let s = date_text(d);
    let n = s.len() as int;
    assert(s.subrange(0, n - 6) =~= yt);
    assert(s.subrange(n - 5, n - 3) =~= mt);
    assert(s.subrange(n - 2, n) =~= dt);
}

fn push_fixed(out: &mut Vec<char>, n: u32, w: u32)
    ensures
        final(out)@ == old(out)@ + fixed(n as nat, w as nat),
    decreases w,
{
    if w > 0 {
        push_fixed(out, n / 10, w - 1);
        out.push(((n % 10) as u8 + 48) as char);
        assert(final(out)@ =~= old(out)@ + fixed(n as nat, w as nat));
    } else {
        assert(final(out)@ =~= old(out)@ + fixed(n as nat, w as nat));
    }
}

/// Appends the `YYYY-MM-DD` text of `d` to `out`.
pub fn push_date_text(out: &mut Vec<char>, d: Date)
    requires
        d.wf(),
    ensures
        final(out)@ == old(out)@ + date_text(d),
{
    let y = d.year;
    if 0 <= y && y <= 9999 {
        push_fixed(out, y as u32, 4);
    } else {
        let m: u32 = if y > 9999 {
            out.push('+');
            y as u32
        } else {
            out.push('-');
            (-y) as u32
        };
        let w: u32 = if m < 10000 {
            4
        } else if m < 100000 {
            5
        } else {
            6
        };
        push_fixed(out, m, w);
    }
    out.push('-');
    push_fixed(out, d.month, 2);
    out.push('-');
    push_fixed(out, d.day, 2);
    assert(final(out)@ =~= old(out)@ + date_text(d));
}

fn all_digits_in(s: &Vec<char>, from: usize, to: usize) -> (r: bool)
    requires
        from <= to <= s.len(),
    ensures
        r == all_digits(s@.subrange(from as int, to as int)),
{
    let mut i = from;
    while i < to
        invariant
            from <= i <= to <= s.len(),
            forall|k: int| from <= k < i ==> is_digit(#[trigger] s@[k]),
        decreases to - i,
    {
        if !('0' <= s[i] && s[i] <= '9') {
            assert(!is_digit(s@.subrange(from as int, to as int)[i - from]));
            return false;
        }
        i = i + 1;
    }
    assert forall|k: int| 0 <= k < to - from implies is_digit(
        #[trigger] s@.subrange(from as int, to as int)[k],
    ) by {
        assert(s@.subrange(from as int, to as int)[k] == s@[from + k]);
    }
    true
}

fn value_of_digits(s: &Vec<char>, from: usize, to: usize) -> (r: u32)
    requires
        from <= to <= s.len(),
        to - from <= 6,
        all_digits(s@.subrange(from as int, to as int)),
    ensures
        r == digits_value(s@.subrange(from as int, to as int)),
{
    let ghost t = s@.subrange(from as int, to as int);
    let mut v: u32 = 0;
    let mut i = from;
    while i < to
        invariant
            from <= i <= to <= s.len(),
            to - from <= 6,
            t == s@.subrange(from as int, to as int),
            all_digits(t),
            v == digits_value(s@.subrange(from as int, i as int)),
            v < pow10((i - from) as nat),
            pow10((i - from) as nat) <= 1000000,
        decreases to - i,
    {
        let ghost u = s@.subrange(from as int, i + 1);
        assert(u.drop_last() =~= s@.subrange(from as int, i as int));
        assert(is_digit(t[i - from]));
        assert(s@[i as int] == t[i - from]);
        let dv: u32 = (s[i] as u32) - 48;
        proof {
            reveal_with_fuel(pow10, 7);
            let p = pow10((i - from) as nat);
            assert(v * 10 + dv < 10 * p) by (nonlinear_arith)
                requires
                    v < p,
                    dv < 10,
            ;
            assert(i + 1 - from <= 6 ==> pow10((i + 1 - from) as nat) <= 1000000);
        }
        v = v * 10 + dv;
        i = i + 1;
    }
    v
}

fn year_from_text(s: &Vec<char>, from: usize, to: usize) -> (r: Option<i32>)
    requires
        from <= to <= s.len(),
    ensures
        r matches Some(y) ==> year_of_text(s@.subrange(from as int, to as int)) == Some(y as int),
        r is None ==> year_of_text(s@.subrange(from as int, to as int)) is None || !(MIN_YEAR
            <= year_of_text(s@.subrange(from as int, to as int))->0 <= MAX_YEAR),
{
    let ghost t = s@.subrange(from as int, to as int);
    let len = to - from;
    proof {
        reveal_with_fuel(pow10, 7);
    }
    if 4 <= len && len <= 6 && all_digits_in(s, from, to) {
        let v = value_of_digits(s, from, to);
        proof {
            lemma_digits_value_bound(t);
        }
        if v <= MAX_YEAR as u32 {
            return Some(v as i32);
        }
        return None;
    }
    if len > 0 {
        assert(t.drop_first() =~= s@.subrange(from + 1, to as int));
    }
    if 5 <= len && len <= 7 && (s[from] == '+' || s[from] == '-') && all_digits_in(
        s,
        from + 1,
        to,
    ) {
        let v = value_of_digits(s, from + 1, to);
        if s[from] == '-' {
            if v <= 262143 {
                return Some(-(v as i32));
            }
        } else if v <= MAX_YEAR as u32 {
            return Some(v as i32);
        }
        return None;
    }
    None
}

/// The date that `s[from..to]` spells as `YYYY-MM-DD`, if it is a real day.
pub fn date_from_text(s: &Vec<char>, from: usize, to: usize) -> (r: Option<Date>)
    requires
        from <= to <= s.len(),
    ensures
        r == date_of_text(s@.subrange(from as int, to as int)),
{
    let ghost t = s@.subrange(from as int, to as int);
    if to - from < 10 || s[to - 6] != '-' || s[to - 3] != '-' {
        return None;
    }
    if !all_digits_in(s, to - 5, to - 3) || !all_digits_in(s, to - 2, to) {
        assert(t.subrange(t.len() - 5, t.len() - 3) =~= s@.subrange(to - 5, to - 3));
        assert(t.subrange(t.len() - 2, t.len() as int) =~= s@.subrange(to - 2, to as int));
        return None;
    }
    let ghost n = t.len() as int;
    assert(t.subrange(n - 5, n - 3) =~= s@.subrange(to - 5, to - 3));
    assert(t.subrange(n - 2, n) =~= s@.subrange(to - 2, to as int));
    assert(t.subrange(0, n - 6) =~= s@.subrange(from as int, to - 6));
    let month = value_of_digits(s, to - 5, to - 3);
    let day = value_of_digits(s, to - 2, to);
    match year_from_text(s, from, to - 6) {
        Some(y) => Date::from_ymd(y, month, day),
        None => None,
    }
}

} // verus!
