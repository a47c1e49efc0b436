//! The date ranges of the driving summaries: this week, this month or all
//! time, each with the period before it to compare with.
use vstd::prelude::*;
use chrono::Datelike;
use crate::scanner::same_chars;
use crate::text::string_from_chars;

verus! {

/// A leap year of the proleptic Gregorian calendar (year 0 and -4 are leap years).
pub open spec fn is_leap_year(y: int) -> bool {
    y % 4 == 0 && (y % 100 != 0 || y % 400 == 0)
}

/// The number of days in month `m` of year `y`.
pub open spec fn days_in_month(y: int, m: int) -> int {
    if m == 2 {
        if is_leap_year(y) {
            29
        } else {
            28
        }
    } else if m == 4 || m == 6 || m == 9 || m == 11 {
        30
    } else {
        31
    }
}

/// The first and last years of the dates `chrono::NaiveDate` represents.
pub open spec fn first_year() -> int {
    -262143
}

pub open spec fn last_year() -> int {
    262142
}

/// A date that `NaiveDate::from_ymd_opt` accepts.
pub open spec fn is_valid_date(y: int, m: int, d: int) -> bool {
    first_year() <= y <= last_year() && 1 <= m <= 12 && 1 <= d <= days_in_month(y, m)
}

/// The calendar date `days` days (0 to 7) before `year`-`month`-`day`:
/// `None` when that date is not a date `chrono` represents, or when the
/// result falls before its first date, January 1 of its first year.
pub open spec fn days_before(year: i32, month: u32, day: u32, days: i64) -> Option<(i32, u32, u32)> {
    if !is_valid_date(year as int, month as int, day as int) {
        None
    } else if day > days {
        Some((year, month, (day - days) as u32))
    } else {
        let py: int = if month == 1 { year - 1 } else { year as int };
        let pm: int = if month == 1 { 12 } else { month - 1 };
        if py < first_year() {
            None
        } else {
            Some((py as i32, pm as u32, (days_in_month(py, pm) + day - days) as u32))
        }
    }
}

/// `NaiveDate::from_ymd_opt`, then `checked_sub_signed` by
/// `TimeDelta::try_days(days)`, then the year, month and day of the result.
/// The contract claims what chrono documents: the date is one of the
/// proleptic Gregorian calendar within chrono's years, and stepping back
/// up to a week gives the calendar date that many days before, or nothing
/// before chrono's first date (`days_before`).
#[verifier::external_body]
fn date_minus_days(year: i32, month: u32, day: u32, days: i64) -> (r: Option<(i32, u32, u32)>)
    requires
        0 <= days <= 7,
    ensures
        r == days_before(year, month, day, days),
{
    let d = chrono::NaiveDate::from_ymd_opt(year, month, day)?;
    let e = d.checked_sub_signed(chrono::TimeDelta::try_days(days)?)?;
    Some((e.year(), e.month(), e.day()))
}

/// The character of the decimal digit `d`.
pub open spec fn digit_char(d: int) -> char {
    if d == 0 {
        '0'
    } else if d == 1 {
        '1'
    } else if d == 2 {
        '2'
    } else if d == 3 {
        '3'
    } else if d == 4 {
        '4'
    } else if d == 5 {
        '5'
    } else if d == 6 {
        '6'
    } else if d == 7 {
        '7'
    } else if d == 8 {
        '8'
    } else {
        '9'
    }
}

/// The decimal digits of `n`, without leading zeros.
pub open spec fn decimal(n: nat) -> Seq<char>
    decreases n,
{
    if n < 10 {
        seq![digit_char(n as int)]
    } else {
        decimal(n / 10).push(digit_char((n % 10) as int))
    }
}

/// `s` with zeros in front, to at least `w` characters.
pub open spec fn zero_pad(s: Seq<char>, w: nat) -> Seq<char> {
    if s.len() >= w {
        s
    } else {
        Seq::new((w - s.len()) as nat, |_i: int| '0') + s
    }
}

/// A year as `%Y` writes it: four digits with leading zeros for years 0 to
/// 9999, otherwise a sign followed by at least four digits.
pub open spec fn year_text(y: i32) -> Seq<char> {
    if 0 <= y < 10000 {
        zero_pad(decimal(y as nat), 4)
    } else if y >= 10000 {
        seq!['+'] + zero_pad(decimal(y as nat), 4)
    } else {
        seq!['-'] + zero_pad(decimal((-y) as nat), 4)
    }
}

/// A year as `{}` writes it: a `-` for negative years, then its digits.
pub open spec fn plain_year_text(y: int) -> Seq<char> {
    if y < 0 {
        seq!['-'] + decimal((-y) as nat)
    } else {
        decimal(y as nat)
    }
}

/// A month or day as two digits.
pub open spec fn two_digits(v: u32) -> Seq<char> {
    zero_pad(decimal(v as nat), 2)
}

/// A date as `%Y-%m-%d` writes it.
pub open spec fn date_text(y: i32, m: u32, d: u32) -> Seq<char> {
    year_text(y) + seq!['-'] + two_digits(m) + seq!['-'] + two_digits(d)
}

pub open spec fn first_of_month_suffix() -> Seq<char> {
    seq!['-', '0', '1']
}

pub open spec fn epoch_text() -> Seq<char> {
    seq!['1', '9', '7', '0', '-', '0', '1', '-', '0', '1']
}

pub open spec fn week_name() -> Seq<char> {
    seq!['w', 'e', 'e', 'k']
}

pub open spec fn month_name() -> Seq<char> {
    seq!['m', 'o', 'n', 't', 'h']
}

/// The first day of a period and the first and last days of the period
/// before it, as text.  "week": from the Monday of this week (`weekday`
/// days back, Monday being 0) to today; the week before runs from that
/// Monday less 7 days to that Monday less 1 day.  "month": from the 1st of
/// this month; the month before runs from its 1st (December of the year
/// before in January) to the day before this month's 1st (empty text when
/// there is none).  Anything else: from "1970-01-01", with nothing before.
/// `None` for a week whose dates cannot be computed.
pub open spec fn period_bounds_spec(period: Seq<char>, year: i32, month: u32, day: u32, weekday: u32) -> Option<
    (Seq<char>, Option<Seq<char>>, Option<Seq<char>>),
> {
    if period == week_name() {
        match days_before(year, month, day, weekday as i64) {
            Some(s) => match (days_before(s.0, s.1, s.2, 7), days_before(s.0, s.1, s.2, 1)) {
                (Some(p), Some(q)) => Some(
                    (date_text(s.0, s.1, s.2), Some(date_text(p.0, p.1, p.2)), Some(date_text(q.0, q.1, q.2))),
                ),
                _ => None,
            },
            None => None,
        }
    } else if period == month_name() {
        let from = year_text(year) + seq!['-'] + two_digits(month) + first_of_month_suffix();
        let prev_from = if month == 1 {
            plain_year_text(year - 1) + seq!['-', '1', '2', '-', '0', '1']
        } else {
            plain_year_text(year as int) + seq!['-'] + two_digits((month - 1) as u32) + first_of_month_suffix()
        };
        let prev_to = match days_before(year, month, 1, 1) {
            Some(q) => date_text(q.0, q.1, q.2),
            None => Seq::empty(),
        };
        Some((from, Some(prev_from), Some(prev_to)))
    } else {
        Some((epoch_text(), None, None))
    }
}

/// The calendar day before `date` (year, month, day).
pub open spec fn prev_day(date: (int, int, int)) -> (int, int, int) {
    if date.2 > 1 {
        (date.0, date.1, date.2 - 1)
    } else if date.1 > 1 {
        (date.0, date.1 - 1, days_in_month(date.0, date.1 - 1))
    } else {
        (date.0 - 1, 12, 31)
    }
}

/// The calendar date `n` days before `date`, stepping back one day at a time.
pub open spec fn back(date: (int, int, int), n: nat) -> (int, int, int)
    decreases n,
{
    if n == 0 {
        date
    } else {
        prev_day(back(date, (n - 1) as nat))
    }
}

/// A date given as three integers, as `%Y-%m-%d` writes it.
pub open spec fn date_text_of(date: (int, int, int)) -> Seq<char> {
    date_text(date.0 as i32, date.1 as u32, date.2 as u32)
}

proof fn lemma_back_add(date: (int, int, int), a: nat, b: nat)
    ensures
        back(date, a + b) == back(back(date, a), b),
    decreases b,
{
    if b > 0 {
        lemma_back_add(date, a, (b - 1) as nat);
        assert(back(date, a + b) == prev_day(back(date, (a + b - 1) as nat)));
    }
}

proof fn lemma_back_within_month(date: (int, int, int), j: nat)
    requires
        j < date.2,
    ensures
        back(date, j) == (date.0, date.1, date.2 - j),
    decreases j,
{
    if j > 0 {
        lemma_back_within_month(date, (j - 1) as nat);
    }
}

/// Stepping back up to a week with `days_before` lands on the date that
/// many calendar days before, and that date is a valid one.
proof fn lemma_days_before_is_back(year: i32, month: u32, day: u32, days: i64)
    requires
        0 <= days <= 7,
        days_before(year, month, day, days) is Some,
    ensures
        ({
            let s = days_before(year, month, day, days)->0;
            &&& (s.0 as int, s.1 as int, s.2 as int) == back((year as int, month as int, day as int), days as nat)
            &&& is_valid_date(s.0 as int, s.1 as int, s.2 as int)
        }),
{
    let t = (year as int, month as int, day as int);
    let k = days as nat;
    if day > days {
        lemma_back_within_month(t, k);
    } else {
        let py: int = if month == 1 { year - 1 } else { year as int };
        let pm: int = if month == 1 { 12 } else { month - 1 };
        let dim = days_in_month(py, pm);
        lemma_back_within_month(t, (day - 1) as nat);
        assert(back(t, day as nat) == prev_day(back(t, (day - 1) as nat)));
        assert(back(t, day as nat) == (py, pm, dim));
        lemma_back_add(t, day as nat, (k - day) as nat);
        assert(day as nat + (k - day) as nat == k);
        lemma_back_within_month((py, pm, dim), (k - day) as nat);
    }
}

/// Law of the week bounds: for "week" the period starts exactly
/// `weekday_from_monday` calendar days before the given date (on a Monday,
/// the date itself); the week before starts seven days before that and
/// ends the day before it. For a valid date after chrono's first year the
/// bounds are always there.
pub proof fn lemma_week_bounds(year: i32, month: u32, day: u32, weekday_from_monday: u32)
    requires
        weekday_from_monday < 7,
    ensures
        period_bounds_spec(seq!['w', 'e', 'e', 'k'], year, month, day, weekday_from_monday) matches Some((a, b, c))
            ==> {
            let t = (year as int, month as int, day as int);
            &&& a == date_text_of(back(t, weekday_from_monday as nat))
            &&& b == Some(date_text_of(back(t, (weekday_from_monday + 7) as nat)))
            &&& c == Some(date_text_of(back(t, (weekday_from_monday + 1) as nat)))
        },
        is_valid_date(year as int, month as int, day as int) && year > first_year() ==> period_bounds_spec(
            seq!['w', 'e', 'e', 'k'],
            year,
            month,
            day,
            weekday_from_monday,
        ) is Some,
{
    let t = (year as int, month as int, day as int);
    let w = weekday_from_monday as nat;
    assert(seq!['w', 'e', 'e', 'k'] == week_name());
    if let Some(s) = days_before(year, month, day, weekday_from_monday as i64) {
        lemma_days_before_is_back(year, month, day, weekday_from_monday as i64);
        let st = (s.0 as int, s.1 as int, s.2 as int);
        assert(st == back(t, w));
        lemma_back_add(t, w, 7);
        lemma_back_add(t, w, 1);
        if let Some(p) = days_before(s.0, s.1, s.2, 7) {
            lemma_days_before_is_back(s.0, s.1, s.2, 7);
            assert((p.0 as int, p.1 as int, p.2 as int) == back(t, w + 7));
        }
        if let Some(q) = days_before(s.0, s.1, s.2, 1) {
            lemma_days_before_is_back(s.0, s.1, s.2, 1);
            assert((q.0 as int, q.1 as int, q.2 as int) == back(t, w + 1));
        }
        if year > first_year() {
            assert(s.0 >= year - 1);
            assert(s.0 < year ==> s.1 == 12);
            assert(days_before(s.0, s.1, s.2, 7) is Some);
            assert(days_before(s.0, s.1, s.2, 1) is Some);
        }
    }
}

/// The characters of an optional string.
pub open spec fn opt_text(o: Option<String>) -> Option<Seq<char>> {
    match o {
        Some(s) => Some(s@),
        None => None,
    }
}

fn digit(d: u64) -> (c: char)
    requires
        d < 10,
    ensures
        c == digit_char(d as int),
{
    match d {
        0 => '0',
        1 => '1',
        2 => '2',
        3 => '3',
        4 => '4',
        5 => '5',
        6 => '6',
        7 => '7',
        8 => '8',
        _ => '9',
    }
}

/// Appends the decimal digits of `n` to `out`.
fn push_decimal(n: u64, out: &mut Vec<char>)
    ensures
        final(out)@ == old(out)@ + decimal(n as nat),
    decreases n,
{
    if n >= 10 {
        push_decimal(n / 10, out);
    }
    let c = digit(n % 10);
    let ghost before = out@;
    out.push(c);
    proof {
        if n >= 10 {
            assert(before == old(out)@ + decimal((n / 10) as nat));
            assert(out@ =~= old(out)@ + decimal(n as nat));
        } else {
            assert(out@ =~= old(out)@ + decimal(n as nat));
        }
    }
}

/// Appends `n` in decimal, with zeros in front to at least `w` digits.
fn push_padded(n: u64, w: usize, out: &mut Vec<char>)
    ensures
        final(out)@ == old(out)@ + zero_pad(decimal(n as nat), w as nat),
{
    let mut digits: Vec<char> = Vec::new();
    push_decimal(n, &mut digits);
    assert(digits@ =~= decimal(n as nat));
    let len = digits.len();
    let ghost start = out@;
    if len < w {
        let mut k: usize = 0;
        while k < w - len
            invariant
                k <= w - len,
                len < w,
                out@ == start + Seq::new(k as nat, |_i: int| '0'),
            decreases w - len - k,
        {
            out.push('0');
            proof {
                assert(start + Seq::new((k + 1) as nat, |_i: int| '0') =~= (start + Seq::new(
                    k as nat,
                    |_i: int| '0',
                )).push('0'));
            }
            k = k + 1;
        }
    }
    let ghost mid = out@;
    let mut i: usize = 0;
    while i < len
        invariant
            i <= len,
            len == digits@.len(),
            out@ == mid + digits@.take(i as int),
        decreases len - i,
    {
        out.push(digits[i]);
        proof {
            assert(digits@.take(i + 1) =~= digits@.take(i as int).push(digits@[i as int]));
        }
        i = i + 1;
    }
    proof {
        assert(digits@.take(len as int) =~= digits@);
        if len < w {
            assert(start + Seq::new((w - len) as nat, |_i: int| '0') + digits@ =~= start + zero_pad(
                decimal(n as nat),
                w as nat,
            ));
        } else {
            assert(start + digits@ =~= start + zero_pad(decimal(n as nat), w as nat));
        }
    }
}

/// Appends a year as `%Y` writes it.
fn push_year(y: i32, out: &mut Vec<char>)
    ensures
        final(out)@ == old(out)@ + year_text(y),
{
    if 0 <= y && y < 10000 {
        push_padded(y as u64, 4, out);
    } else if y >= 10000 {
        out.push('+');
        let ghost mid = out@;
        push_padded(y as u64, 4, out);
        proof {
            assert(out@ =~= old(out)@ + year_text(y));
        }
    } else {
        out.push('-');
        let ghost mid = out@;
        let a: u64 = (0 - (y as i64)) as u64;
        push_padded(a, 4, out);
        proof {
            assert(out@ =~= old(out)@ + year_text(y));
        }
    }
}

/// Appends a year as `{}` writes it.
fn push_plain_year(y: i64, out: &mut Vec<char>)
    requires
        y > i64::MIN,
    ensures
        final(out)@ == old(out)@ + plain_year_text(y as int),
{
    if y < 0 {
        out.push('-');
        push_decimal((0 - y) as u64, out);
        proof {
            assert(out@ =~= old(out)@ + plain_year_text(y as int));
        }
    } else {
        push_decimal(y as u64, out);
    }
}

/// A date as `%Y-%m-%d` writes it.
fn date_string(y: i32, m: u32, d: u32) -> (r: String)
    ensures
        r@ == date_text(y, m, d),
{
    let mut out: Vec<char> = Vec::new();
    push_year(y, &mut out);
    out.push('-');
    push_padded(m as u64, 2, &mut out);
    out.push('-');
    push_padded(d as u64, 2, &mut out);
    proof {
        assert(out@ =~= date_text(y, m, d));
    }
    string_from_chars(out.as_slice())
}

/// The first day of the period `period` ("week", "month" or anything else)
/// and the first and last days of the period before it, as "%Y-%m-%d"
/// text, for today being `year`-`month`-`day`, `weekday_from_monday` days
/// after the Monday of its week (see `period_bounds_spec`).
pub fn period_bounds(period: &str, year: i32, month: u32, day: u32, weekday_from_monday: u32) -> (r: Option<
    (String, Option<String>, Option<String>),
>)
    requires
        weekday_from_monday < 7,
        1 <= month <= 12,
    ensures
        match r {
            Some((a, b, c)) => period_bounds_spec(period@, year, month, day, weekday_from_monday) == Some(
                (a@, opt_text(b), opt_text(c)),
            ),
            None => period_bounds_spec(period@, year, month, day, weekday_from_monday) is None,
        },
{
    proof {
        reveal_strlit("week");
        reveal_strlit("month");
        reveal_strlit("1970-01-01");
        assert("week"@ =~= week_name());
        assert("month"@ =~= month_name());
        assert("1970-01-01"@ =~= epoch_text());
    }
    if same_chars(period, "week") {
        let s = match date_minus_days(year, month, day, weekday_from_monday as i64) {
            Some(s) => s,
            None => {
                return None;
            },
        };
        let p = date_minus_days(s.0, s.1, s.2, 7);
        let q = date_minus_days(s.0, s.1, s.2, 1);
        match (p, q) {
            (Some(p), Some(q)) => Some(
                (
                    date_string(s.0, s.1, s.2),
                    Some(date_string(p.0, p.1, p.2)),
                    Some(date_string(q.0, q.1, q.2)),
                ),
            ),
            _ => None,
        }
    } else if same_chars(period, "month") {
        let mut from: Vec<char> = Vec::new();
        push_year(year, &mut from);
        from.push('-');
        push_padded(month as u64, 2, &mut from);
        from.push('-');
        from.push('0');
        from.push('1');
        proof {
            assert(from@ =~= year_text(year) + seq!['-'] + two_digits(month) + first_of_month_suffix());
        }
        let mut prev: Vec<char> = Vec::new();
        if month == 1 {
            push_plain_year(year as i64 - 1, &mut prev);
            prev.push('-');
            prev.push('1');
            prev.push('2');
            prev.push('-');
            prev.push('0');
            prev.push('1');
            proof {
                assert(prev@ =~= plain_year_text(year - 1) + seq!['-', '1', '2', '-', '0', '1']);
            }
        } else {
            push_plain_year(year as i64, &mut prev);
            prev.push('-');
            push_padded((month - 1) as u64, 2, &mut prev);
            prev.push('-');
            prev.push('0');
            prev.push('1');
            proof {
                assert(prev@ =~= plain_year_text(year as int) + seq!['-'] + two_digits((month - 1) as u32)
                    + first_of_month_suffix());
            }
        }
        let prev_to = match date_minus_days(year, month, 1, 1) {
            Some(q) => date_string(q.0, q.1, q.2),
            None => String::new(),
        };
        Some((string_from_chars(from.as_slice()), Some(string_from_chars(prev.as_slice())), Some(prev_to)))
    } else {
        Some(("1970-01-01".to_owned(), None, None))
    }
}

} // verus!
