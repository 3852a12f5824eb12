//! Calendar dates as plain year, month and day, with the due-date rules.

use chrono::Datelike;
use vstd::prelude::*;

use crate::model::Repeat;
use crate::text::{lower_of, lowercase, text_eq, trim_of, trim_text};

verus! {

/// The earliest year a date can hold.
pub const MIN_YEAR: i32 = -262143;

/// The latest year a date can hold.
pub const MAX_YEAR: i32 = 262142;

/// A day of the proleptic Gregorian calendar.
#[derive(Clone, Copy, Debug, PartialEq, Eq, Structural)]
pub struct Date {
    pub year: i32,
    pub month: u32,
    pub day: u32,
}

pub open spec fn is_leap(y: int) -> bool {
    (y % 4 == 0 && y % 100 != 0) || y % 400 == 0
}

pub open spec fn days_in_month(y: int, m: int) -> int {
    if m == 2 {
        if is_leap(y) {
            29
        } else {
            28
        }
    } else if m == 4 || m == 6 || m == 9 || m == 11 {
        30
    } else {
        31
    }
}

/// Days in the months of year `y` before month `m`.
pub open spec fn days_before_month(y: int, m: int) -> int {
    let base: int = if m == 1 {
        0
    } else if m == 2 {
        31
    } else if m == 3 {
        59
    } else if m == 4 {
        90
    } else if m == 5 {
        120
    } else if m == 6 {
        151
    } else if m == 7 {
        181
    } else if m == 8 {
        212
    } else if m == 9 {
        243
    } else if m == 10 {
        273
    } else if m == 11 {
        304
    } else {
        334
    };
    if m > 2 && is_leap(y) {
        base + 1
    } else {
        base
    }
}

/// Days in the years before year `y`, counted from the start of year 1.
pub open spec fn days_before_year(y: int) -> int {
    365 * (y - 1) + (y - 1) / 4 - (y - 1) / 100 + (y - 1) / 400
}

impl Date {
    /// A real calendar day within the supported years.
    pub open spec fn wf(self) -> bool {
        &&& MIN_YEAR <= self.year <= MAX_YEAR
        &&& 1 <= self.month <= 12
        &&& 1 <= self.day <= days_in_month(self.year as int, self.month as int)
    }

    /// The day's number, counting 1 January of year 1 as day 1.
    pub open spec fn number(self) -> int {
        days_before_year(self.year as int) + days_before_month(self.year as int, self.month as int)
            + self.day
    }
}

/// A day number between the first and the last supported day.
pub open spec fn in_date_range(n: int) -> bool {
    (Date { year: MIN_YEAR, month: 1, day: 1 }).number() <= n <= (Date {
        year: MAX_YEAR,
        month: 12,
        day: 31,
    }).number()
}

/// The same day of the next month, or that month's last day where it is shorter.
pub open spec fn month_later(d: Date) -> Date {
    let y: int = if d.month == 12 {
        d.year + 1
    } else {
        d.year as int
    };
    let m: int = if d.month == 12 {
        1
    } else {
        d.month + 1
    };
    let last = days_in_month(y, m);
    Date { year: y as i32, month: m as u32, day: if d.day > last { last as u32 } else { d.day } }
}

/// The calendar day after `d`.
pub open spec fn day_after(d: Date) -> Date {
    if (d.day as int) < days_in_month(d.year as int, d.month as int) {
        Date { day: (d.day + 1) as u32, ..d }
    } else if d.month < 12 {
        Date { month: (d.month + 1) as u32, day: 1, ..d }
    } else {
        Date { year: (d.year + 1) as i32, month: 1, day: 1 }
    }
}

proof fn lemma_div_step(y: int, d: int)
    requires
        d > 0,
    ensures
        y / d - (y - 1) / d == if y % d == 0 {
            1int
        } else {
            0int
        },
{
    let q = y / d;
    let r = y % d;
    vstd::arithmetic::div_mod::lemma_fundamental_div_mod(y, d);
    vstd::arithmetic::div_mod::lemma_mod_bound(y, d);
    assert(d * q == q * d) by (nonlinear_arith);
    assert((q - 1) * d == q * d - d) by (nonlinear_arith);
    if r > 0 {
        vstd::arithmetic::div_mod::lemma_fundamental_div_mod_converse(y - 1, d, q, r - 1);
    } else {
        vstd::arithmetic::div_mod::lemma_fundamental_div_mod_converse(y - 1, d, q - 1, d - 1);
    }
}

proof fn lemma_year_length(y: int)
    ensures
        days_before_year(y + 1) == days_before_year(y) + if is_leap(y) {
            366int
        } else {
            365int
        },
{
    lemma_div_step(y, 4);
    lemma_div_step(y, 100);
    lemma_div_step(y, 400);
    if y % 400 == 0 {
        vstd::arithmetic::div_mod::lemma_fundamental_div_mod(y, 400);
        vstd::arithmetic::div_mod::lemma_fundamental_div_mod_converse(y, 100, 4 * (y / 400), 0);
        vstd::arithmetic::div_mod::lemma_fundamental_div_mod_converse(y, 4, 100 * (y / 400), 0);
    } else if y % 100 == 0 {
        vstd::arithmetic::div_mod::lemma_fundamental_div_mod(y, 100);
        vstd::arithmetic::div_mod::lemma_fundamental_div_mod_converse(y, 4, 25 * (y / 100), 0);
    }
}

/// Every real day but the last supported one has a next day.
pub proof fn lemma_next_day(d: Date)
    requires
        d.wf(),
    ensures
        is_next_day(d, next_day(d)),
        next_day(d) matches Some(x) ==> x.wf() && x.number() == d.number() + 1,
{
    let n = day_after(d);
    if in_date_range(d.number() + 1) {
        if d.month == 12 && d.day as int == days_in_month(d.year as int, 12) {
            lemma_year_length(d.year as int);
            if d.year == MAX_YEAR {
                assert(d == Date { year: MAX_YEAR, month: 12, day: 31 });
            }
        }
        assert(n.wf() && n.number() == d.number() + 1);
        assert(is_next_day(d, Some(n)));
    } else {
        assert(is_next_day(d, None));
    }
}

proof fn lemma_years_grow(a: int, b: int)
    requires
        a < b,
    ensures
        days_before_year(a) + 365 <= days_before_year(b),
    decreases b - a,
{
    lemma_year_length(a);
    if a + 1 < b {
        lemma_years_grow(a + 1, b);
    }
}

proof fn lemma_within_year(d: Date)
    requires
        d.wf(),
    ensures
        days_before_year(d.year as int) < d.number() <= days_before_year(d.year + 1),
{
    lemma_year_length(d.year as int);
}

/// Two real days with the same number are the same day.
pub proof fn lemma_number_injective(a: Date, b: Date)
    requires
        a.wf(),
        b.wf(),
        a.number() == b.number(),
    ensures
        a == b,
{
    lemma_within_year(a);
    lemma_within_year(b);
    if a.year < b.year {
        if a.year + 1 < b.year {
            lemma_years_grow(a.year + 1, b.year as int);
        }
    } else if b.year < a.year {
        if b.year + 1 < a.year {
            lemma_years_grow(b.year + 1, a.year as int);
        }
    }
    assert(a.year == b.year);
    let y = a.year as int;
    assert(a.month == b.month) by {
        if a.month < b.month {
            assert(days_before_month(y, a.month as int) + days_in_month(y, a.month as int)
                <= days_before_month(y, b.month as int));
        } else if b.month < a.month {
            assert(days_before_month(y, b.month as int) + days_in_month(y, b.month as int)
                <= days_before_month(y, a.month as int));
        }
    }
}

/// The day after `d`, where it is still within the supported range.
pub open spec fn next_day(d: Date) -> Option<Date> {
    if in_date_range(d.number() + 1) {
        Some(day_after(d))
    } else {
        None
    }
}

/// `next_day` is the one day numbered one more than `d`.
pub proof fn lemma_next_day_unique(d: Date, tm: Option<Date>)
    requires
        d.wf(),
        is_next_day(d, tm),
    ensures
        tm == next_day(d),
{
    lemma_next_day(d);
    if let Some(x) = tm {
        lemma_number_injective(x, day_after(d));
    }
}

/// What chrono's `NaiveDate::parse_from_str` reads from `s` under format `fmt`.
pub uninterp spec fn parsed_date(s: Seq<char>, fmt: Seq<char>) -> Option<Date>;

/// Relies on chrono's `NaiveDate::checked_add_days`: the day `n` days later, or nothing
/// outside the range of `NaiveDate`.
#[verifier::external_body]
pub(crate) fn add_days(d: Date, n: u32) -> (r: Option<Date>)
    requires
        d.wf(),
    ensures
        r is Some <==> in_date_range(d.number() + n),
        r matches Some(x) ==> x.wf() && x.number() == d.number() + n,
{
    let start = chrono::NaiveDate::from_ymd_opt(d.year, d.month, d.day).unwrap();
    start.checked_add_days(chrono::Days::new(n as u64)).map(
        |x| Date { year: x.year(), month: x.month(), day: x.day() },
    )
}

/// Relies on chrono's `NaiveDate::checked_add_months` with one month: the same day of the
/// next month, clamped to that month's length, or nothing outside the range of `NaiveDate`.
#[verifier::external_body]
fn add_one_month(d: Date) -> (r: Option<Date>)
    requires
        d.wf(),
    ensures
        r == (if month_later(d).wf() {
            Some(month_later(d))
        } else {
            None
        }),
{
    let start = chrono::NaiveDate::from_ymd_opt(d.year, d.month, d.day).unwrap();
    start.checked_add_months(chrono::Months::new(1)).map(
        |x| Date { year: x.year(), month: x.month(), day: x.day() },
    )
}

/// Relies on chrono's `NaiveDate::parse_from_str`: the date that `s` spells under `fmt`;
/// a `NaiveDate` is always a real day.
#[verifier::external_body]
fn parse_date(s: &str, fmt: &str) -> (r: Option<Date>)
    ensures
        r == parsed_date(s@, fmt@),
        r matches Some(x) ==> x.wf(),
{
    chrono::NaiveDate::parse_from_str(s, fmt).ok().map(
        |x| Date { year: x.year(), month: x.month(), day: x.day() },
    )
}

/// Relies on chrono's `Local::now` and `DateTime::date_naive`: today's date on this machine.
#[verifier::external_body]
fn local_today() -> (r: Date)
    ensures
        r.wf(),
{
    let x = chrono::Local::now().date_naive();
    Date { year: x.year(), month: x.month(), day: x.day() }
}

/// Relies on chrono's `Local::now` and `DateTime::to_rfc3339`: the present moment as an
/// RFC 3339 timestamp.
#[verifier::external_body]
fn local_timestamp() -> (r: String) {
    chrono::Local::now().to_rfc3339()
}

/// The present day and moment, read once and handed to the operations that stamp tasks.
pub struct Clock {
    pub today: Date,
    pub timestamp: String,
}

impl Clock {
    /// Reads the local clock.
    pub fn now() -> (r: Clock)
        ensures
            r.today.wf(),
    {
        Clock { today: local_today(), timestamp: local_timestamp() }
    }
}

/// Eight ASCII digits.
pub open spec fn is_compact_digits(s: Seq<char>) -> bool {
    s.len() == 8 && forall|i: int| 0 <= i < 8 ==> '0' <= #[trigger] s[i] <= '9'
}

/// The accepted spelling of ISO dates.
pub open spec fn iso_format() -> Seq<char> {
    "%Y-%m-%d"@
}

/// The accepted spelling of compact dates, day first.
pub open spec fn compact_format() -> Seq<char> {
    "%d%m%Y"@
}

/// The message for a date after the last supported one.
pub open spec fn overflow_message() -> Seq<char> {
    "date overflow"@
}

/// The message for eight digits that are no real day.
pub open spec fn compact_message() -> Seq<char> {
    "expected DDMMYYYY like 18022026"@
}

/// The message for any other unreadable due date.
pub open spec fn formats_message() -> Seq<char> {
    "expected today|tomorrow|YYYY-MM-DD|DDMMYYYY"@
}

/// What `parse_due` gives for the trimmed, lower-cased text `k` when today is `today`.
pub open spec fn due_from_key(k: Seq<char>, today: Date) -> Result<Date, Seq<char>> {
    if k == "today"@ {
        Ok(today)
    } else if k == "tomorrow"@ {
        match next_day(today) {
            Some(d) => Ok(d),
            None => Err(overflow_message()),
        }
    } else if parsed_date(k, iso_format()) is Some {
        Ok(parsed_date(k, iso_format())->0)
    } else if is_compact_digits(k) {
        match parsed_date(k, compact_format()) {
            Some(d) => Ok(d),
            None => Err(compact_message()),
        }
    } else {
        Err(formats_message())
    }
}

/// The day after `today`, where there is one.
pub open spec fn is_next_day(today: Date, tomorrow: Option<Date>) -> bool {
    &&& tomorrow is Some <==> in_date_range(today.number() + 1)
    &&& tomorrow matches Some(x) ==> x.wf() && x.number() == today.number() + 1
}

pub open spec fn result_view(r: Result<Date, String>) -> Result<Date, Seq<char>> {
    match r {
        Ok(d) => Ok(d),
        Err(e) => Err(e@),
    }
}

fn all_digits(s: &str) -> (r: bool)
    ensures
        r == (forall|i: int| 0 <= i < s@.len() ==> '0' <= #[trigger] s@[i] <= '9'),
{
    let n = s.unicode_len();
    let mut i: usize = 0;
    while i < n
        invariant
            n == s@.len(),
            i <= n,
            forall|k: int| 0 <= k < i ==> '0' <= #[trigger] s@[k] <= '9',
        decreases n - i,
    {
        let c = s.get_char(i);
        if c < '0' || c > '9' {
            return false;
        }
        i = i + 1;
    }
    true
}

/// Reads a due date: `today`, `tomorrow`, `YYYY-MM-DD` or `DDMMYYYY`, in any case and with
/// surrounding whitespace.
pub fn parse_due(s: &str, today: Date) -> (r: Result<Date, String>)
    requires
        today.wf(),
    ensures
        result_view(r) == due_from_key(lower_of(trim_of(s@)), today),
        r matches Ok(d) ==> d.wf(),
{
    let trimmed = trim_text(s);
    let key = lowercase(trimmed.as_str());
    let k = key.as_str();
    let tomorrow = add_days(today, 1);
    proof {
        reveal_strlit("%Y-%m-%d");
        reveal_strlit("%d%m%Y");
    }
    assert(is_next_day(today, tomorrow));
    proof {
        lemma_next_day_unique(today, tomorrow);
    }
    if text_eq(k, "today") {
        return Ok(today);
    }
    if text_eq(k, "tomorrow") {
        return match tomorrow {
            Some(d) => Ok(d),
            None => Err(String::from_str("date overflow")),
        };
    }
    match parse_date(k, "%Y-%m-%d") {
        Some(d) => {
            return Ok(d);
        },
        None => {},
    }
    if k.unicode_len() == 8 && all_digits(k) {
        return match parse_date(k, "%d%m%Y") {
            Some(d) => Ok(d),
            None => Err(String::from_str("expected DDMMYYYY like 18022026")),
        };
    }
    Err(String::from_str("expected today|tomorrow|YYYY-MM-DD|DDMMYYYY"))
}

/// Days that a daily or weekly repeat moves a date forward.
pub open spec fn repeat_days(rep: Repeat) -> int {
    match rep {
        Repeat::Daily => 1,
        Repeat::Weekly => 7,
        Repeat::Monthly => 0,
    }
}

/// `d` has a next occurrence under `rep` within the supported range.
pub open spec fn can_advance(d: Date, rep: Repeat) -> bool {
    match rep {
        Repeat::Monthly => month_later(d).wf(),
        _ => in_date_range(d.number() + repeat_days(rep)),
    }
}

/// `x` is the next occurrence of `d` under `rep`: one day, seven days or one calendar month
/// later.
pub open spec fn is_advance(d: Date, rep: Repeat, x: Date) -> bool {
    &&& x.wf()
    &&& match rep {
        Repeat::Monthly => x == month_later(d),
        _ => x.number() == d.number() + repeat_days(rep),
    }
}

/// The next occurrence of a due date under a repeat interval; nothing past the last
/// supported day.
pub fn advance_due(due: Date, repeat: Repeat) -> (r: Option<Date>)
    requires
        due.wf(),
    ensures
        r is Some <==> can_advance(due, repeat),
        r matches Some(x) ==> is_advance(due, repeat, x),
{
    match repeat {
        Repeat::Daily => add_days(due, 1),
        Repeat::Weekly => add_days(due, 7),
        Repeat::Monthly => add_one_month(due),
    }
}

} // verus!
