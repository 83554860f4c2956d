//! The hour and the day, in UTC, under which views are counted.
use crate::clock::{self, wall_clock};
use crate::text::{self, push_padded};
use vstd::prelude::*;
use vstd::string::*;

verus! {

/// Seconds in a day.
pub const DAY_SECS: u64 = 86400;

/// Seconds in an hour.
pub const HOUR_SECS: u64 = 3600;

/// Whether `y` is a leap year of the Gregorian calendar.
pub open spec fn leap(y: int) -> bool {
    y % 4 == 0 && (y % 100 != 0 || y % 400 == 0)
}

/// The number of days in the year `y`.
pub open spec fn year_days(y: int) -> int {
    if leap(y) {
        366
    } else {
        365
    }
}

/// The number of days in the month `m` of the year `y`, where January is 1.
pub open spec fn month_days(y: int, m: int) -> int {
    if m == 2 {
        if leap(y) {
            29
        } else {
            28
        }
    } else if m == 4 || m == 6 || m == 9 || m == 11 {
        30
    } else {
        31
    }
}

/// The number of days from the start of 1970 to the start of the year `y`.
pub open spec fn days_before_year(y: int) -> int
    decreases y,
{
    if y <= 1970 {
        0
    } else {
        days_before_year(y - 1) + year_days(y - 1)
    }
}

/// The number of days from the start of the year `y` to the start of its month `m`.
pub open spec fn days_before_month(y: int, m: int) -> int
    decreases m,
{
    if m <= 1 {
        0
    } else {
        days_before_month(y, m - 1) + month_days(y, m - 1)
    }
}

/// A day of the Gregorian calendar.
pub struct CivilDate {
    pub year: int,
    pub month: int,
    pub day: int,
}

impl CivilDate {
    /// Whether this day exists, and is not before 1970.
    pub open spec fn valid(self) -> bool {
        &&& 1970 <= self.year
        &&& 1 <= self.month <= 12
        &&& 1 <= self.day <= month_days(self.year, self.month)
    }

    /// The number of days from the first day of 1970 to this one.
    pub open spec fn days(self) -> int {
        days_before_year(self.year) + days_before_month(self.year, self.month) + self.day - 1
    }
}

/// The day that is `days` days after the first day of 1970.
pub open spec fn date_of_days(days: int) -> CivilDate {
    choose|c: CivilDate| c.valid() && #[trigger] c.days() == days
}

/// The text of a day: `YYYY-MM-DD`.
pub open spec fn date_text(c: CivilDate) -> Seq<char> {
    text::padded(c.year as nat, 4) + seq!['-'] + text::padded(c.month as nat, 2) + seq!['-'] + text::padded(
        c.day as nat,
        2,
    )
}

/// The text of the hour that lies `secs` seconds after the start of 1970: `YYYY-MM-DDTHH`.
pub open spec fn date_hour_text(secs: nat) -> Seq<char> {
    date_text(date_of_days((secs / 86400) as int)) + seq!['T'] + text::padded((secs % 86400) / 3600, 2)
}

/// The months before one of a year take fewer days than the year has.
proof fn lemma_days_before_month(y: int, m: int)
    requires
        1 <= m <= 12,
    ensures
        0 <= days_before_month(y, m),
        days_before_month(y, m) + month_days(y, m) <= year_days(y),
        m == 12 ==> days_before_month(y, m) + month_days(y, m) == year_days(y),
{
    reveal_with_fuel(days_before_month, 13);
}

/// A month ends before a later one of the same year starts.
proof fn lemma_months_in_order(y: int, m1: int, m2: int)
    requires
        1 <= m1 < m2 <= 12,
    ensures
        days_before_month(y, m1) + month_days(y, m1) <= days_before_month(y, m2),
    decreases m2,
{
    if m1 < m2 - 1 {
        lemma_months_in_order(y, m1, m2 - 1);
    }
}

/// A year ends before a later one starts.
proof fn lemma_years_in_order(y1: int, y2: int)
    requires
        1970 <= y1 < y2,
    ensures
        days_before_year(y1) + year_days(y1) <= days_before_year(y2),
    decreases y2,
{
    if y1 < y2 - 1 {
        lemma_years_in_order(y1, y2 - 1);
    }
}

/// Later days have larger day counts.
proof fn lemma_days_in_order(a: CivilDate, b: CivilDate)
    requires
        a.valid(),
        b.valid(),
        a.year < b.year || (a.year == b.year && (a.month < b.month || (a.month == b.month && a.day
            < b.day))),
    ensures
        a.days() < b.days(),
{
    lemma_days_before_month(a.year, a.month);
    lemma_days_before_month(b.year, b.month);
    if a.year < b.year {
        lemma_years_in_order(a.year, b.year);
    } else if a.month < b.month {
        lemma_months_in_order(a.year, a.month, b.month);
    }
}

/// No two days have the same day count.
pub proof fn civil_date_is_unique(a: CivilDate, b: CivilDate)
    requires
        a.valid(),
        b.valid(),
        a.days() == b.days(),
    ensures
        a == b,
{
    if a != b {
        if a.year < b.year || (a.year == b.year && (a.month < b.month || (a.month == b.month
            && a.day < b.day))) {
            lemma_days_in_order(a, b);
        } else {
            lemma_days_in_order(b, a);
        }
    }
}

/// Every day count from 1970 on is that of some day.
pub proof fn civil_date_exists(days: int)
    requires
        0 <= days,
    ensures
        date_of_days(days).valid(),
        date_of_days(days).days() == days,
    decreases days,
{
    if days == 0 {
        let c = CivilDate { year: 1970, month: 1, day: 1 };
        assert(c.valid() && c.days() == days);
    } else {
        civil_date_exists(days - 1);
        let p = date_of_days(days - 1);
        let c = if p.day < month_days(p.year, p.month) {
            CivilDate { year: p.year, month: p.month, day: p.day + 1 }
        } else if p.month < 12 {
            CivilDate { year: p.year, month: p.month + 1, day: 1 }
        } else {
            CivilDate { year: p.year + 1, month: 1, day: 1 }
        };
        lemma_days_before_month(p.year, p.month);
        assert(days_before_month(p.year + 1, 1) == 0);
        assert(c.valid() && c.days() == days);
    }
}

/// Tells whether `y` is a leap year.
pub fn is_leap(y: i64) -> (r: bool)
    ensures
        r == leap(y as int),
{
    y % 4 == 0 && (y % 100 != 0 || y % 400 == 0)
}

/// The hour that lies `secs` seconds after the start of 1970, as `YYYY-MM-DDTHH`.
pub fn date_hour_at(secs: u64) -> (r: String)
    ensures
        r@ == date_hour_text(secs as nat),
{
    let days: u64 = secs / DAY_SECS;
    let hour: u64 = (secs % DAY_SECS) / HOUR_SECS;

    let mut y: i64 = 1970;
    let mut remaining: u64 = days;
    loop
        invariant
            1970 <= y,
            days == days_before_year(y as int) + remaining,
            y - 1970 + remaining <= days,
            days <= 0x0fff_ffff_ffff_ffff,
        ensures
            remaining < year_days(y as int),
        decreases remaining,
    {
        let days_in_year: u64 = if is_leap(y) {
            366
        } else {
            365
        };
        if remaining < days_in_year {
            break;
        }
        remaining = remaining - days_in_year;
        y = y + 1;
    }
    let leap_year = is_leap(y);
    let mut m: u64 = 1;
    loop
        invariant
            1 <= m <= 12,
            1970 <= y,
            leap_year == leap(y as int),
            remaining < year_days(y as int) - days_before_month(y as int, m as int),
            days == days_before_year(y as int) + days_before_month(y as int, m as int) + remaining,
        ensures
            remaining < month_days(y as int, m as int),
        decreases 12 - m,
    {
        let days_in_month: u64 = if m == 2 {
            if leap_year {
                29
            } else {
                28
            }
        } else if m == 4 || m == 6 || m == 9 || m == 11 {
            30
        } else {
            31
        };
        proof {
            lemma_days_before_month(y as int, m as int);
        }
        if remaining < days_in_month {
            break;
        }
        remaining = remaining - days_in_month;
        m = m + 1;
    }
    let ghost c = CivilDate { year: y as int, month: m as int, day: remaining + 1 };
    proof {
        civil_date_exists(days as int);
        civil_date_is_unique(c, date_of_days(days as int));
        reveal_strlit("-");
        reveal_strlit("T");
    }
    let mut out = String::new();
    push_padded(&mut out, y as u64, 4);
    out.append("-");
    push_padded(&mut out, m, 2);
    out.append("-");
    push_padded(&mut out, remaining + 1, 2);
    out.append("T");
    push_padded(&mut out, hour, 2);
    assert("-"@ =~= seq!['-']);
    assert("T"@ =~= seq!['T']);
    assert(out@ =~= date_hour_text(secs as nat));
    out
}

/// Padded decimal text holds only digits, and as many as were asked for or more.
proof fn lemma_padded_digits(n: nat, width: nat)
    ensures
        text::padded(n, width).len() >= width,
        text::padded(n, width).len() >= 1,
        text::all_digits(text::padded(n, width)),
    decreases width,
{
    if width <= 1 {
        text::a_written_number_reads_back(n);
    } else {
        lemma_padded_digits(n / 10, (width - 1) as nat);
    }
}

/// The text of an hour is ASCII and has room for a day's text.
proof fn lemma_date_hour_ascii(secs: nat)
    ensures
        vstd::utf8::is_ascii_chars(date_hour_text(secs)),
        date_hour_text(secs).len() >= 13,
{
    let c = date_of_days((secs / 86400) as int);
    lemma_padded_digits(c.year as nat, 4);
    lemma_padded_digits(c.month as nat, 2);
    lemma_padded_digits(c.day as nat, 2);
    lemma_padded_digits((secs % 86400) / 3600, 2);
}

/// The day that lies `secs` seconds after the start of 1970, as `YYYY-MM-DD`: the first ten
/// characters of the hour's text.
pub fn date_at(secs: u64) -> (r: String)
    ensures
        r@ == date_hour_text(secs as nat).take(10),
{
    let hour = date_hour_at(secs);
    proof {
        lemma_date_hour_ascii(secs as nat);
    }
    hour.as_str().substring_ascii(0, 10).to_string()
}

/// The current hour in UTC, as `YYYY-MM-DDTHH`.
pub fn date_hour() -> (r: String)
    ensures
        exists|secs: u64, nanos: u32| #[trigger]
            clock::wall_clock_reads(secs, nanos) && r@ == date_hour_text(secs as nat),
{
    let (secs, _nanos) = wall_clock();
    date_hour_at(secs)
}

/// The current day in UTC, as `YYYY-MM-DD`.
pub fn date() -> (r: String)
    ensures
        exists|secs: u64, nanos: u32| #[trigger]
            clock::wall_clock_reads(secs, nanos) && r@ == date_hour_text(secs as nat).take(10),
{
    let (secs, _nanos) = wall_clock();
    date_at(secs)
}

/// Padded decimal text writes the number, and has no more digits than asked for if that is enough.
proof fn lemma_padded_value(n: nat, width: nat)
    requires
        width >= 1,
    ensures
        text::digits_value(text::padded(n, width)) == n,
        n < vstd::arithmetic::power::pow(10, width) ==> text::padded(n, width).len() == width,
    decreases width,
{
    if width <= 1 {
        text::a_written_number_reads_back(n);
        vstd::arithmetic::power::lemma_pow1(10);
    } else {
        let w = (width - 1) as nat;
        lemma_padded_value(n / 10, w);
        assert(text::padded(n, width).drop_last() =~= text::padded(n / 10, w));
        assert(text::digit_char(n % 10) as nat - '0' as nat == n % 10);
        assert(vstd::arithmetic::power::pow(10, width) == 10 * vstd::arithmetic::power::pow(10, w))
            by {
            reveal(vstd::arithmetic::power::pow);
        }
    }
}

/// The lengths of the parts of a day's text.
proof fn lemma_date_parts(c: CivilDate)
    requires
        c.valid(),
        c.year <= 9999,
    ensures
        text::padded(c.year as nat, 4).len() == 4,
        text::padded(c.month as nat, 2).len() == 2,
        text::padded(c.day as nat, 2).len() == 2,
        text::digits_value(text::padded(c.year as nat, 4)) == c.year,
        text::digits_value(text::padded(c.month as nat, 2)) == c.month,
        text::digits_value(text::padded(c.day as nat, 2)) == c.day,
{
    lemma_padded_value(c.year as nat, 4);
    lemma_padded_value(c.month as nat, 2);
    lemma_padded_value(c.day as nat, 2);
    assert(vstd::arithmetic::power::pow(10, 4) == 10000 && vstd::arithmetic::power::pow(10, 2)
        == 100) by {
        reveal_with_fuel(vstd::arithmetic::power::pow, 5);
    }
}

/// Up to the year 9999 the text of an hour has the form `YYYY-MM-DDTHH`, and its first ten
/// characters are the text of its day.
pub proof fn hours_have_the_form(secs: nat)
    requires
        date_of_days((secs / 86400) as int).year <= 9999,
    ensures
        date_hour_text(secs).len() == 13,
        date_hour_text(secs).take(10) == date_text(date_of_days((secs / 86400) as int)),
        forall|i: int|
            0 <= i < 13 ==> if i == 4 || i == 7 {
                #[trigger] date_hour_text(secs)[i] == '-'
            } else if i == 10 {
                date_hour_text(secs)[i] == 'T'
            } else {
                text::is_digit(date_hour_text(secs)[i])
            },
{
    let c = date_of_days((secs / 86400) as int);
    civil_date_exists((secs / 86400) as int);
    lemma_date_parts(c);
    let hour = (secs % 86400) / 3600;
    lemma_padded_value(hour, 2);
    assert(vstd::arithmetic::power::pow(10, 2) == 100) by {
        reveal_with_fuel(vstd::arithmetic::power::pow, 3);
    }
    lemma_padded_digits(c.year as nat, 4);
    lemma_padded_digits(c.month as nat, 2);
    lemma_padded_digits(c.day as nat, 2);
    lemma_padded_digits(hour, 2);
    assert(date_hour_text(secs).take(10) =~= date_text(c));
}

/// Days with the same text are the same day.
proof fn lemma_date_text_injective(a: CivilDate, b: CivilDate)
    requires
        a.valid(),
        b.valid(),
        a.year <= 9999,
        b.year <= 9999,
        date_text(a) == date_text(b),
    ensures
        a == b,
{
    lemma_date_parts(a);
    lemma_date_parts(b);
    let s = date_text(a);
    let t = date_text(b);
    assert(s.subrange(0, 4) =~= text::padded(a.year as nat, 4));
    assert(t.subrange(0, 4) =~= text::padded(b.year as nat, 4));
    assert(s.subrange(5, 7) =~= text::padded(a.month as nat, 2));
    assert(t.subrange(5, 7) =~= text::padded(b.month as nat, 2));
    assert(s.subrange(8, 10) =~= text::padded(a.day as nat, 2));
    assert(t.subrange(8, 10) =~= text::padded(b.day as nat, 2));
}

/// The text of an hour starts with the text of a day exactly if the hour lies in that day.
pub proof fn hours_start_with_their_day(secs: nat, day_secs: nat)
    requires
        date_of_days((secs / 86400) as int).year <= 9999,
        date_of_days((day_secs / 86400) as int).year <= 9999,
    ensures
        text::has_prefix(date_hour_text(secs), date_hour_text(day_secs).take(10)) <==> secs / 86400
            == day_secs / 86400,
{
    let a = (secs / 86400) as int;
    let b = (day_secs / 86400) as int;
    hours_have_the_form(secs);
    hours_have_the_form(day_secs);
    civil_date_exists(a);
    civil_date_exists(b);
    if text::has_prefix(date_hour_text(secs), date_hour_text(day_secs).take(10)) {
        lemma_date_text_injective(date_of_days(a), date_of_days(b));
    }
}

/// Two moments have the same text exactly if they lie in the same hour.
pub proof fn hours_have_their_own_text(secs: nat, other: nat)
    requires
        date_of_days((secs / 86400) as int).year <= 9999,
        date_of_days((other / 86400) as int).year <= 9999,
    ensures
        date_hour_text(secs) == date_hour_text(other) <==> secs / 3600 == other / 3600,
{
    hours_have_the_form(secs);
    hours_have_the_form(other);
    hours_start_with_their_day(secs, other);
    let h = (secs % 86400) / 3600;
    let k = (other % 86400) / 3600;
    lemma_padded_value(h, 2);
    lemma_padded_value(k, 2);
    let s = date_hour_text(secs);
    let t = date_hour_text(other);
    if s == t {
        assert(s.take(10) == t.take(10));
        assert(text::has_prefix(s, t.take(10)));
        assert(s.subrange(11, 13) =~= text::padded(h, 2));
        assert(t.subrange(11, 13) =~= text::padded(k, 2));
    }
}

/// A padded number comes before a larger one of the same width.
proof fn lemma_padded_in_order(n: nat, m: nat, width: nat)
    requires
        width >= 1,
        n < m,
        m < vstd::arithmetic::power::pow(10, width),
    ensures
        text::before(text::padded(n, width), text::padded(m, width)),
    decreases width,
{
    lemma_padded_value(n, width);
    lemma_padded_value(m, width);
    let a = text::padded(n, width);
    let b = text::padded(m, width);
    if width == 1 {
        vstd::arithmetic::power::lemma_pow1(10);
        assert(a.take(0) =~= b.take(0));
        assert(a[0] < b[0]);
    } else {
        let w = (width - 1) as nat;
        assert(vstd::arithmetic::power::pow(10, width) == 10 * vstd::arithmetic::power::pow(10, w))
            by {
            reveal(vstd::arithmetic::power::pow);
        }
        let p = text::padded(n / 10, w);
        let q = text::padded(m / 10, w);
        lemma_padded_value(n / 10, w);
        lemma_padded_value(m / 10, w);
        if n / 10 < m / 10 {
            lemma_padded_in_order(n / 10, m / 10, w);
            text::lemma_before_extends(p, q, seq![a.last()], seq![b.last()]);
            assert(a =~= p + seq![a.last()]);
            assert(b =~= q + seq![b.last()]);
        } else {
            assert(a.take(w as int) =~= b.take(w as int));
            assert(a[w as int] < b[w as int]);
        }
    }
}

/// The text of a day comes before that of a later one.
proof fn lemma_dates_in_order(a: CivilDate, b: CivilDate)
    requires
        a.valid(),
        b.valid(),
        a.year <= 9999,
        b.year <= 9999,
        a.days() < b.days(),
    ensures
        text::before(date_text(a), date_text(b)),
{
    lemma_date_parts(a);
    lemma_date_parts(b);
    assert(vstd::arithmetic::power::pow(10, 4) == 10000 && vstd::arithmetic::power::pow(10, 2)
        == 100) by {
        reveal_with_fuel(vstd::arithmetic::power::pow, 5);
    }
    if b.year < a.year || (b.year == a.year && (b.month < a.month || (b.month == a.month && b.day
        < a.day))) {
        lemma_days_in_order(b, a);
    }
    let ya = text::padded(a.year as nat, 4);
    let yb = text::padded(b.year as nat, 4);
    let ma = text::padded(a.month as nat, 2);
    let mb = text::padded(b.month as nat, 2);
    let da = text::padded(a.day as nat, 2);
    let db = text::padded(b.day as nat, 2);
    let dash = seq!['-'];
    if a.year < b.year {
        lemma_padded_in_order(a.year as nat, b.year as nat, 4);
        text::lemma_before_extends(ya, yb, dash + ma + dash + da, dash + mb + dash + db);
        assert(date_text(a) =~= ya + (dash + ma + dash + da));
        assert(date_text(b) =~= yb + (dash + mb + dash + db));
    } else if a.month < b.month {
        lemma_padded_in_order(a.month as nat, b.month as nat, 2);
        text::lemma_before_extends(ma, mb, dash + da, dash + db);
        text::lemma_before_behind(ya + dash, ma + (dash + da), mb + (dash + db));
        assert(date_text(a) =~= (ya + dash) + (ma + (dash + da)));
        assert(date_text(b) =~= (ya + dash) + (mb + (dash + db)));
    } else {
        lemma_padded_in_order(a.day as nat, b.day as nat, 2);
        text::lemma_before_behind(ya + dash + ma + dash, da, db);
    }
}

/// The text of an hour comes before that of a later hour.
proof fn lemma_hours_in_order(secs: nat, later: nat)
    requires
        date_of_days((secs / 86400) as int).year <= 9999,
        date_of_days((later / 86400) as int).year <= 9999,
        secs / 3600 < later / 3600,
    ensures
        text::before(date_hour_text(secs), date_hour_text(later)),
{
    let a = (secs / 86400) as int;
    let b = (later / 86400) as int;
    let h = (secs % 86400) / 3600;
    let k = (later % 86400) / 3600;
    civil_date_exists(a);
    civil_date_exists(b);
    lemma_date_parts(date_of_days(a));
    lemma_date_parts(date_of_days(b));
    assert(vstd::arithmetic::power::pow(10, 2) == 100) by {
        reveal_with_fuel(vstd::arithmetic::power::pow, 3);
    }
    let t = seq!['T'];
    if a < b {
        lemma_dates_in_order(date_of_days(a), date_of_days(b));
        let rest = t + text::padded(h, 2);
        let other = t + text::padded(k, 2);
        text::lemma_before_extends(
            date_text(date_of_days(a)),
            date_text(date_of_days(b)),
            rest,
            other,
        );
        assert(date_hour_text(secs) =~= date_text(date_of_days(a)) + rest);
        assert(date_hour_text(later) =~= date_text(date_of_days(b)) + other);
    } else {
        assert(a == b && h < k);
        lemma_padded_value(h, 2);
        lemma_padded_value(k, 2);
        lemma_padded_in_order(h, k, 2);
        text::lemma_before_behind(
            date_text(date_of_days(a)) + t,
            text::padded(h, 2),
            text::padded(k, 2),
        );
    }
}

/// Sorted as text, hours are in the order of time: one comes before another exactly if it is
/// earlier.
pub proof fn hours_sort_by_time(secs: nat, other: nat)
    requires
        date_of_days((secs / 86400) as int).year <= 9999,
        date_of_days((other / 86400) as int).year <= 9999,
    ensures
        text::before(date_hour_text(secs), date_hour_text(other)) <==> secs / 3600 < other / 3600,
{
    if secs / 3600 < other / 3600 {
        lemma_hours_in_order(secs, other);
    } else if other / 3600 < secs / 3600 {
        lemma_hours_in_order(other, secs);
        text::lemma_before_is_one_way(date_hour_text(other), date_hour_text(secs));
    } else {
        hours_have_their_own_text(secs, other);
    }
}

/// Leap years are every fourth year, but of the last years of centuries only every fourth.
pub proof fn leap_years_are_those_of_the_gregorian_calendar(k: int)
    ensures
        !leap(4 * k + 1) && !leap(4 * k + 2) && !leap(4 * k + 3),
        leap(400 * k) && !leap(400 * k + 100) && !leap(400 * k + 200) && !leap(400 * k + 300),
        forall|y: int|
            100 * k < y < 100 * k + 100 && y % 4 == 0 ==> #[trigger] leap(y),
{
}

/// A year has as many days as its months, each of which has its own number: thirty of September,
/// April, June and November, thirty-one of the others, and twenty-eight of February, or twenty-nine
/// in a leap year.
pub proof fn months_make_up_the_year(y: int)
    ensures
        month_days(y, 1) == 31 && month_days(y, 3) == 31 && month_days(y, 4) == 30 && month_days(
            y,
            5,
        ) == 31 && month_days(y, 6) == 30 && month_days(y, 7) == 31 && month_days(y, 8) == 31
            && month_days(y, 9) == 30 && month_days(y, 10) == 31 && month_days(y, 11) == 30
            && month_days(y, 12) == 31,
        month_days(y, 2) == if leap(y) {
            29int
        } else {
            28int
        },
        days_before_month(y, 1) == 0,
        days_before_month(y, 12) + 31 == year_days(y),
        year_days(y) == if leap(y) {
            366int
        } else {
            365int
        },
        y >= 1970 ==> days_before_year(y + 1) == days_before_year(y) + year_days(y),
        days_before_year(1970) == 0,
{
    reveal_with_fuel(days_before_month, 13);
}

/// Days are counted from the first of 1970, one after the other: to the next day of the month, from
/// the last of a month to the first of the next, and from the last of a year to the first of the
/// next, it is one day.
pub proof fn days_follow_each_other(c: CivilDate)
    requires
        c.valid(),
    ensures
        (CivilDate { year: 1970, month: 1, day: 1 }).days() == 0,
        (CivilDate { day: c.day + 1, ..c }).days() == c.days() + 1,
        c.day == month_days(c.year, c.month) && c.month < 12 ==> (CivilDate {
            year: c.year,
            month: c.month + 1,
            day: 1,
        }).days() == c.days() + 1,
        c.day == 31 && c.month == 12 ==> (CivilDate {
            year: c.year + 1,
            month: 1,
            day: 1,
        }).days() == c.days() + 1,
{
    lemma_days_before_month(c.year, c.month);
    assert(days_before_month(c.year + 1, 1) == 0);
}

/// The days that exist, from 1970 on.
pub proof fn days_that_exist(c: CivilDate)
    ensures
        c.valid() <==> c.year >= 1970 && (c.month == 1 || c.month == 2 || c.month == 3 || c.month
            == 4 || c.month == 5 || c.month == 6 || c.month == 7 || c.month == 8 || c.month == 9
            || c.month == 10 || c.month == 11 || c.month == 12) && c.day >= 1 && c.day
            <= month_days(c.year, c.month),
{
}

/// The day that a text of the form `YYYY-MM-DDTHH` tells, where the year may have more digits.
pub open spec fn told_date(t: Seq<char>) -> CivilDate {
    let n = t.len() - 9;
    CivilDate {
        year: text::digits_value(t.take(n)) as int,
        month: text::digits_value(t.subrange(n + 1, n + 3)) as int,
        day: text::digits_value(t.subrange(n + 4, n + 6)) as int,
    }
}

/// The hour of the day that such a text tells.
pub open spec fn told_hour(t: Seq<char>) -> int {
    let n = t.len() - 9;
    text::digits_value(t.subrange(n + 7, n + 9)) as int
}

/// Whether `t` has that form and tells an hour that exists.
pub open spec fn tells_an_hour(t: Seq<char>) -> bool {
    let n = t.len() - 9;
    &&& n >= 4
    &&& t[n] == '-' && t[n + 3] == '-' && t[n + 6] == 'T'
    &&& text::all_digits(t.take(n)) && t[0] != '0'
    &&& text::all_digits(t.subrange(n + 1, n + 3))
    &&& text::all_digits(t.subrange(n + 4, n + 6))
    &&& text::all_digits(t.subrange(n + 7, n + 9))
    &&& told_date(t).valid()
    &&& 0 <= told_hour(t) < 24
}

/// The second at which the hour that `t` tells starts.
pub open spec fn start_of_hour(t: Seq<char>) -> int {
    told_date(t).days() * 86400 + told_hour(t) * 3600
}

/// The text of the hour of a moment tells an hour, and the moment lies in it.
pub proof fn a_moment_lies_in_its_hour(secs: u64, r: String)
    requires
        call_ensures(date_hour_at, (secs,), r),
    ensures
        tells_an_hour(r@),
        start_of_hour(r@) <= secs < start_of_hour(r@) + 3600,
{
    lemma_hour_is_told(secs as nat);
}

/// The text of a moment's hour tells that hour, whatever the year.
pub(crate) proof fn lemma_hour_is_told(secs: nat)
    ensures
        tells_an_hour(date_hour_text(secs)),
        start_of_hour(date_hour_text(secs)) == 3600 * (secs / 3600),
{
    let c = date_of_days((secs / 86400) as int);
    let hour = (secs % 86400) / 3600;
    let t = date_hour_text(secs);
    civil_date_exists((secs / 86400) as int);
    assert(vstd::arithmetic::power::pow(10, 2) == 100 && vstd::arithmetic::power::pow(10, 4)
        == 10000) by {
        reveal_with_fuel(vstd::arithmetic::power::pow, 5);
    }
    let y = text::padded(c.year as nat, 4);
    let m = text::padded(c.month as nat, 2);
    let d = text::padded(c.day as nat, 2);
    let h = text::padded(hour, 2);
    lemma_padded_value(c.year as nat, 4);
    lemma_padded_value(c.month as nat, 2);
    lemma_padded_value(c.day as nat, 2);
    lemma_padded_value(hour, 2);
    lemma_padded_digits(c.year as nat, 4);
    lemma_padded_digits(c.month as nat, 2);
    lemma_padded_digits(c.day as nat, 2);
    lemma_padded_digits(hour, 2);
    lemma_four_digits(c.year as nat);
    text::a_padded_number_stands_behind_zeros(c.year as nat, 4);
    assert(y =~= text::decimal(c.year as nat));
    let n = t.len() - 9;
    assert(y.len() == n);
    assert(t.take(n) =~= y);
    assert(t.subrange(n + 1, n + 3) =~= m);
    assert(t.subrange(n + 4, n + 6) =~= d);
    assert(t.subrange(n + 7, n + 9) =~= h);
    assert(t[0] == y[0]);
    assert(c.days() == secs / 86400);
}

/// From 1000 on a number has four digits or more.
proof fn lemma_four_digits(n: nat)
    requires
        n >= 1000,
    ensures
        text::decimal(n).len() >= 4,
{
    reveal_with_fuel(text::decimal, 5);
}

/// The text of a moment's day is what stands first in the text of its hour; up to the year 9999 that
/// is everything before the `T`.
pub proof fn a_moment_lies_in_its_day(secs: u64, hour: String, r: String)
    requires
        call_ensures(date_hour_at, (secs,), hour),
        call_ensures(date_at, (secs,), r),
    ensures
        r@.len() == 10,
        text::has_prefix(hour@, r@),
        told_date(hour@).year <= 9999 ==> hour@ == r@ + seq!['T'] + hour@.skip(11),
{
    lemma_date_hour_ascii(secs as nat);
    lemma_hour_is_told(secs as nat);
    let t = hour@;
    if told_date(t).year <= 9999 {
        civil_date_exists((secs / 86400) as int);
        lemma_told_is_the_date(secs as nat);
        hours_have_the_form(secs as nat);
        assert(t =~= t.take(10) + seq!['T'] + t.skip(11));
    }
}

/// The day that is told is the day of the moment.
proof fn lemma_told_is_the_date(secs: nat)
    ensures
        told_date(date_hour_text(secs)) == date_of_days((secs / 86400) as int),
{
    let t = date_hour_text(secs);
    lemma_hour_is_told(secs);
    civil_date_exists((secs / 86400) as int);
    assert(told_date(t).days() == secs / 86400);
    civil_date_is_unique(told_date(t), date_of_days((secs / 86400) as int));
}

/// Every fourth year is told to be a leap year, but of the last years of centuries only every
/// fourth.
pub proof fn leap_years_are_told(k: int, y: i64, r: bool)
    requires
        call_ensures(is_leap, (y,), r),
    ensures
        y == 4 * k + 1 || y == 4 * k + 2 || y == 4 * k + 3 ==> !r,
        y == 400 * k ==> r,
        y == 400 * k + 100 || y == 400 * k + 200 || y == 400 * k + 300 ==> !r,
        100 * k < y < 100 * k + 100 && y % 4 == 0 ==> r,
{
}

/// The current hour and day are those of a moment that the wall clock shows.
pub proof fn the_wall_clock_tells_the_hour_and_the_day(hour: String, day: String)
    requires
        call_ensures(date_hour, (), hour),
        call_ensures(date, (), day),
    ensures
        exists|secs: u64, nanos: u32| #[trigger]
            clock::wall_clock_reads(secs, nanos) && tells_an_hour(hour@) && start_of_hour(hour@)
                <= secs < start_of_hour(hour@) + 3600,
        exists|secs: u64, nanos: u32, text: Seq<char>|
            #![trigger clock::wall_clock_reads(secs, nanos), tells_an_hour(text)]
            clock::wall_clock_reads(secs, nanos) && tells_an_hour(text) && start_of_hour(text)
                <= secs < start_of_hour(text) + 3600 && day@ == text.take(10),
{
    let (s, n) = choose|secs: u64, nanos: u32| #[trigger]
        clock::wall_clock_reads(secs, nanos) && hour@ == date_hour_text(secs as nat);
    lemma_hour_is_told(s as nat);
    let (s, n) = choose|secs: u64, nanos: u32| #[trigger]
        clock::wall_clock_reads(secs, nanos) && day@ == date_hour_text(secs as nat).take(10);
    lemma_hour_is_told(s as nat);
    assert(clock::wall_clock_reads(s, n) && tells_an_hour(date_hour_text(s as nat)));
}

} // verus!
