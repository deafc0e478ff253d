//! Calendar dates: which years are leap years, how long years and months
//! are, and the date and time of day that a number of seconds since the start
//! of 1970 stands for.
use vstd::prelude::*;

verus! {

/// The year in which the count of seconds starts.
pub const EPOCH_YEAR: i32 = 1970;

/// The seconds of a day.
pub const SECS_PER_DAY: u64 = 86400;

/// The seconds of an hour.
pub const SECS_PER_HOUR: u64 = 3600;

/// The seconds of a minute.
pub const SECS_PER_MIN: u64 = 60;

/// Whether `year` is a leap year: every fourth year is, but of the years that
/// end a century only every fourth.
pub open spec fn leap(year: int) -> bool {
    year % 4 == 0 && (year % 100 != 0 || year % 400 == 0)
}

/// The number of days of `year`.
pub open spec fn days_in_year(year: int) -> int {
    if leap(year) {
        366
    } else {
        365
    }
}

/// The number of days of month `month` of `year`, January being month 1.
pub open spec fn days_in_month(year: int, month: int) -> int {
    if month == 2 {
        if leap(year) {
            29
        } else {
            28
        }
    } else if month == 4 || month == 6 || month == 9 || month == 11 {
        30
    } else {
        31
    }
}

/// The number of days from the start of 1970 to the start of `year`.
pub open spec fn days_before_year(year: int) -> int
    decreases year - 1970,
{
    if year <= 1970 {
        0
    } else {
        days_before_year(year - 1) + days_in_year(year - 1)
    }
}

/// The number of days from the start of `year` to the start of its month
/// `month`.
pub open spec fn days_before_month(year: int, month: int) -> int
    decreases month,
{
    if month <= 1 {
        0
    } else {
        days_before_month(year, month - 1) + days_in_month(year, month - 1)
    }
}

/// A date and a time of day.
#[derive(Clone, Copy, Debug, PartialEq, Eq, Structural)]
pub struct DateTime {
    pub year: i32,
    /// 1 to 12.
    pub month: i32,
    /// 1 to the number of days of the month.
    pub day: u64,
    pub hour: u64,
    pub minute: u64,
    pub second: u64,
}

impl DateTime {
    /// Whether this is the date and time of day that lies `secs` seconds
    /// after the start of 1970.
    pub open spec fn is_time_of(self, secs: nat) -> bool {
        &&& self.year >= 1970
        &&& 1 <= self.month <= 12
        &&& 1 <= self.day <= days_in_month(self.year as int, self.month as int)
        &&& days_before_year(self.year as int) + days_before_month(
            self.year as int,
            self.month as int,
        ) + self.day - 1 == secs / 86400
        &&& self.hour == (secs % 86400) / 3600
        &&& self.minute == (secs % 3600) / 60
        &&& self.second == secs % 60
    }

    /// The date and time as `YYYY-MM-DD hh:mm:ss`.
    pub open spec fn text(self) -> Seq<char> {
        padded(self.year as nat, 4) + seq!['-'] + padded(self.month as nat, 2) + seq!['-'] + padded(
            self.day as nat,
            2,
        ) + seq![' '] + padded(self.hour as nat, 2) + seq![':'] + padded(self.minute as nat, 2)
            + seq![':'] + padded(self.second as nat, 2)
    }
}

/// The character that writes the digit `d`.
pub open spec fn digit_char(d: int) -> char {
    if d == 0 {
        '0'
    } else if d == 1 {
        '1'
    } else if d == 2 {
        '2'
    } else if d == 3 {
        '3'
    } else if d == 4 {
        '4'
    } else if d == 5 {
        '5'
    } else if d == 6 {
        '6'
    } else if d == 7 {
        '7'
    } else if d == 8 {
        '8'
    } else {
        '9'
    }
}

/// The decimal digits that write `n`, without leading zeros.
pub open spec fn digits(n: nat) -> Seq<char>
    decreases n,
{
    if n < 10 {
        seq![digit_char(n as int)]
    } else {
        digits(n / 10).push(digit_char((n % 10) as int))
    }
}

/// The decimal digits that write `n`, with zeros before them where they are
/// fewer than `width`.
pub open spec fn padded(n: nat, width: nat) -> Seq<char> {
    let zeros: nat = if digits(n).len() < width {
        (width - digits(n).len()) as nat
    } else {
        0
    };
    Seq::new(zeros, |i: int| '0') + digits(n)
}

/// Tells whether `year` is a leap year.
pub fn is_leap_year(year: i32) -> (r: bool)
    ensures
        r == leap(year as int),
{
    if year % 4 == 0 {
        if year % 100 == 0 {
            if year % 400 == 0 {
                return true;
            }
            return false;
        }
        return true;
    }
    return false;
}

/// The number of days of `year`.
pub fn get_days_for_year(year: i32) -> (r: i32)
    ensures
        r == days_in_year(year as int),
{
    if is_leap_year(year) {
        return 366;
    }
    return 365;
}

/// The number of days of each month of `year`, January first.
pub fn get_days_per_month(year: i32) -> (r: Vec<i32>)
    ensures
        r.len() == 12,
        forall|m: int| 0 <= m < 12 ==> r[m] == days_in_month(year as int, m + 1),
{
    let mut days_per_month: Vec<i32> = Vec::new();
    let mut i: i32 = 1;
    while i < 13
        invariant
            1 <= i <= 13,
            days_per_month.len() == i - 1,
            forall|m: int| 0 <= m < i - 1 ==> days_per_month[m] == days_in_month(year as int, m + 1),
        decreases 13 - i,
    {
        if i == 2 {
            if is_leap_year(year) {
                days_per_month.push(29);
            } else {
                days_per_month.push(28);
            }
        } else if i == 4 || i == 6 || i == 9 || i == 11 {
            days_per_month.push(30);
        } else {
            days_per_month.push(31);
        }
        i += 1;
    }
    days_per_month
}

/// A year has as many days as its twelve months together.
pub proof fn lemma_months_fill_year(year: int)
    ensures
        days_before_month(year, 13) == days_in_year(year),
{
    reveal_with_fuel(days_before_month, 14);
}

/// A year starts at least 365 days after the year before it: so many days at
/// least lie between the start of 1970 and the start of `year`.
pub proof fn lemma_days_before_year_at_least(year: int)
    requires
        1970 <= year,
    ensures
        days_before_year(year) >= 365 * (year - 1970),
    decreases year - 1970,
{
    if year > 1970 {
        lemma_days_before_year_at_least(year - 1);
    }
}

/// Every number of seconds whose days are fewer than 365 times the years from
/// 1970 to the last year of an `i32` has a date in those years.
pub proof fn lemma_date_in_reach(secs: u64)
    requires
        secs / 86400 < 365 * (i32::MAX + 1 - 1970),
    ensures
        secs / 86400 < days_before_year(i32::MAX + 1),
{
    lemma_days_before_year_at_least(i32::MAX + 1);
}

/// The start of a later year lies at least a year's days after the start of
/// an earlier one.
pub proof fn lemma_years_in_order(earlier: int, later: int)
    requires
        1970 <= earlier < later,
    ensures
        days_before_year(earlier) + days_in_year(earlier) <= days_before_year(later),
    decreases later - earlier,
{
    if earlier + 1 < later {
        lemma_years_in_order(earlier, later - 1);
    }
}

/// The start of a later month lies at least a month's days after the start
/// of an earlier one, and the last month ends with the year.
pub proof fn lemma_months_in_order(year: int, earlier: int, later: int)
    requires
        1 <= earlier < later <= 13,
    ensures
        days_before_month(year, earlier) + days_in_month(year, earlier) <= days_before_month(
            year,
            later,
        ),
        days_before_month(year, later) <= days_in_year(year),
    decreases later - earlier,
{
    reveal_with_fuel(days_before_month, 14);
    if earlier + 1 < later {
        lemma_months_in_order(year, earlier, later - 1);
    }
}

/// No month starts before the year.
pub proof fn lemma_months_start(year: int, month: int)
    ensures
        days_before_month(year, month) >= 0,
    decreases month,
{
    if month > 1 {
        lemma_months_start(year, month - 1);
    }
}

/// A number of seconds stands for one date and time of day only.
pub proof fn lemma_time_unique(a: DateTime, b: DateTime, secs: nat)
    requires
        a.is_time_of(secs),
        b.is_time_of(secs),
    ensures
        a == b,
{
    lemma_months_in_order(a.year as int, a.month as int, 13);
    lemma_months_in_order(b.year as int, b.month as int, 13);
    lemma_months_start(a.year as int, a.month as int);
    lemma_months_start(b.year as int, b.month as int);
    if a.year < b.year {
        lemma_years_in_order(a.year as int, b.year as int);
    } else if b.year < a.year {
        lemma_years_in_order(b.year as int, a.year as int);
    } else if a.month < b.month {
        lemma_months_in_order(a.year as int, a.month as int, b.month as int);
    } else if b.month < a.month {
        lemma_months_in_order(a.year as int, b.month as int, a.month as int);
    }
}

/// The date and time of day that lies `secs` seconds after the start of
/// 1970. The year must be one that an `i32` holds.
pub fn civil_time(secs: u64) -> (r: DateTime)
    requires
        secs / 86400 < days_before_year(i32::MAX + 1),
    ensures
        r.is_time_of(secs as nat),
{
    let total: u64 = secs / SECS_PER_DAY;
    let mut days: u64 = total;
    let mut year: i32 = EPOCH_YEAR;
    while days >= get_days_for_year(year) as u64
        invariant
            1970 <= year,
            total < days_before_year(i32::MAX + 1),
            days_before_year(year as int) + days == total,
        decreases days,
    {
        proof {
            if year == i32::MAX {
                assert(days_before_year(year + 1) == days_before_year(year as int) + days_in_year(
                    year as int,
                ));
            }
        }
        days -= get_days_for_year(year) as u64;
        year += 1;
    }
    let days_per_month = get_days_per_month(year);
    let mut month: i32 = 1;
    while days >= days_per_month[(month - 1) as usize] as u64
        invariant
            1 <= month <= 12,
            days_per_month.len() == 12,
            forall|m: int| 0 <= m < 12 ==> days_per_month[m] == days_in_month(year as int, m + 1),
            days_before_year(year as int) + days_before_month(year as int, month as int) + days
                == total,
            days_before_month(year as int, month as int) + days < days_in_year(year as int),
        decreases days,
    {
        proof {
            if month == 12 {
                lemma_months_fill_year(year as int);
                assert(days_before_month(year as int, 13) == days_before_month(year as int, 12)
                    + days_in_month(year as int, 12));
            }
        }
        days -= days_per_month[(month - 1) as usize] as u64;
        month += 1;
    }
    let rest = secs % SECS_PER_DAY;
    let hour = rest / SECS_PER_HOUR;
    let within_hour = rest % SECS_PER_HOUR;
    let minute = within_hour / SECS_PER_MIN;
    let second = within_hour % SECS_PER_MIN;
    proof {
        let s = secs as int;
        assert((s % 86400) % 3600 == s % 3600) by {
            vstd::arithmetic::div_mod::lemma_mod_mod(s, 3600, 24);
        }
        assert(((s % 86400) % 3600) % 60 == s % 60) by {
            vstd::arithmetic::div_mod::lemma_mod_mod(s, 60, 60);
        }
    }
    DateTime { year, month, day: days + 1, hour, minute, second }
}

/// The text of a digit.
fn digit_text(d: u64) -> (r: &'static str)
    requires
        d < 10,
    ensures
        r@ == seq![digit_char(d as int)],
{
    proof {
        reveal_strlit("0");
        reveal_strlit("1");
        reveal_strlit("2");
        reveal_strlit("3");
        reveal_strlit("4");
        reveal_strlit("5");
        reveal_strlit("6");
        reveal_strlit("7");
        reveal_strlit("8");
        reveal_strlit("9");
    }
    let text = if d == 0 {
        "0"
    } else if d == 1 {
        "1"
    } else if d == 2 {
        "2"
    } else if d == 3 {
        "3"
    } else if d == 4 {
        "4"
    } else if d == 5 {
        "5"
    } else if d == 6 {
        "6"
    } else if d == 7 {
        "7"
    } else if d == 8 {
        "8"
    } else {
        "9"
    };
    assert(text@ =~= seq![digit_char(d as int)]);
    text
}

/// The number of decimal digits that write `n`.
fn digit_count(n: u64) -> (r: usize)
    ensures
        r == digits(n as nat).len(),
        1 <= r <= 20,
    decreases n,
{
    if n < 10 {
        1
    } else {
        let more = digit_count(n / 10);
        proof {
            lemma_digits_len(n as nat);
        }
        more + 1
    }
}

/// No number that a `u64` holds has more than twenty digits.
proof fn lemma_digits_len(n: nat)
    requires
        n <= u64::MAX,
    ensures
        digits(n).len() <= 20,
{
    reveal_with_fuel(digits, 21);
}

/// Writes `n` at the end of `out`.
fn push_digits(out: &mut String, n: u64)
    ensures
        final(out)@ == old(out)@ + digits(n as nat),
    decreases n,
{
    if n >= 10 {
        push_digits(out, n / 10);
    }
    out.append(digit_text(n % 10));
    proof {
        if n >= 10 {
            assert(final(out)@ =~= old(out)@ + digits(n as nat));
        } else {
            assert(final(out)@ =~= old(out)@ + digits(n as nat));
        }
    }
}

/// Writes `n` at the end of `out`, with zeros before it where it has fewer
/// than `width` digits.
pub fn push_padded(out: &mut String, n: u64, width: usize)
    ensures
        final(out)@ == old(out)@ + padded(n as nat, width as nat),
{
    let count = digit_count(n);
    let mut zeros: usize = 0;
    assert(out@ + Seq::new(0nat, |i: int| '0') =~= out@);
    while zeros + count < width
        invariant
            count == digits(n as nat).len(),
            zeros == 0 || zeros + count <= width,
            out@ == old(out)@ + Seq::new(zeros as nat, |i: int| '0'),
        decreases width - zeros - count,
    {
        proof {
            reveal_strlit("0");
            assert(Seq::new(zeros as nat, |i: int| '0') + "0"@ =~= Seq::new(
                (zeros + 1) as nat,
                |i: int| '0',
            ));
            assert((old(out)@ + Seq::new(zeros as nat, |i: int| '0')) + "0"@ =~= old(out)@ + (
            Seq::new(zeros as nat, |i: int| '0') + "0"@));
        }
        out.append("0");
        zeros += 1;
    }
    push_digits(out, n);
    assert(out@ =~= old(out)@ + padded(n as nat, width as nat));
}

/// The date and time as `YYYY-MM-DD hh:mm:ss`.
pub fn format_date_time(time: &DateTime) -> (r: String)
    requires
        time.year >= 0,
        time.month >= 0,
    ensures
        r@ == time.text(),
{
    let mut out = String::new();
    proof {
        reveal_strlit("-");
        reveal_strlit(" ");
        reveal_strlit(":");
        assert(out@ + padded(time.year as nat, 4) =~= padded(time.year as nat, 4));
    }
    push_padded(&mut out, time.year as u64, 4);
    out.append("-");
    push_padded(&mut out, time.month as u64, 2);
    out.append("-");
    push_padded(&mut out, time.day, 2);
    out.append(" ");
    push_padded(&mut out, time.hour, 2);
    out.append(":");
    push_padded(&mut out, time.minute, 2);
    out.append(":");
    push_padded(&mut out, time.second, 2);
    assert(out@ =~= time.text());
    out
}

/// The date and time of day, as `YYYY-MM-DD hh:mm:ss`, that lies `secs`
/// seconds after the start of 1970.
pub fn get_date_time_string(secs: u64) -> (r: String)
    requires
        secs / 86400 < days_before_year(i32::MAX + 1),
    ensures
        exists|time: DateTime| time.is_time_of(secs as nat) && r@ == time.text(),
{
    let time = civil_time(secs);
    format_date_time(&time)
}

} // verus!
