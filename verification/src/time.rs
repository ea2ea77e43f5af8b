//! File times, the civil calendar and timestamps.

use vstd::prelude::*;
use vstd::string::*;

use crate::{text, FileTime};

verus! {

/// Ticks between 1601-01-01 and 1970-01-01.
pub const UNIX_EPOCH_TICKS: i64 = 116_444_736_000_000_000;

/// Ticks in a second.
pub const TICKS_PER_SECOND: i64 = 10_000_000;

/// Division rounding towards zero, for a positive divisor.
pub open spec fn trunc_div(a: int, b: int) -> int {
    if a >= 0 {
        a / b
    } else {
        -((-a) / b)
    }
}

/// The file time of a count of seconds since 1970.
pub fn filetime_from_unix(secs: i64) -> (ft: FileTime)
    requires
        i64::MIN <= secs * TICKS_PER_SECOND,
        secs * TICKS_PER_SECOND + UNIX_EPOCH_TICKS <= i64::MAX,
    ensures
        ft == secs * TICKS_PER_SECOND + UNIX_EPOCH_TICKS,
{
    secs * TICKS_PER_SECOND + UNIX_EPOCH_TICKS
}

/// The seconds since 1970 of a file time, rounded towards 1970.
pub fn filetime_to_unix(ft: FileTime) -> (secs: i64)
    requires
        i64::MIN <= ft - UNIX_EPOCH_TICKS,
    ensures
        secs == trunc_div(ft - UNIX_EPOCH_TICKS, TICKS_PER_SECOND as int),
{
    let ticks: i64 = ft - UNIX_EPOCH_TICKS;
    if ticks >= 0 {
        ticks / TICKS_PER_SECOND
    } else {
        let up: u64 = (-(ticks as i128)) as u64;
        let secs: u64 = up / (TICKS_PER_SECOND as u64);
        -(secs as i64)
    }
}

/// A day of the proleptic Gregorian calendar.
pub struct Date {
    pub year: int,
    pub month: int,
    pub day: int,
}

pub open spec fn is_leap(year: int) -> bool {
    year % 4 == 0 && (year % 100 != 0 || year % 400 == 0)
}

/// Days in a year before the first of a month.
pub open spec fn days_before_month(year: int, month: int) -> int {
    let leap: int = if is_leap(year) { 1 } else { 0 };
    if month == 1 {
        0
    } else if month == 2 {
        31
    } else if month == 3 {
        59 + leap
    } else if month == 4 {
        90 + leap
    } else if month == 5 {
        120 + leap
    } else if month == 6 {
        151 + leap
    } else if month == 7 {
        181 + leap
    } else if month == 8 {
        212 + leap
    } else if month == 9 {
        243 + leap
    } else if month == 10 {
        273 + leap
    } else if month == 11 {
        304 + leap
    } else if month == 12 {
        334 + leap
    } else {
        365 + leap
    }
}

/// Days from 0001-01-01 to the first day of a year.
pub open spec fn days_before_year(year: int) -> int {
    365 * (year - 1) + (year - 1) / 4 - (year - 1) / 100 + (year - 1) / 400
}

impl Date {
    /// Whether the calendar has this day.
    pub open spec fn valid(self) -> bool {
        &&& 1 <= self.month <= 12
        &&& 1 <= self.day <= days_before_month(self.year, self.month + 1) - days_before_month(
            self.year,
            self.month,
        )
    }

    /// Days from 1970-01-01 to this day.
    pub open spec fn number(self) -> int {
        days_before_year(self.year) + days_before_month(self.year, self.month) + self.day - 1
            - 719_162
    }
}

/// The day that lies `days` days after 1970-01-01.
pub open spec fn date_of(days: int) -> Date {
    choose|d: Date| #[trigger] d.valid() && d.number() == days
}

proof fn lemma_year_step(a: int, b: int)
    requires
        a < b,
    ensures
        days_before_year(a) + 365 + (if is_leap(a) { 1int } else { 0 }) <= days_before_year(b),
    decreases b - a,
{
    lemma_leap_step(a);
    if a + 1 < b {
        lemma_year_step(a + 1, b);
    }
}

proof fn lemma_leap_step(y: int)
    ensures
        days_before_year(y + 1) == days_before_year(y) + 365 + (if is_leap(y) { 1int } else { 0 }),
{
}

proof fn lemma_month_step(year: int, a: int, b: int)
    requires
        1 <= a < b <= 13,
    ensures
        days_before_month(year, a + 1) <= days_before_month(year, b),
{
}

/// No two days have the same number.
pub proof fn lemma_date_unique(a: Date, b: Date)
    requires
        a.valid(),
        b.valid(),
        a.number() == b.number(),
    ensures
        a == b,
{
    if a.year < b.year {
        lemma_year_step(a.year, b.year);
        lemma_before_next_year(a);
        lemma_after_new_year(b);
    } else if b.year < a.year {
        lemma_year_step(b.year, a.year);
        lemma_before_next_year(b);
        lemma_after_new_year(a);
    } else if a.month < b.month {
        lemma_month_step(a.year, a.month, b.month);
    } else if b.month < a.month {
        lemma_month_step(a.year, b.month, a.month);
    }
}

proof fn lemma_before_next_year(d: Date)
    requires
        d.valid(),
    ensures
        days_before_month(d.year, d.month) + d.day <= 365 + (if is_leap(d.year) {
            1int
        } else {
            0
        }),
{
}

proof fn lemma_after_new_year(d: Date)
    requires
        d.valid(),
    ensures
        days_before_month(d.year, d.month) + d.day >= 1,
{
}

/// Year of the era from the day of the era, counted from March.
proof fn lemma_year_of_era(doe: int, yoe: int, doy: int)
    requires
        0 <= doe < 146_097,
        yoe == (doe - doe / 1460 + doe / 36_524 - doe / 146_096) / 365,
        doy == doe - (365 * yoe + yoe / 4 - yoe / 100),
    ensures
        0 <= yoe <= 399,
        0 <= doy <= 365,
        doy == 365 ==> is_leap(yoe + 1),
{
}

proof fn lemma_civil(z: int, era: int, doe: int, yoe: int, doy: int, mp: int, date: Date)
    requires
        z + 719_468 == era * 146_097 + doe,
        0 <= doe < 146_097,
        0 <= yoe <= 399,
        0 <= doy <= 365,
        doy == 365 ==> is_leap(yoe + 1),
        doe == doy + 365 * yoe + yoe / 4 - yoe / 100,
        mp == (5 * doy + 2) / 153,
        date.day == doy - (153 * mp + 2) / 5 + 1,
        date.month == if mp < 10 {
            mp + 3
        } else {
            mp - 9
        },
        date.year == yoe + era * 400 + (if date.month <= 2 { 1int } else { 0 }),
    ensures
        date.valid(),
        date.number() == z,
{
    let y = yoe + era * 400;
    assert(is_leap(y + 1) == is_leap(yoe + 1)) by {
        assert((y + 1) % 400 == (yoe + 1) % 400);
        assert((y + 1) % 4 == (yoe + 1) % 4);
        assert((y + 1) % 100 == (yoe + 1) % 100);
    }
    assert(0 <= mp <= 11);
    assert(y / 4 == yoe / 4 + era * 100);
    assert(y / 100 == yoe / 100 + era * 4);
    assert(y / 400 == era);
    lemma_leap_step(y);
}

/// The civil date that lies `days` days after 1970-01-01, as year, month, day.
pub fn civil_from_days(days: i64) -> (date: (i64, u32, u32))
    requires
        days <= i64::MAX - 719_468,
    ensures
        (Date { year: date.0 as int, month: date.1 as int, day: date.2 as int }) == date_of(
            days as int,
        ),
        date_of(days as int).valid(),
        date_of(days as int).number() == days,
        1 <= date.1 <= 12,
        1 <= date.2 <= 31,
{
    let z: i64 = days + 719_468;
    let shifted: u128 = (z as i128 + 146_097 * 0x4000_0000_0000) as u128;
    let era: i64 = ((shifted / 146_097) as i128 - 0x4000_0000_0000) as i64;
    let doe: i64 = (z as i128 - era as i128 * 146_097) as i64;
    let yoe: i64 = (doe - doe / 1460 + doe / 36_524 - doe / 146_096) / 365;
    proof {
        lemma_year_of_era(
            doe as int,
            yoe as int,
            doe - (365 * yoe + yoe as int / 4 - yoe as int / 100),
        );
    }
    let doy: i64 = doe - (365 * yoe + yoe / 4 - yoe / 100);
    let mp: i64 = (5 * doy + 2) / 153;
    let d: i64 = doy - (153 * mp + 2) / 5 + 1;
    let m: i64 = if mp < 10 { mp + 3 } else { mp - 9 };
    let y: i64 = if m <= 2 { yoe + era * 400 + 1 } else { yoe + era * 400 };
    proof {
        let date = Date { year: y as int, month: m as int, day: d as int };
        lemma_civil(
            days as int,
            era as int,
            doe as int,
            yoe as int,
            doy as int,
            mp as int,
            date,
        );
        assert(date.valid() && date.number() == days);
        lemma_date_unique(date, date_of(days as int));
    }
    (y, m as u32, d as u32)
}

/// A year with at least four places, the sign counting as one.
pub open spec fn year_text(year: int) -> Seq<char> {
    if year >= 0 {
        text::dec0(year as nat, 4)
    } else {
        seq!['-'] + text::dec0((-year) as nat, 3)
    }
}

/// A day as `YYYY-MM-DD`.
pub open spec fn date_text(d: Date) -> Seq<char> {
    year_text(d.year) + seq!['-'] + text::dec0(d.month as nat, 2) + seq!['-'] + text::dec0(
        d.day as nat,
        2,
    )
}

/// A second of a day as `HH:MM:SS`.
pub open spec fn clock_text(second: int) -> Seq<char> {
    text::dec0((second / 3600) as nat, 2) + seq![':'] + text::dec0(
        (second / 60 % 60) as nat,
        2,
    ) + seq![':'] + text::dec0((second % 60) as nat, 2)
}

/// A text without the zeros at its end.
pub open spec fn without_zeros(s: Seq<char>) -> Seq<char>
    decreases s.len(),
{
    if s.len() > 0 && s.last() == '0' {
        without_zeros(s.drop_last())
    } else {
        s
    }
}

/// A count of ticks below a second as the digits of a fraction, after a dot;
/// nothing for a whole second.
pub open spec fn fraction_text(ticks: int) -> Seq<char> {
    if ticks == 0 {
        Seq::empty()
    } else {
        seq!['.'] + without_zeros(text::dec0(ticks as nat, 7))
    }
}

/// A file time as an RFC 3339 timestamp in UTC.
pub open spec fn rfc3339(ft: int) -> Seq<char> {
    let ticks = ft - UNIX_EPOCH_TICKS;
    let secs = ticks / (TICKS_PER_SECOND as int);
    date_text(date_of(secs / 86_400)) + seq!['T'] + clock_text(secs % 86_400) + fraction_text(
        ticks % (TICKS_PER_SECOND as int),
    ) + seq!['Z']
}

/// A file time as `YYYY-MM-DD HH:MM:SS UTC`; a dash where it is unknown.
pub open spec fn filetime_text(ft: int) -> Seq<char> {
    if ft <= 0 {
        seq!['—']
    } else {
        let secs = trunc_div(ft - UNIX_EPOCH_TICKS, TICKS_PER_SECOND as int);
        date_text(date_of(secs / 86_400)) + seq![' '] + clock_text(secs % 86_400) + seq![
            ' ',
            'U',
            'T',
            'C',
        ]
    }
}

/// Appends a day as `YYYY-MM-DD`.
fn push_date(s: &mut String, year: i64, month: u32, day: u32)
    requires
        year > i64::MIN,
    ensures
        final(s)@ == old(s)@ + date_text(
            Date { year: year as int, month: month as int, day: day as int },
        ),
{
    let ghost before = s@;
    if year >= 0 {
        text::push_padded(s, year as u64, 4);
    } else {
        s.push('-');
        text::push_padded(s, (-year) as u64, 3);
    }
    proof {
        assert(s@ =~= before + year_text(year as int));
    }
    s.push('-');
    text::push_padded(s, month as u64, 2);
    s.push('-');
    text::push_padded(s, day as u64, 2);
    proof {
        assert(s@ =~= before + date_text(
            Date { year: year as int, month: month as int, day: day as int },
        ));
    }
}

/// Appends a second of a day as `HH:MM:SS`.
fn push_clock(s: &mut String, second: u64)
    ensures
        final(s)@ == old(s)@ + clock_text(second as int),
{
    let ghost before = s@;
    text::push_padded(s, second / 3600, 2);
    s.push(':');
    text::push_padded(s, second / 60 % 60, 2);
    s.push(':');
    text::push_padded(s, second % 60, 2);
    proof {
        assert(s@ =~= before + clock_text(second as int));
    }
}

proof fn lemma_dec_trim(n: nat, zeros: nat)
    requires
        n > 0,
    ensures
        n % 10 != 0 ==> without_zeros(text::dec0(n, zeros)) == text::dec0(n, zeros),
        n % 10 == 0 && zeros > 0 ==> without_zeros(text::dec0(n, zeros)) == without_zeros(
            text::dec0(n / 10, (zeros - 1) as nat),
        ),
{
    let d = text::dec0(n, zeros);
    assert(d.last() == text::digit((n % 10) as int));
    if n % 10 == 0 && zeros > 0 {
        assert(d.drop_last() =~= text::dec0(n / 10, (zeros - 1) as nat));
    }
}

/// Appends a count of ticks below a second as a fraction.
fn push_fraction(s: &mut String, ticks: u64)
    ensures
        final(s)@ == old(s)@ + fraction_text(ticks as int),
{
    let ghost before = s@;
    if ticks == 0 {
        proof {
            assert(s@ =~= before + fraction_text(0));
        }
        return;
    }
    s.push('.');
    let mut rest: u64 = ticks;
    let mut width: usize = 7;
    while width > 0 && rest % 10 == 0
        invariant
            rest > 0,
            without_zeros(text::dec0(ticks as nat, 7)) == without_zeros(
                text::dec0(rest as nat, width as nat),
            ),
        decreases width,
    {
        proof {
            lemma_dec_trim(rest as nat, width as nat);
        }
        rest = rest / 10;
        width = width - 1;
    }
    while rest % 10 == 0
        invariant
            rest > 0,
            width == 0 || rest % 10 != 0,
            without_zeros(text::dec0(ticks as nat, 7)) == without_zeros(
                text::dec0(rest as nat, width as nat),
            ),
        decreases rest,
    {
        proof {
            lemma_dec_trim(rest as nat, 1);
            assert(text::dec0(rest as nat, 1) =~= text::dec0(rest as nat, 0));
        }
        rest = rest / 10;
    }
    text::push_padded(s, rest, width);
    proof {
        lemma_dec_trim(rest as nat, width as nat);
        assert(s@ =~= before + fraction_text(ticks as int));
    }
}

/// A file time as an RFC 3339 timestamp in UTC; a fraction only where the time
/// is not a whole second.
pub fn format_rfc3339(ft: FileTime) -> (r: String)
    ensures
        r@ == rfc3339(ft as int),
{
    // Whole days are moved into the positive range before dividing.
    let moved: u128 = (ft as i128 - UNIX_EPOCH_TICKS as i128 + 864_000_000_000 * 20_000_000) as u128;
    let days: i64 = (moved / 864_000_000_000) as i64 - 20_000_000;
    let in_day: u64 = (moved % 864_000_000_000) as u64;
    let second: u64 = in_day / 10_000_000;
    let sub: u64 = in_day % 10_000_000;
    proof {
        let ticks = ft - UNIX_EPOCH_TICKS;
        assert(ticks == days * 864_000_000_000 + in_day);
        assert(ticks / 10_000_000 == days * 86_400 + second);
        assert(ticks % 10_000_000 == sub);
        assert((ticks / 10_000_000) / 86_400 == days);
        assert((ticks / 10_000_000) % 86_400 == second);
    }
    let (year, month, day) = civil_from_days(days);
    let mut s: String = String::new();
    push_date(&mut s, year, month, day);
    s.push('T');
    push_clock(&mut s, second);
    push_fraction(&mut s, sub);
    s.push('Z');
    proof {
        assert(s@ =~= rfc3339(ft as int));
    }
    s
}

/// A file time as `YYYY-MM-DD HH:MM:SS UTC`; a dash for zero and below, which
/// stand for an unknown time.
pub fn format_filetime(ft: FileTime) -> (r: String)
    ensures
        r@ == filetime_text(ft as int),
{
    let mut s: String = String::new();
    if ft <= 0 {
        s.push('—');
        proof {
            assert(s@ =~= filetime_text(ft as int));
        }
        return s;
    }
    let secs: i64 = filetime_to_unix(ft);
    let moved: u64 = (secs + 86_400 * 200_000) as u64;
    let days: i64 = (moved / 86_400) as i64 - 200_000;
    let second: u64 = moved % 86_400;
    proof {
        assert(secs == days * 86_400 + second);
    }
    let (year, month, day) = civil_from_days(days);
    push_date(&mut s, year, month, day);
    s.push(' ');
    push_clock(&mut s, second);
    s.push(' ');
    s.push('U');
    s.push('T');
    s.push('C');
    proof {
        assert(s@ =~= filetime_text(ft as int));
    }
    s
}

/// Seconds that are made a file time come back as they were.
pub proof fn law_seconds_round_trip(secs: int)
    ensures
        trunc_div(
            secs * TICKS_PER_SECOND + UNIX_EPOCH_TICKS - UNIX_EPOCH_TICKS,
            TICKS_PER_SECOND as int,
        ) == secs,
{
}

/// The months have the lengths of the Gregorian calendar, February a day more in
/// leap years.
pub proof fn law_month_lengths(d: Date)
    requires
        1 <= d.month <= 12,
    ensures
        ({
            let leap = d.year % 4 == 0 && (d.year % 100 != 0 || d.year % 400 == 0);
            let days: int = if d.month == 2 {
                if leap {
                    29
                } else {
                    28
                }
            } else if d.month == 4 || d.month == 6 || d.month == 9 || d.month == 11 {
                30
            } else {
                31
            };
            d.valid() <==> 1 <= d.day <= days
        }),
{
}

/// Days are numbered from the first of January 1970, one after another.
pub proof fn law_day_numbers(d: Date)
    requires
        d.valid(),
    ensures
        (Date { year: 1970, month: 1, day: 1 }).number() == 0,
        ({
            let next = if (Date { day: d.day + 1, ..d }).valid() {
                Date { day: d.day + 1, ..d }
            } else if d.month < 12 {
                Date { year: d.year, month: d.month + 1, day: 1 }
            } else {
                Date { year: d.year + 1, month: 1, day: 1 }
            };
            next.valid() && next.number() == d.number() + 1
        }),
{
    lemma_leap_step(d.year);
    lemma_year_step(d.year, d.year + 1);
}

proof fn lemma_date_of(d: Date)
    requires
        d.valid(),
    ensures
        date_of(d.number()) == d,
{
    let e = date_of(d.number());
    assert(d.valid() && d.number() == d.number());
    lemma_date_unique(e, d);
}

proof fn lemma_clock_parts(n: int, h: int, m: int, s: int)
    requires
        0 <= h < 24,
        0 <= m < 60,
        0 <= s < 60,
    ensures
        ({
            let second = h * 3600 + m * 60 + s;
            let secs = n * 86_400 + second;
            &&& secs * 10_000_000 / 10_000_000 == secs
            &&& secs * 10_000_000 % 10_000_000 == 0
            &&& secs / 86_400 == n
            &&& secs % 86_400 == second
            &&& second / 3600 == h
            &&& second / 60 % 60 == m
            &&& second % 60 == s
        }),
{
}

/// The text of a moment shows its day and its clock: year, month and day with
/// dashes, then hours, minutes and seconds with colons.
#[verifier::spinoff_prover]
#[verifier::rlimit(50)]
pub proof fn law_moment_texts(d: Date, h: int, m: int, s: int)
    requires
        d.valid(),
        0 <= h < 24,
        0 <= m < 60,
        0 <= s < 60,
    ensures
        ({
            let secs = d.number() * 86_400 + h * 3600 + m * 60 + s;
            let ft = secs * 10_000_000 + 116_444_736_000_000_000;
            let day = year_text(d.year) + seq!['-'] + text::dec0(d.month as nat, 2) + seq!['-']
                + text::dec0(d.day as nat, 2);
            let clock = text::dec0(h as nat, 2) + seq![':'] + text::dec0(m as nat, 2) + seq![':']
                + text::dec0(s as nat, 2);
            &&& rfc3339(ft) == day + seq!['T'] + clock + seq!['Z']
            &&& d.year >= 1970 ==> filetime_text(ft) == day + seq![' '] + clock + seq![
                ' ',
                'U',
                'T',
                'C',
            ]
        }),
{
    let n = d.number();
    let secs = n * 86_400 + h * 3600 + m * 60 + s;
    let ft = secs * 10_000_000 + 116_444_736_000_000_000;
    let second = h * 3600 + m * 60 + s;
    lemma_clock_parts(n, h, m, s);
    assert(ft - UNIX_EPOCH_TICKS == secs * 10_000_000);
    lemma_date_of(d);
    let day = date_text(d);
    let clock = clock_text(second);
    assert(day + seq!['T'] + clock + Seq::<char>::empty() + seq!['Z'] =~= day + seq!['T'] + clock
        + seq!['Z']);
    if d.year >= 1970 {
        assert(n >= 0) by {
            if d.year > 1970 {
                lemma_year_step(1970, d.year);
            }
        }
    }
}

/// A file time of zero or less is unknown and shown as a dash.
pub proof fn law_unknown_moments(ft: int)
    ensures
        ft <= 0 ==> filetime_text(ft) == seq!['—'],
{
}

/// The ticks below a second are shown as a fraction without zeros at its end; filled
/// up with zeros to seven digits it is their number.
pub proof fn law_fractions(ticks: int)
    requires
        0 <= ticks < 10_000_000,
    ensures
        ticks == 0 ==> fraction_text(ticks).len() == 0,
        ticks > 0 ==> {
            let f = fraction_text(ticks);
            let n = f.len() - 1;
            &&& 1 <= n <= text::dec0(ticks as nat, 7).len()
            &&& f[0] == '.'
            &&& f[n] != '0'
            &&& f.skip(1) == text::dec0(ticks as nat, 7).take(n)
            &&& forall|i: int|
                n <= i < text::dec0(ticks as nat, 7).len() ==> #[trigger] text::dec0(
                    ticks as nat,
                    7,
                )[i] == '0'
        },
{
    if ticks > 0 {
        let d = text::dec0(ticks as nat, 7);
        let f = fraction_text(ticks);
        assert(exists|i: int| 0 <= i < d.len() && #[trigger] d[i] != '0') by {
            text::law_decimal(ticks as nat);
            let p = text::dec(ticks as nat);
            let k = d.len() - p.len();
            assert(d[k] == p[0]);
        }
        lemma_without_zeros(d);
        assert(f.skip(1) =~= without_zeros(d));
    }
}

proof fn lemma_without_zeros(s: Seq<char>)
    requires
        exists|i: int| 0 <= i < s.len() && #[trigger] s[i] != '0',
    ensures
        ({
            let w = without_zeros(s);
            &&& 1 <= w.len() <= s.len()
            &&& w.last() != '0'
            &&& w == s.take(w.len() as int)
            &&& forall|i: int| w.len() <= i < s.len() ==> #[trigger] s[i] == '0'
        }),
    decreases s.len(),
{
    if s.last() == '0' {
        let i = choose|i: int| 0 <= i < s.len() && #[trigger] s[i] != '0';
        let t = s.drop_last();
        assert(t[i] != '0');
        lemma_without_zeros(t);
        let w = without_zeros(s);
        assert(w =~= s.take(w.len() as int));
        assert forall|k: int| w.len() <= k < s.len() implies #[trigger] s[k] == '0' by {
            if k < t.len() {
                assert(t[k] == s[k]);
            }
        }
    } else {
        assert(s =~= s.take(s.len() as int));
    }
}

} // verus!
