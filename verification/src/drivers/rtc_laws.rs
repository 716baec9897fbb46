//! The calendar that the clock goes by, and how its registers are written.

use vstd::prelude::*;

use crate::drivers::rtc;
use crate::drivers::rtc::RtcRegisters;

verus! {

/// The days of the months of a common year.
pub open spec fn month_lengths() -> Seq<int> {
    seq![31, 28, 31, 30, 31, 30, 31, 31, 30, 31, 30, 31]
}

/// Year `y` has a day more: every fourth year does, but of the years that end a century only
/// every fourth.
pub open spec fn has_leap_day(y: int) -> bool {
    if y % 100 == 0 {
        y / 100 % 4 == 0
    } else {
        y % 4 == 0
    }
}

/// The last day of month `m` of year `y`.
pub open spec fn last_day(y: int, m: int) -> int {
    month_lengths()[m - 1] + (if m == 2 && has_leap_day(y) {
        1int
    } else {
        0int
    })
}

proof fn lemma_leap(y: int)
    ensures
        rtc::is_leap(y) == has_leap_day(y),
{
    let (q, r) = (y / 100, y % 100);
    let (k, n) = (q / 4, q % 4);
    assert(y == 400 * k + (100 * n + r));
    assert(0 <= 100 * n + r < 400);
    assert(y % 400 == 100 * n + r);
    assert(y == 4 * (25 * q) + r);
    assert(y % 4 == r % 4);
}

proof fn lemma_last_day(y: int, m: int)
    requires
        1 <= m <= 12,
    ensures
        rtc::days_in_month(y, m) == last_day(y, m),
{
    lemma_leap(y);
    let all = month_lengths();
    assert(all[0] == 31 && all[1] == 28 && all[2] == 31 && all[3] == 30 && all[4] == 31);
    assert(all[5] == 30 && all[6] == 31 && all[7] == 31 && all[8] == 30 && all[9] == 31);
    assert(all[10] == 30 && all[11] == 31);
}

/// Days are counted from the first of January 1970 on.
pub proof fn law_first_day()
    ensures
        rtc::days_since_epoch(1970, 1, 1) == 0,
{
}

/// A day and the next are one day apart: in a month, from the last day of a month to the first
/// of the next, and from the last day of a year to the first of the next.
pub proof fn law_next_day(y: int, m: int, d: int)
    requires
        1970 <= y,
        1 <= m <= 12,
        1 <= d <= last_day(y, m),
    ensures
        d < last_day(y, m) ==> rtc::days_since_epoch(y, m, d + 1) == rtc::days_since_epoch(y, m, d)
            + 1,
        d == last_day(y, m) && m < 12 ==> rtc::days_since_epoch(y, m + 1, 1)
            == rtc::days_since_epoch(y, m, d) + 1,
        d == last_day(y, m) && m == 12 ==> rtc::days_since_epoch(y + 1, 1, 1)
            == rtc::days_since_epoch(y, m, d) + 1,
{
    lemma_last_day(y, m);
    reveal_with_fuel(rtc::days_before_month, 14);
}

/// The calendar repeats itself after 400 years.
pub proof fn law_calendar_repeats(y: int, m: int, d: int)
    requires
        1970 <= y,
    ensures
        rtc::days_since_epoch(y + 400, m, d) == rtc::days_since_epoch(y, m, d) + 146097,
{
    lemma_years_repeat(y);
    lemma_months_repeat(y, m);
}

proof fn lemma_months_repeat(y: int, m: int)
    ensures
        rtc::days_before_month(y + 400, m) == rtc::days_before_month(y, m),
    decreases m,
{
    if m > 1 {
        lemma_months_repeat(y, m - 1);
        assert((y + 400) % 400 == y % 400 && (y + 400) % 100 == y % 100 && (y + 400) % 4 == y % 4);
    }
}

proof fn lemma_years_repeat(y: int)
    requires
        1970 <= y,
    ensures
        rtc::days_before_year(y + 400) == rtc::days_before_year(y) + 146097,
    decreases y,
{
    if y == 1970 {
        lemma_leap_days(2370);
    } else {
        lemma_years_repeat(y - 1);
        assert((y + 399) % 400 == (y - 1) % 400 && (y + 399) % 100 == (y - 1) % 100 && (y + 399)
            % 4 == (y - 1) % 4);
    }
}

proof fn lemma_leap_days(y: int)
    requires
        1970 <= y,
    ensures
        rtc::days_before_year(y) == (y - 1970) * 365 + ((y - 1) / 4 - (y - 1) / 100 + (y - 1) / 400)
            - 477,
    decreases y,
{
    if y > 1970 {
        lemma_leap_days(y - 1);
    }
}

/// The byte that a register holds for the number `v`: `v` itself, or its two decimal digits of
/// four bits each.
pub open spec fn code(binary: bool, v: int) -> int {
    if binary {
        v
    } else {
        v / 10 * 16 + v % 10
    }
}

/// A register that was written for a number stands for it. Bit 2 of the second status register
/// says that numbers are written as they are, and bit 1 that hours are counted to 24; where
/// they are counted to 12, the highest bit of the register marks the hours after noon, and the
/// hour from midnight or from noon on is the twelfth.
pub proof fn law_registers_show_the_time(
    r: RtcRegisters,
    year: int,
    month: int,
    day: int,
    hour: int,
    minute: int,
    second: int,
)
    requires
        0 <= year <= 9999,
        1 <= month <= 12,
        1 <= day <= 31,
        0 <= hour < 24,
        0 <= minute < 60,
        0 <= second < 60,
        ({
            let binary = r.status_b & 0x04u8 != 0;
            &&& r.century == code(binary, year / 100)
            &&& r.year == code(binary, year % 100)
            &&& r.month == code(binary, month)
            &&& r.day == code(binary, day)
            &&& r.minutes == code(binary, minute)
            &&& r.seconds == code(binary, second)
            &&& r.status_b & 0x02u8 != 0 ==> r.hours == code(binary, hour)
            &&& r.status_b & 0x02u8 == 0 ==> r.hours == code(
                binary,
                if hour % 12 == 0 {
                    12
                } else {
                    hour % 12
                },
            ) + (if hour >= 12 {
                128int
            } else {
                0int
            })
        }),
    ensures
        r.full_year() == year,
        r.value(r.month) == month,
        r.value(r.day) == day,
        r.hour_of_day() == hour,
        r.value(r.minutes) == minute,
        r.value(r.seconds) == second,
{
    lemma_modes(r);
    lemma_code(year / 100);
    lemma_code(year % 100);
    lemma_code(month);
    lemma_code(day);
    lemma_code(minute);
    lemma_code(second);
    lemma_hour(r, hour);
}

proof fn lemma_modes(r: RtcRegisters)
    ensures
        r.is_binary() == (r.status_b & 0x04u8 != 0),
        r.counts_to_12() == (r.status_b & 0x02u8 == 0),
{
    let b = r.status_b;
    assert((b & 0x04u8 != 0) == (b / 4 % 2 == 1) && (b & 0x02u8 != 0) == (b / 2 % 2 == 1))
        by (bit_vector);
}

proof fn lemma_hour(r: RtcRegisters, hour: int)
    requires
        0 <= hour < 24,
        !r.counts_to_12() ==> r.hours == code(r.is_binary(), hour),
        r.counts_to_12() ==> r.hours == code(
            r.is_binary(),
            if hour % 12 == 0 {
                12
            } else {
                hour % 12
            },
        ) + (if hour >= 12 {
            128int
        } else {
            0int
        }),
    ensures
        r.hour_of_day() == hour,
{
    lemma_code(hour);
    if r.counts_to_12() {
        let h = if hour % 12 == 0 {
            12
        } else {
            hour % 12
        };
        lemma_code(h);
        let c = code(r.is_binary(), h);
        assert(0 <= c < 128);
        assert(r.hours % 128 == c);
        assert(r.value((r.hours % 128) as u8) == h);
        assert(hour >= 12 ==> hour % 12 == hour - 12);
        assert(hour < 12 ==> hour % 12 == hour);
    } else {
        assert(r.hours < 128);
        assert(r.hours % 128 == r.hours);
    }
}

/// The digits of a number below 100 stand for it.
proof fn lemma_code(v: int)
    requires
        0 <= v < 100,
    ensures
        0 <= code(false, v) < 0x9A,
        v < 80 ==> code(false, v) < 128,
        code(false, v) % 16 + code(false, v) / 16 * 10 == v,
        rtc::bcd_value(code(false, v) as u8) == v,
{
    let (t, u) = (v / 10, v % 10);
    assert(code(false, v) == 16 * t + u);
    assert((16 * t + u) % 16 == u && (16 * t + u) / 16 == t);
}

/// The clock is being updated where the highest bit of its state is set, and it is asked 200
/// times at most.
pub proof fn law_clock_is_awaited()
    ensures
        crate::drivers::rtc::UIP == 128,
        crate::drivers::rtc::MAX_POLLS == 200,
{
}

} // verus!
