//! The battery-backed clock of a PC: what its registers say of the time, as seconds since
//! 1970.

use vstd::prelude::*;

verus! {

/// The clock is changing its registers.
pub const UIP: u8 = 0x80;

/// How often a clock that is changing its registers is asked again, a millisecond
/// apart, before it is given up.
pub const MAX_POLLS: u32 = 200;

/// The registers of the clock.
#[derive(Clone, Copy)]
pub struct RtcRegisters {
    pub status_a: u8,
    pub status_b: u8,
    pub seconds: u8,
    pub minutes: u8,
    pub hours: u8,
    pub day: u8,
    pub month: u8,
    pub year: u8,
    pub century: u8,
}

/// A time as the clock keeps it.
#[derive(Clone, Copy)]
pub struct RtcTime {
    pub sec: u8,
    pub min: u8,
    pub hour: u8,
    pub day: u8,
    pub month: u8,
    pub year: u16,
}

/// The number that two decimal digits of four bits each make.
pub open spec fn bcd_value(b: u8) -> int {
    b as int % 16 + b as int / 16 * 10
}

/// The number that two decimal digits of four bits each make.
pub fn bcd_to_binary(bcd: u8) -> (r: u8)
    ensures
        r == bcd_value(bcd),
{
    bcd % 16 + bcd / 16 * 10
}

impl RtcRegisters {
    /// The registers hold plain numbers rather than decimal digits.
    pub open spec fn is_binary(self) -> bool {
        self.status_b as int / 4 % 2 == 1
    }

    /// Hours are counted to twelve.
    pub open spec fn counts_to_12(self) -> bool {
        self.status_b as int / 2 % 2 == 0
    }

    /// What a register stands for.
    pub open spec fn value(self, b: u8) -> int {
        if self.is_binary() {
            b as int
        } else {
            bcd_value(b)
        }
    }

    /// The hour, counted from midnight. In a count to twelve the highest bit of the
    /// register marks the hours after noon.
    pub open spec fn hour_of_day(self) -> int {
        if self.counts_to_12() {
            let h = self.value((self.hours % 128) as u8);
            let pm = self.hours >= 128;
            if pm && h != 12 {
                h + 12
            } else if !pm && h == 12 {
                0
            } else {
                h
            }
        } else if self.is_binary() {
            self.hours as int
        } else {
            bcd_value((self.hours % 128) as u8)
        }
    }

    pub open spec fn full_year(self) -> int {
        self.value(self.century) * 100 + self.value(self.year)
    }

    fn number(&self, b: u8) -> (r: u8)
        ensures
            r == self.value(b),
    {
        if self.status_b / 4 % 2 == 1 {
            b
        } else {
            bcd_to_binary(b)
        }
    }

    /// The time that the registers stand for.
    pub fn read_all(&self) -> (r: RtcTime)
        ensures
            r.sec == self.value(self.seconds),
            r.min == self.value(self.minutes),
            r.hour == self.hour_of_day(),
            r.day == self.value(self.day),
            r.month == self.value(self.month),
            r.year == self.full_year(),
    {
        let low: u8 = self.hours % 128;
        let hour: u8 = if self.status_b / 2 % 2 == 0 {
            let h: u8 = self.number(low);
            let pm = self.hours >= 128;
            if pm && h != 12 {
                h + 12
            } else if !pm && h == 12 {
                0
            } else {
                h
            }
        } else if self.status_b / 4 % 2 == 1 {
            self.hours
        } else {
            bcd_to_binary(low)
        };
        RtcTime {
            sec: self.number(self.seconds),
            min: self.number(self.minutes),
            hour,
            day: self.number(self.day),
            month: self.number(self.month),
            year: self.number(self.century) as u16 * 100 + self.number(self.year) as u16,
        }
    }
}

pub open spec fn is_leap(y: int) -> bool {
    y % 4 == 0 && (y % 100 != 0 || y % 400 == 0)
}

pub open spec fn days_in_year(y: int) -> int {
    if is_leap(y) {
        366
    } else {
        365
    }
}

/// The days of the years from 1970 up to `y`.
pub open spec fn days_before_year(y: int) -> int
    decreases y - 1970,
{
    if y <= 1970 {
        0
    } else {
        days_before_year(y - 1) + days_in_year(y - 1)
    }
}

pub open spec fn days_in_month(y: int, m: int) -> int {
    if m == 2 {
        if is_leap(y) {
            29
        } else {
            28
        }
    } else if m == 4 || m == 6 || m == 9 || m == 11 {
        30
    } else {
        31
    }
}

/// The days of the months of year `y` before month `m`.
pub open spec fn days_before_month(y: int, m: int) -> int
    decreases m,
{
    if m <= 1 {
        0
    } else {
        days_before_month(y, m - 1) + days_in_month(y, m - 1)
    }
}

/// The days from the beginning of 1970 to a day.
pub open spec fn days_since_epoch(y: int, m: int, d: int) -> int {
    days_before_year(y) + days_before_month(y, m) + d - 1
}

proof fn lemma_days_before_year(y: int)
    requires
        1970 <= y,
    ensures
        days_before_year(y) == (y - 1970) * 365 + ((y - 1) / 4 - (y - 1) / 100 + (y - 1) / 400)
            - 477,
    decreases y,
{
    if y > 1970 {
        lemma_days_before_year(y - 1);
    }
}

/// The days from the beginning of 1970 to a day.
pub fn days_from_civil(year: u64, month: u64, day: u64) -> (r: u64)
    requires
        1970 <= year <= 9999,
        1 <= month <= 12,
        1 <= day <= 31,
    ensures
        r == days_since_epoch(year as int, month as int, day as int),
        r < 0x40_0000,
{
    let prev: u64 = year - 1;
    let years: u64 = (year - 1970) * 365 + (prev / 4 - prev / 100 + prev / 400) - 477;
    proof {
        lemma_days_before_year(year as int);
        reveal_with_fuel(days_before_month, 12);
    }
    let leap = year % 4 == 0 && (year % 100 != 0 || year % 400 == 0);
    let feb: u64 = if leap {
        29
    } else {
        28
    };
    let months: u64 = if month == 1 {
        0
    } else if month == 2 {
        31
    } else if month == 3 {
        31 + feb
    } else if month == 4 {
        62 + feb
    } else if month == 5 {
        92 + feb
    } else if month == 6 {
        123 + feb
    } else if month == 7 {
        153 + feb
    } else if month == 8 {
        184 + feb
    } else if month == 9 {
        215 + feb
    } else if month == 10 {
        245 + feb
    } else if month == 11 {
        276 + feb
    } else {
        306 + feb
    };
    years + months + day - 1
}

/// The date is one that the clock can show.
pub open spec fn is_date(y: int, m: int, d: int) -> bool {
    1970 <= y <= 9999 && 1 <= m <= 12 && 1 <= d <= 31
}

/// The seconds since 1970 that the registers stand for; none while the clock is changing
/// them, or where they hold no date from 1970 to 9999.
pub fn read_epoch_secs(regs: &RtcRegisters) -> (r: Option<u64>)
    ensures
        ({
            let y = regs.full_year();
            let m = regs.value(regs.month);
            let d = regs.value(regs.day);
            r == if regs.status_a >= UIP || !is_date(y, m, d) {
                None::<u64>
            } else {
                Some(
                    (days_since_epoch(y, m, d) * 86400 + regs.hour_of_day() * 3600 + regs.value(
                        regs.minutes,
                    ) * 60 + regs.value(regs.seconds)) as u64,
                )
            }
        }),
        regs.status_a < UIP && is_date(
            regs.full_year(),
            regs.value(regs.month),
            regs.value(regs.day),
        ) ==> days_since_epoch(
            regs.full_year(),
            regs.value(regs.month),
            regs.value(regs.day),
        ) * 86400 + regs.hour_of_day() * 3600 + regs.value(regs.minutes) * 60 + regs.value(
            regs.seconds,
        ) <= u64::MAX,
{
    if regs.status_a >= UIP {
        return None;
    }
    let t: RtcTime = regs.read_all();
    let year: u64 = t.year as u64;
    let month: u64 = t.month as u64;
    let day: u64 = t.day as u64;
    if year < 1970 || year > 9999 || month == 0 || month > 12 || day == 0 || day > 31 {
        return None;
    }
    let days: u64 = days_from_civil(year, month, day);
    Some(days * 86400 + t.hour as u64 * 3600 + t.min as u64 * 60 + t.sec as u64)
}

/// What is to be done while waiting for the clock.
#[derive(Clone, Copy, PartialEq, Eq, Structural)]
pub enum RtcPoll {
    /// Wait a millisecond and ask again.
    Wait,
    /// Read the registers.
    Read,
}

/// Whether to ask the clock again, where it answered `status_a` and was asked `polls`
/// times before.
pub fn next_poll(polls: u32, status_a: u8) -> (r: RtcPoll)
    ensures
        r == if polls < MAX_POLLS && status_a >= UIP {
            RtcPoll::Wait
        } else {
            RtcPoll::Read
        },
{
    if polls < MAX_POLLS && status_a >= UIP {
        RtcPoll::Wait
    } else {
        RtcPoll::Read
    }
}

/// A later day has more days before it.
pub proof fn law_days_increase(y: int, m: int, d: int, y2: int, m2: int, d2: int)
    requires
        is_date(y, m, d),
        is_date(y2, m2, d2),
        d <= days_in_month(y, m),
        d2 <= days_in_month(y2, m2),
        y < y2 || (y == y2 && (m < m2 || (m == m2 && d < d2))),
    ensures
        days_since_epoch(y, m, d) < days_since_epoch(y2, m2, d2),
{
    if y < y2 {
        lemma_years_increase(y + 1, y2);
        lemma_months_increase(y, m, 13);
        lemma_months_of_a_year(y);
        if m2 > 1 {
            lemma_months_increase(y2, 1, m2);
        }
    } else if m < m2 {
        lemma_months_increase(y, m, m2);
    }
}

/// A month lies before every later one.
proof fn lemma_months_increase(y: int, m: int, m2: int)
    requires
        1 <= m < m2,
    ensures
        days_before_month(y, m) + days_in_month(y, m) <= days_before_month(y, m2),
    decreases m2 - m,
{
    if m + 1 < m2 {
        lemma_months_increase(y, m, m2 - 1);
    }
}

/// The months of a year make up the year.
proof fn lemma_months_of_a_year(y: int)
    ensures
        days_before_month(y, 13) == days_in_year(y),
{
    reveal_with_fuel(days_before_month, 13);
}

proof fn lemma_years_increase(y: int, y2: int)
    requires
        1970 <= y <= y2,
    ensures
        days_before_year(y) <= days_before_year(y2),
    decreases y2 - y,
{
    if y < y2 {
        lemma_years_increase(y, y2 - 1);
    }
}

} // verus!
