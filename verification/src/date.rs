//! Calendar dates as plain values.
//!
//! The engine only needs to step through closed date windows, compare dates,
//! and measure how far in the past a window ends; all of that is proleptic
//! Gregorian arithmetic on `(year, month, day)` triples.

use vstd::prelude::*;

verus! {

/// Gregorian leap-year rule.
pub open spec fn is_leap_spec(year: int) -> bool {
    (year % 4 == 0 && year % 100 != 0) || year % 400 == 0
}

/// Length of `month` in `year`.
pub open spec fn days_in_month_spec(year: int, month: int) -> int {
    if month == 2 {
        if is_leap_spec(year) {
            29
        } else {
            28
        }
    } else if month == 4 || month == 6 || month == 9 || month == 11 {
        30
    } else {
        31
    }
}

/// Days contributed by the whole years before `year`.
pub open spec fn year_days(year: int) -> int {
    (year - 1) * 365 + (year - 1) / 4 - (year - 1) / 100 + (year - 1) / 400
}

/// A calendar date.  Windows of dates are closed intervals `[start, end]`.
#[derive(Clone, Copy, PartialEq, Eq, Structural, Debug)]
pub struct Date {
    pub year: u16,
    pub month: u8,
    pub day: u8,
}

impl Date {
    /// A valid proleptic Gregorian date within the supported year range.
    pub open spec fn wf(self) -> bool {
        &&& 1 <= self.year <= 9999
        &&& 1 <= self.month <= 12
        &&& 1 <= self.day <= days_in_month_spec(self.year as int, self.month as int)
    }

    /// Lexicographic order on (year, month, day): the calendar order.
    pub open spec fn le_spec(self, other: Date) -> bool {
        if self.year != other.year {
            self.year < other.year
        } else if self.month != other.month {
            self.month < other.month
        } else {
            self.day <= other.day
        }
    }

    pub open spec fn lt_spec(self, other: Date) -> bool {
        self.le_spec(other) && self != other
    }

    /// The next calendar day.
    pub open spec fn succ_spec(self) -> Date {
        if self.day < days_in_month_spec(self.year as int, self.month as int) {
            Date { year: self.year, month: self.month, day: (self.day + 1) as u8 }
        } else if self.month < 12 {
            Date { year: self.year, month: (self.month + 1) as u8, day: 1 }
        } else {
            Date { year: (self.year + 1) as u16, month: 1, day: 1 }
        }
    }

    /// Number of days from 0001-01-01 (day 0) to this date, by the usual
    /// civil-calendar formula: whole years elapsed with their leap days, plus
    /// days elapsed within the year.
    pub open spec fn day_number_spec(self) -> int {
        year_days(self.year as int) + self.days_before_month() + (self.day - 1)
    }

    /// Days in the months of this year strictly before `month`.
    pub open spec fn days_before_month(self) -> int {
        let leap: int = if is_leap_spec(self.year as int) {
            1
        } else {
            0
        };
        if self.month == 1 {
            0
        } else if self.month == 2 {
            31
        } else if self.month == 3 {
            59 + leap
        } else if self.month == 4 {
            90 + leap
        } else if self.month == 5 {
            120 + leap
        } else if self.month == 6 {
            151 + leap
        } else if self.month == 7 {
            181 + leap
        } else if self.month == 8 {
            212 + leap
        } else if self.month == 9 {
            243 + leap
        } else if self.month == 10 {
            273 + leap
        } else if self.month == 11 {
            304 + leap
        } else {
            334 + leap
        }
    }

    /// Builds a date after validating it; `None` exactly on invalid triples.
    pub fn new(year: u16, month: u8, day: u8) -> (r: Option<Date>)
        ensures
            match r {
                Some(d) => d.wf() && d.year == year && d.month == month && d.day == day,
                None => !(Date { year, month, day }).wf(),
            },
    {
        let d = Date { year, month, day };
        if 1 <= year && year <= 9999 && 1 <= month && month <= 12 && 1 <= day && day
            <= d.days_in_month() {
            Some(d)
        } else {
            None
        }
    }

    /// Whether this date's year is a leap year.
    pub fn is_leap_year(&self) -> (r: bool)
        ensures
            r == is_leap_spec(self.year as int),
    {
        (self.year % 4 == 0 && self.year % 100 != 0) || self.year % 400 == 0
    }

    /// Length of this date's month.
    pub fn days_in_month(&self) -> (r: u8)
        requires
            1 <= self.month <= 12,
        ensures
            r == days_in_month_spec(self.year as int, self.month as int),
    {
        if self.month == 2 {
            if self.is_leap_year() {
                29
            } else {
                28
            }
        } else if self.month == 4 || self.month == 6 || self.month == 9 || self.month == 11 {
            30
        } else {
            31
        }
    }

    /// Calendar comparison: `self <= other`.
    pub fn le(&self, other: &Date) -> (r: bool)
        ensures
            r == self.le_spec(*other),
    {
        if self.year != other.year {
            self.year < other.year
        } else if self.month != other.month {
            self.month < other.month
        } else {
            self.day <= other.day
        }
    }

    /// The next calendar day.  The supported range ends at 9999-12-31.
    pub fn succ(&self) -> (r: Date)
        requires
            self.wf(),
            !(self.year == 9999 && self.month == 12 && self.day == 31),
        ensures
            r == self.succ_spec(),
            r.wf(),
            self.lt_spec(r),
    {
        if self.day < self.days_in_month() {
            Date { year: self.year, month: self.month, day: self.day + 1 }
        } else if self.month < 12 {
            Date { year: self.year, month: self.month + 1, day: 1 }
        } else {
            Date { year: self.year + 1, month: 1, day: 1 }
        }
    }

    /// Days since 0001-01-01; strictly below 3,652,060 for the supported
    /// range, so comfortably inside `u32`.
    pub fn day_number(&self) -> (r: u32)
        requires
            self.wf(),
        ensures
            r == self.day_number_spec(),
    {
        let y: u32 = self.year as u32 - 1;
        let leap: u32 = if self.is_leap_year() {
            1
        } else {
            0
        };
        let before: u32 = if self.month == 1 {
            0
        } else if self.month == 2 {
            31
        } else if self.month == 3 {
            59 + leap
        } else if self.month == 4 {
            90 + leap
        } else if self.month == 5 {
            120 + leap
        } else if self.month == 6 {
            151 + leap
        } else if self.month == 7 {
            181 + leap
        } else if self.month == 8 {
            212 + leap
        } else if self.month == 9 {
            243 + leap
        } else if self.month == 10 {
            273 + leap
        } else if self.month == 11 {
            304 + leap
        } else {
            334 + leap
        };
        y * 365 + y / 4 - y / 100 + y / 400 + before + (self.day as u32 - 1)
    }
}

} // verus!

verus! {

/// One more whole year contributes 365 days, or 366 for a leap year.
proof fn lemma_year_days_step(y: int)
    ensures
        year_days(y + 1) == year_days(y) + 365 + if is_leap_spec(y) {
            1int
        } else {
            0int
        },
{
    assert(y / 4 - (y - 1) / 4 == if y % 4 == 0 {
        1int
    } else {
        0int
    }) by (nonlinear_arith);
    assert(y / 100 - (y - 1) / 100 == if y % 100 == 0 {
        1int
    } else {
        0int
    }) by (nonlinear_arith);
    assert(y / 400 - (y - 1) / 400 == if y % 400 == 0 {
        1int
    } else {
        0int
    }) by (nonlinear_arith);
    assert(y % 400 == 0 ==> y % 4 == 0 && y % 100 == 0) by (nonlinear_arith);
    assert(y % 100 == 0 ==> y % 4 == 0) by (nonlinear_arith);
}

/// Whole years accumulate at least 365 days each.
proof fn lemma_year_days_monotone(y1: int, y2: int)
    requires
        y1 <= y2,
    ensures
        year_days(y1) + 365 * (y2 - y1) <= year_days(y2),
    decreases y2 - y1,
{
    if y1 < y2 {
        lemma_year_days_monotone(y1, y2 - 1);
        lemma_year_days_step(y2 - 1);
    }
}

impl Date {
    /// The last representable date.
    pub open spec fn max_spec() -> Date {
        Date { year: 9999, month: 12, day: 31 }
    }

    /// Days elapsed within the year, counting this date's own day: at most
    /// 365 (366th day of a leap year).
    proof fn lemma_offset_in_year(self)
        requires
            self.wf(),
        ensures
            0 <= self.days_before_month() + (self.day - 1) <= 364 + if is_leap_spec(
                self.year as int,
            ) {
                1int
            } else {
                0int
            },
    {
    }

    /// The calendar successor is the numeric successor.
    pub proof fn lemma_day_number_succ(self)
        requires
            self.wf(),
            self != Date::max_spec(),
        ensures
            self.succ_spec().wf(),
            self.succ_spec().day_number_spec() == self.day_number_spec() + 1,
    {
        let s = self.succ_spec();
        if self.day < days_in_month_spec(self.year as int, self.month as int) {
        } else if self.month < 12 {
        } else {
            lemma_year_days_step(self.year as int);
        }
    }

    /// Calendar order agrees with day numbers.
    pub proof fn lemma_le_day_number(self, other: Date)
        requires
            self.wf(),
            other.wf(),
        ensures
            self.le_spec(other) <==> self.day_number_spec() <= other.day_number_spec(),
            self.lt_spec(other) <==> self.day_number_spec() < other.day_number_spec(),
    {
        if self.lt_spec(other) {
            self.lemma_lt_strict(other);
        }
        if other.lt_spec(self) {
            other.lemma_lt_strict(self);
        }
        if self != other && !self.lt_spec(other) {
            assert(other.lt_spec(self));
        }
    }

    /// A strictly earlier date has a strictly smaller day number.
    proof fn lemma_lt_strict(self, other: Date)
        requires
            self.wf(),
            other.wf(),
            self.lt_spec(other),
        ensures
            self.day_number_spec() < other.day_number_spec(),
    {
        self.lemma_offset_in_year();
        other.lemma_offset_in_year();
        if self.year == other.year {
        } else {
            lemma_year_days_step(self.year as int);
            lemma_year_days_monotone(self.year as int + 1, other.year as int);
        }
    }

    /// Day numbers of supported dates fit comfortably in `u32`.
    pub proof fn lemma_day_number_bound(self)
        requires
            self.wf(),
        ensures
            0 <= self.day_number_spec() < 3652060,
    {
        self.lemma_offset_in_year();
        let y = self.year as int - 1;
        assert(y / 4 <= 2499 && y / 100 <= 99 && y / 400 <= 24) by (nonlinear_arith)
            requires
                0 <= y <= 9998,
        ;
        assert(y / 4 >= 0 && y / 100 >= 0 && y / 400 >= 0) by (nonlinear_arith)
            requires
                y >= 0,
        ;
        assert(y / 100 <= y / 4) by (nonlinear_arith)
            requires
                y >= 0,
        ;
    }

    /// Nothing lies between a date and its successor: stepping from a date
    /// strictly before `other` lands at or before `other`.
    pub proof fn lemma_succ_le(self, other: Date)
        requires
            self.wf(),
            other.wf(),
            self.lt_spec(other),
        ensures
            self != Date::max_spec(),
            self.succ_spec().wf(),
            self.succ_spec().le_spec(other),
            self.succ_spec().day_number_spec() == self.day_number_spec() + 1,
    {
        assert(self != Date::max_spec());
        self.lemma_day_number_succ();
        self.lemma_lt_strict(other);
        self.succ_spec().lemma_le_day_number(other);
    }
}

} // verus!
