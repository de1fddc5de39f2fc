use vstd::prelude::*;
use vstd::arithmetic::div_mod::lemma_fundamental_div_mod;
use vstd::arithmetic::div_mod::lemma_fundamental_div_mod_converse;
use crate::text::{dec_of, dec2_of, pad_left_spec, digit_char, u64_to_dec, two_digits, pad_left};
use vstd::string::StringExecFns;

verus! {

/// Timestamps are clamped to the last second of year 9999, so that the
/// civil conversion stays within comfortable integer ranges.
pub const MAX_EPOCH_SECS: u64 = 253402300799;

/// Real-world UTC offsets stay within one day of UTC.
pub const MAX_UTC_OFFSET: i64 = 86400;

/// A point in time: seconds since the Unix epoch together with the local
/// UTC offset in seconds, resolved once at construction and frozen.
#[derive(Debug, Clone, Copy, PartialEq, Eq, PartialOrd, Ord, Structural)]
pub struct Time {
    secs: u64,
    offset: i64,
}

pub open spec fn is_leap_year_spec(y: int) -> bool {
    (y % 4 == 0 && y % 100 != 0) || y % 400 == 0
}

pub open spec fn days_in_year_spec(y: int) -> int {
    if is_leap_year_spec(y) {
        366
    } else {
        365
    }
}

pub open spec fn days_in_month_spec(month: int, year: int) -> int {
    if month == 1 || month == 3 || month == 5 || month == 7 || month == 8 || month == 10
        || month == 12 {
        31
    } else if month == 4 || month == 6 || month == 9 || month == 11 {
        30
    } else if month == 2 {
        if is_leap_year_spec(year) {
            29
        } else {
            28
        }
    } else {
        0
    }
}

/// Days from 1970-01-01 to January 1 of `y` (negative for years before
/// 1970).
pub open spec fn days_before_year(y: int) -> int
    decreases (if y >= 1970 { y - 1970 } else { 1970 - y }),
{
    if y > 1970 {
        days_before_year(y - 1) + days_in_year_spec(y - 1)
    } else if y < 1970 {
        days_before_year(y + 1) - days_in_year_spec(y)
    } else {
        0
    }
}

/// Days from January 1 to the first day of `month` within `year`
/// (defined for `1 <= month <= 13`; at 13 it is the whole year).
pub open spec fn days_before_month(year: int, month: int) -> int
    decreases month,
{
    if month <= 1 {
        0
    } else {
        days_before_month(year, month - 1) + days_in_month_spec(month - 1, year)
    }
}

/// The year that holds day `days` (counted from January 1 of `year`,
/// possibly negative), with the day count rebased to that year.
pub open spec fn find_year(year: int, days: int) -> (int, int)
    decreases (if days < 0 { 1int } else { 0int }), (if days < 0 { -days } else { days }),
{
    if days >= days_in_year_spec(year) {
        find_year(year + 1, days - days_in_year_spec(year))
    } else if days < 0 {
        find_year(year - 1, days + days_in_year_spec(year - 1))
    } else {
        (year, days)
    }
}

/// The month that holds day `days` of `year` (0-based within the year),
/// with the day count rebased to that month.
pub open spec fn find_month(year: int, month: int, days: int) -> (int, int)
    decreases 13 - month,
{
    if 1 <= month <= 12 && days >= days_in_month_spec(month, year) {
        find_month(year, month + 1, days - days_in_month_spec(month, year))
    } else {
        (month, days)
    }
}

/// The civil (year, month, day) of day number `d` (days since
/// 1970-01-01, negative for earlier days).
pub open spec fn civil_of_day(d: int) -> (int, int, int) {
    let (year, rem) = find_year(1970, d);
    let (month, rem2) = find_month(year, 1, rem);
    (year, month, rem2 + 1)
}

pub open spec fn month_abbrev(m: int) -> Seq<char> {
    if m == 1 {
        "Jan"@
    } else if m == 2 {
        "Feb"@
    } else if m == 3 {
        "Mar"@
    } else if m == 4 {
        "Apr"@
    } else if m == 5 {
        "May"@
    } else if m == 6 {
        "Jun"@
    } else if m == 7 {
        "Jul"@
    } else if m == 8 {
        "Aug"@
    } else if m == 9 {
        "Sep"@
    } else if m == 10 {
        "Oct"@
    } else if m == 11 {
        "Nov"@
    } else {
        "Dec"@
    }
}

proof fn lemma_days_before_year_lower(y: int)
    requires
        y >= 1970,
    ensures
        days_before_year(y) >= 365 * (y - 1970),
    decreases y - 1970,
{
    if y > 1970 {
        lemma_days_before_year_lower(y - 1);
    }
}

impl Time {
    #[verifier::type_invariant]
    pub closed spec fn wf(self) -> bool {
        self.secs <= MAX_EPOCH_SECS && -MAX_UTC_OFFSET <= self.offset <= MAX_UTC_OFFSET
    }

    pub closed spec fn secs_spec(self) -> u64 {
        self.secs
    }

    pub closed spec fn offset_spec(self) -> i64 {
        self.offset
    }

    /// Seconds of the local clock: epoch seconds shifted by the offset.
    pub open spec fn local_spec(self) -> int {
        self.secs_spec() + self.offset_spec()
    }

    /// Days since 1970-01-01 of the local clock (floor division).
    pub open spec fn day_index_spec(self) -> int {
        self.local_spec() / 86400
    }

    /// Second within the local day.
    pub open spec fn day_second_spec(self) -> int {
        self.local_spec() % 86400
    }

    pub open spec fn civil_date_spec(self) -> (int, int, int) {
        civil_of_day(self.day_index_spec())
    }

    pub open spec fn hour_spec(self) -> int {
        self.day_second_spec() / 3600
    }

    pub open spec fn minute_spec(self) -> int {
        (self.day_second_spec() % 3600) / 60
    }

    pub open spec fn second_spec(self) -> int {
        self.day_second_spec() % 60
    }

    /// Builds a time value from raw epoch seconds and an offset supplied
    /// by the platform; out-of-range inputs are clamped.
    pub fn new(secs: u64, offset: i64) -> (r: Time)
        ensures
            r.secs_spec() == if secs <= MAX_EPOCH_SECS { secs } else { MAX_EPOCH_SECS },
            r.offset_spec() as int == if (offset as int) < -(MAX_UTC_OFFSET as int) {
                -(MAX_UTC_OFFSET as int)
            } else if offset > MAX_UTC_OFFSET {
                MAX_UTC_OFFSET as int
            } else {
                offset as int
            },
    {
        let s = if secs <= MAX_EPOCH_SECS {
            secs
        } else {
            MAX_EPOCH_SECS
        };
        let o = if offset < -MAX_UTC_OFFSET {
            -MAX_UTC_OFFSET
        } else if offset > MAX_UTC_OFFSET {
            MAX_UTC_OFFSET
        } else {
            offset
        };
        Time { secs: s, offset: o }
    }

    pub fn secs(&self) -> (r: u64)
        ensures
            r == self.secs_spec(),
    {
        self.secs
    }

    pub fn offset(&self) -> (r: i64)
        ensures
            r == self.offset_spec(),
    {
        self.offset
    }

    /// Ordering by epoch seconds, then by offset: the order the derived
    /// comparison uses, stated over the fields.
    pub open spec fn le_spec(self, other: Time) -> bool {
        self.secs_spec() < other.secs_spec() || (self.secs_spec() == other.secs_spec()
            && self.offset_spec() <= other.offset_spec())
    }

    pub fn le(&self, other: &Time) -> (r: bool)
        ensures
            r == self.le_spec(*other),
    {
        self.secs < other.secs || (self.secs == other.secs && self.offset <= other.offset)
    }

    /// The local day number and the second within that day.
    fn split_days(&self) -> (r: (i64, u64))
        ensures
            r.0 == self.day_index_spec(),
            r.1 == self.day_second_spec(),
            -1 <= r.0 <= 2932899,
            r.1 < 86400,
    {
        proof {
            use_type_invariant(self);
        }
        let local: i64 = self.secs as i64 + self.offset;
        if local >= 0 {
            let l = local as u64;
            let q = l / 86400;
            let r = l % 86400;
            proof {
                lemma_fundamental_div_mod(l as int, 86400);
            }
            (q as i64, r)
        } else {
            let l = (-local) as u64;
            let q = l / 86400;
            let r = l % 86400;
            proof {
                lemma_fundamental_div_mod(l as int, 86400);
            }
            if r == 0 {
                proof {
                    lemma_fundamental_div_mod_converse(local as int, 86400, -(q as int), 0);
                }
                (-(q as i64), 0)
            } else {
                proof {
                    lemma_fundamental_div_mod_converse(
                        local as int,
                        86400,
                        -(q as int) - 1,
                        86400 - r,
                    );
                }
                ((-(q as i64)) - 1, 86400 - r)
            }
        }
    }

    pub fn is_leap_year(year: i32) -> (r: bool)
        requires
            year >= 0,
        ensures
            r == is_leap_year_spec(year as int),
    {
        let y = year as u32;
        (y % 4 == 0 && y % 100 != 0) || y % 400 == 0
    }

    pub fn get_days_in_year(year: i32) -> (r: i32)
        requires
            year >= 0,
        ensures
            r == days_in_year_spec(year as int),
    {
        if Self::is_leap_year(year) {
            366
        } else {
            365
        }
    }

    pub fn get_days_in_month(month: u32, year: i32) -> (r: i32)
        requires
            year >= 0,
        ensures
            r == days_in_month_spec(month as int, year as int),
    {
        match month {
            1 | 3 | 5 | 7 | 8 | 10 | 12 => 31,
            4 | 6 | 9 | 11 => 30,
            2 => {
                if Self::is_leap_year(year) {
                    29
                } else {
                    28
                }
            },
            _ => 0,
        }
    }

    /// The civil (year, month, day) of the local clock, by the
    /// day-count walk: whole years first, then whole months.
    pub fn to_calendar_date(&self) -> (r: (i32, u32, u32))
        ensures
            (r.0 as int, r.1 as int, r.2 as int) == self.civil_date_spec(),
            1 <= r.1 <= 12,
            1 <= r.2 <= days_in_month_spec(r.1 as int, r.0 as int),
            days_before_year(r.0 as int) + days_before_month(r.0 as int, r.1 as int) + r.2 - 1
                == self.day_index_spec(),
            1969 <= r.0 <= 10008,
    {
        let ghost d_index = self.day_index_spec();
        let (days0, _rem) = self.split_days();
        let mut days: i64 = days0;
        let mut year: i32 = 1970;
        let mut days_in_year: i32 = Self::get_days_in_year(year);

        while days >= days_in_year as i64
            invariant
                days_in_year == days_in_year_spec(year as int),
                days == d_index - days_before_year(year as int),
                -1 <= days <= 2932899,
                d_index <= 2932899,
                1970 <= year <= 10008,
                find_year(1970, d_index) == find_year(year as int, days as int),
            decreases days,
        {
            proof {
                lemma_days_before_year_lower(year as int);
                assert(find_year(year as int, days as int) == find_year(
                    year as int + 1,
                    days - days_in_year_spec(year as int),
                ));
            }
            days = days - days_in_year as i64;
            year = year + 1;
            days_in_year = Self::get_days_in_year(year);
        }

        while days < 0
            invariant
                days_in_year == days_in_year_spec(year as int),
                days == d_index - days_before_year(year as int),
                days < days_in_year,
                -1 <= days,
                1969 <= year <= 10008,
                days < 0 ==> year >= 1970,
                find_year(1970, d_index) == find_year(year as int, days as int),
            decreases year,
        {
            proof {
                assert(find_year(year as int, days as int) == find_year(
                    year as int - 1,
                    days + days_in_year_spec(year as int - 1),
                ));
                assert(days_before_year(year as int - 1) == days_before_year(year as int)
                    - days_in_year_spec(year as int - 1));
            }
            year = year - 1;
            days_in_year = Self::get_days_in_year(year);
            days = days + days_in_year as i64;
        }

        proof {
            assert(find_year(1970, d_index) == (year as int, days as int));
        }
        let ghost year_rem = days as int;

        let mut month: u32 = 1;
        let mut days_in_month: i32 = Self::get_days_in_month(month, year);

        while days >= days_in_month as i64
            invariant
                1 <= month <= 12,
                1969 <= year <= 10008,
                days_in_month == days_in_month_spec(month as int, year as int),
                0 <= days,
                days + days_before_month(year as int, month as int) < days_in_year_spec(
                    year as int,
                ),
                days == d_index - days_before_year(year as int) - days_before_month(
                    year as int,
                    month as int,
                ),
                find_month(year as int, 1, year_rem) == find_month(
                    year as int,
                    month as int,
                    days as int,
                ),
                find_year(1970, d_index) == (year as int, year_rem),
            decreases days,
        {
            proof {
                lemma_days_before_month_all(year as int);
                assert(days_before_month(year as int, month as int + 1) == days_before_month(
                    year as int,
                    month as int,
                ) + days_in_month_spec(month as int, year as int));
                assert(month as int + 1 < 13);
                assert(find_month(year as int, month as int, days as int) == find_month(
                    year as int,
                    month as int + 1,
                    days - days_in_month_spec(month as int, year as int),
                ));
            }
            days = days - days_in_month as i64;
            month = month + 1;
            if month > 12 {
                month = 1;
                year = year + 1;
            }
            days_in_month = Self::get_days_in_month(month, year);
        }

        proof {
            assert(find_month(year as int, month as int, days as int) == (
                month as int,
                days as int,
            ));
            assert(self.civil_date_spec() == (year as int, month as int, days + 1));
        }

        let day = (days + 1) as u32;
        (year, month, day)
    }

    /// Hour, minute and second of the local day.
    pub fn to_time_parts(&self) -> (r: (u32, u32, u32))
        ensures
            r.0 == self.hour_spec(),
            r.1 == self.minute_spec(),
            r.2 == self.second_spec(),
            r.0 < 24 && r.1 < 60 && r.2 < 60,
    {
        let (_days, rem) = self.split_days();
        let hours = rem / 3600;
        let minutes = (rem % 3600) / 60;
        let seconds = rem % 60;
        (hours as u32, minutes as u32, seconds as u32)
    }

    /// The listing timestamp: three-letter month, day right-aligned to
    /// width two with a space, and zero-padded hour and minute.
    pub open spec fn format_spec(self) -> Seq<char> {
        let (y, m, d) = self.civil_date_spec();
        month_abbrev(m) + seq![' '] + pad_left_spec(dec_of(d as nat), 2) + seq![' '] + dec2_of(
            self.hour_spec(),
        ) + seq![':'] + dec2_of(self.minute_spec())
    }

    pub fn format(&self) -> (r: String)
        ensures
            r@ == self.format_spec(),
    {
        let (_year, month, day) = self.to_calendar_date();
        let (hours, minutes, _seconds) = self.to_time_parts();

        let month_str = month_name(month);
        let mut out = month_str.to_owned();
        out.push(' ');
        let day_str = u64_to_dec(day as u64);
        let padded_day = pad_left(day_str.as_str(), 2);
        out.append(padded_day.as_str());
        out.push(' ');
        let h = two_digits(hours as u64);
        out.append(h.as_str());
        out.push(':');
        let m = two_digits(minutes as u64);
        out.append(m.as_str());
        proof {
            assert(out@ =~= self.format_spec());
        }
        out
    }

    /// The ISO-8601 timestamp used by the structured-record output:
    /// date, time and the frozen offset.
    pub open spec fn rfc3339_spec(self) -> Seq<char> {
        let (y, m, d) = self.civil_date_spec();
        let off = self.offset_spec() as int;
        let mag = if off < 0 { -off } else { off };
        pad_left_spec(dec_of(y as nat), 4) + seq!['-'] + dec2_of(m) + seq!['-'] + dec2_of(d)
            + seq!['T'] + dec2_of(self.hour_spec()) + seq![':'] + dec2_of(self.minute_spec())
            + seq![':'] + dec2_of(self.second_spec()) + seq![if off < 0 { '-' } else { '+' }]
            + dec2_of(mag / 3600) + seq![':'] + dec2_of((mag % 3600) / 60)
    }

    pub fn to_rfc3339(&self) -> (r: String)
        ensures
            r@ == self.rfc3339_spec(),
    {
        proof {
            use_type_invariant(self);
        }
        let (year, month, day) = self.to_calendar_date();
        let (hours, minutes, seconds) = self.to_time_parts();

        let year_str = u64_to_dec(year as u64);
        let mut out = pad_left(year_str.as_str(), 4);
        out.push('-');
        let m2 = two_digits(month as u64);
        out.append(m2.as_str());
        out.push('-');
        let d2 = two_digits(day as u64);
        out.append(d2.as_str());
        out.push('T');
        let h2 = two_digits(hours as u64);
        out.append(h2.as_str());
        out.push(':');
        let mi2 = two_digits(minutes as u64);
        out.append(mi2.as_str());
        out.push(':');
        let s2 = two_digits(seconds as u64);
        out.append(s2.as_str());
        if self.offset < 0 {
            out.push('-');
        } else {
            out.push('+');
        }
        let mag: i64 = if self.offset < 0 {
            -self.offset
        } else {
            self.offset
        };
        let oh = two_digits((mag / 3600) as u64);
        out.append(oh.as_str());
        out.push(':');
        let om = two_digits(((mag % 3600) / 60) as u64);
        out.append(om.as_str());
        proof {
            assert(out@ =~= self.rfc3339_spec());
        }
        out
    }
}

fn month_name(m: u32) -> (r: &'static str)
    ensures
        r@ == month_abbrev(m as int),
{
    match m {
        1 => "Jan",
        2 => "Feb",
        3 => "Mar",
        4 => "Apr",
        5 => "May",
        6 => "Jun",
        7 => "Jul",
        8 => "Aug",
        9 => "Sep",
        10 => "Oct",
        11 => "Nov",
        _ => "Dec",
    }
}

proof fn lemma_days_before_month_all(year: int)
    ensures
        days_before_month(year, 13) == days_in_year_spec(year),
{
    reveal_with_fuel(days_before_month, 14);
}

} // verus!
