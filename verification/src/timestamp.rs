//! Timestamps of log lines: `YYYY.MM.DD HH:MM:SS`, read as local time.

use crate::error::FatalError;
use crate::text::{is_digit, to_chars};
use chrono::TimeZone;
use vstd::prelude::*;

verus! {

/// The fields of a wall-clock reading, as a log line writes them.
#[derive(Clone, Copy, PartialEq, Eq, Structural, Debug)]
pub struct WallClock {
    pub year: u16,
    pub month: u8,
    pub day: u8,
    pub hour: u8,
    pub minute: u8,
    pub second: u8,
}

/// A wall-clock reading together with the offset of local time from UTC that
/// was in force at it, in seconds east of Greenwich.
#[derive(Clone, Copy, PartialEq, Eq, Structural, Debug)]
pub struct LocalInstant {
    pub wall_clock: WallClock,
    pub utc_offset: i32,
}

/// Leap years of the proleptic Gregorian calendar.
pub open spec fn is_leap_year(year: int) -> bool {
    (year % 4 == 0 && year % 100 != 0) || year % 400 == 0
}

/// The number of days of a month.
pub open spec fn days_in_month(year: int, month: int) -> int {
    if month == 2 {
        if is_leap_year(year) {
            29
        } else {
            28
        }
    } else if month == 4 || month == 6 || month == 9 || month == 11 {
        30
    } else {
        31
    }
}

/// The character that writes the digit `d`.
pub open spec fn digit_char(d: int) -> char {
    if d == 0 {
        '0'
    } else if d == 1 {
        '1'
    } else if d == 2 {
        '2'
    } else if d == 3 {
        '3'
    } else if d == 4 {
        '4'
    } else if d == 5 {
        '5'
    } else if d == 6 {
        '6'
    } else if d == 7 {
        '7'
    } else if d == 8 {
        '8'
    } else {
        '9'
    }
}

impl WallClock {
    /// The reading names a second of a day of the calendar. Second 60 is a
    /// leap second.
    pub open spec fn is_valid(self) -> bool {
        &&& self.year <= 9999
        &&& 1 <= self.month <= 12
        &&& 1 <= self.day <= days_in_month(self.year as int, self.month as int)
        &&& self.hour <= 23
        &&& self.minute <= 59
        &&& self.second <= 60
    }

    /// Every field fits the digits that the text gives it.
    pub open spec fn fits_text(self) -> bool {
        &&& self.year <= 9999
        &&& self.month <= 99
        &&& self.day <= 99
        &&& self.hour <= 99
        &&& self.minute <= 99
        &&& self.second <= 99
    }

    /// Tests whether the reading names a second of a day of the calendar.
    pub fn check(&self) -> (b: bool)
        ensures
            b == self.is_valid(),
    {
        if self.year > 9999 || self.month < 1 || self.month > 12 {
            return false;
        }
        let leap: bool = (self.year % 4 == 0 && self.year % 100 != 0) || self.year % 400 == 0;
        let days: u8 = if self.month == 2 {
            if leap {
                29
            } else {
                28
            }
        } else if self.month == 4 || self.month == 6 || self.month == 9 || self.month == 11 {
            30
        } else {
            31
        };
        1 <= self.day && self.day <= days && self.hour <= 23 && self.minute <= 59 && self.second
            <= 60
    }
}

impl LocalInstant {
    /// The wall clock is valid and the offset is less than a day.
    pub open spec fn is_valid(self) -> bool {
        self.wall_clock.is_valid() && -86_400 < self.utc_offset < 86_400
    }
}

/// The text of a wall-clock reading: zero-padded fields, dots in the date,
/// colons in the time, one space between the two.
pub open spec fn wall_clock_text(w: WallClock) -> Seq<char> {
    let year = w.year as int;
    let month = w.month as int;
    let day = w.day as int;
    let hour = w.hour as int;
    let minute = w.minute as int;
    let second = w.second as int;
    seq![
        digit_char(year / 100 / 10),
        digit_char(year / 100 % 10),
        digit_char(year % 100 / 10),
        digit_char(year % 100 % 10),
        '.',
        digit_char(month / 10),
        digit_char(month % 10),
        '.',
        digit_char(day / 10),
        digit_char(day % 10),
        ' ',
        digit_char(hour / 10),
        digit_char(hour % 10),
        ':',
        digit_char(minute / 10),
        digit_char(minute % 10),
        ':',
        digit_char(second / 10),
        digit_char(second % 10),
    ]
}

/// `text` is the text of some valid wall-clock reading.
pub open spec fn is_timestamp(text: Seq<char>) -> bool {
    exists|w: WallClock| w.is_valid() && wall_clock_text(w) == text
}

/// The valid wall-clock reading that `text` writes, if it writes one.
pub open spec fn wall_clock_of(text: Seq<char>) -> Option<WallClock> {
    if is_timestamp(text) {
        Some(choose|w: WallClock| w.is_valid() && wall_clock_text(w) == text)
    } else {
        None
    }
}

/// The text of a valid wall-clock reading has nineteen characters, digits in
/// the fields and the separators between them.
pub proof fn lemma_wall_clock_text_shape(w: WallClock)
    ensures
        wall_clock_text(w).len() == 19,
        wall_clock_text(w)[4] == '.',
        wall_clock_text(w)[7] == '.',
        wall_clock_text(w)[10] == ' ',
        wall_clock_text(w)[13] == ':',
        wall_clock_text(w)[16] == ':',
        forall|i: int|
            0 <= i < 19 && i != 4 && i != 7 && i != 10 && i != 13 && i != 16 ==> is_digit(
                #[trigger] wall_clock_text(w)[i],
            ),
{
}

/// Two numbers below a hundred that are written with the same two digits are
/// the same number.
proof fn lemma_two_digits_injective(a: int, b: int)
    requires
        0 <= a <= 99,
        0 <= b <= 99,
        digit_char(a / 10) == digit_char(b / 10),
        digit_char(a % 10) == digit_char(b % 10),
    ensures
        a == b,
{
    assert(a / 10 == b / 10);
    assert(a % 10 == b % 10);
}

/// Two wall-clock readings with the same text are the same reading, as long
/// as their fields fit the text's digits.
pub proof fn lemma_wall_clock_text_injective(a: WallClock, b: WallClock)
    requires
        a.fits_text(),
        b.fits_text(),
        wall_clock_text(a) == wall_clock_text(b),
    ensures
        a == b,
{
    let s = wall_clock_text(a);
    let t = wall_clock_text(b);
    assert(s[0] == t[0] && s[1] == t[1]);
    lemma_two_digits_injective(a.year as int / 100, b.year as int / 100);
    assert(s[2] == t[2] && s[3] == t[3]);
    lemma_two_digits_injective(a.year as int % 100, b.year as int % 100);
    assert(s[5] == t[5] && s[6] == t[6]);
    lemma_two_digits_injective(a.month as int, b.month as int);
    assert(s[8] == t[8] && s[9] == t[9]);
    lemma_two_digits_injective(a.day as int, b.day as int);
    assert(s[11] == t[11] && s[12] == t[12]);
    lemma_two_digits_injective(a.hour as int, b.hour as int);
    assert(s[14] == t[14] && s[15] == t[15]);
    lemma_two_digits_injective(a.minute as int, b.minute as int);
    assert(s[17] == t[17] && s[18] == t[18]);
    lemma_two_digits_injective(a.second as int, b.second as int);
}

/// What a valid reading's text is read back as.
pub proof fn lemma_wall_clock_of_text(w: WallClock)
    requires
        w.is_valid(),
    ensures
        wall_clock_of(wall_clock_text(w)) == Some(w),
{
    let found = choose|v: WallClock| v.is_valid() && wall_clock_text(v) == wall_clock_text(w);
    lemma_wall_clock_text_injective(found, w);
}

/// Reads one digit.
fn digit_of(c: char) -> (d: Option<u8>)
    ensures
        match d {
            Some(v) => v <= 9 && digit_char(v as int) == c,
            None => !is_digit(c),
        },
{
    if c == '0' {
        Some(0)
    } else if c == '1' {
        Some(1)
    } else if c == '2' {
        Some(2)
    } else if c == '3' {
        Some(3)
    } else if c == '4' {
        Some(4)
    } else if c == '5' {
        Some(5)
    } else if c == '6' {
        Some(6)
    } else if c == '7' {
        Some(7)
    } else if c == '8' {
        Some(8)
    } else if c == '9' {
        Some(9)
    } else {
        None
    }
}

/// Reads the two-digit field that starts at `at`.
fn two_digits_at(text: &[char], at: usize) -> (r: Option<u8>)
    requires
        at + 2 <= text@.len(),
    ensures
        match r {
            Some(v) => v <= 99 && text@[at as int] == digit_char(v as int / 10) && text@[at + 1]
                == digit_char(v as int % 10),
            None => !is_digit(text@[at as int]) || !is_digit(text@[at + 1]),
        },
{
    match (digit_of(text[at]), digit_of(text[at + 1])) {
        (Some(tens), Some(ones)) => Some(tens * 10 + ones),
        _ => None,
    }
}

/// The text whose fields were read as these numbers is the text of the
/// reading that holds them.
proof fn lemma_text_of_fields(text: Seq<char>, w: WallClock, century: int, years: int)
    requires
        text.len() == 19,
        text[4] == '.' && text[7] == '.' && text[10] == ' ' && text[13] == ':' && text[16] == ':',
        0 <= century <= 99 && 0 <= years <= 99 && w.year == century * 100 + years,
        text[0] == digit_char(century / 10) && text[1] == digit_char(century % 10),
        text[2] == digit_char(years / 10) && text[3] == digit_char(years % 10),
        text[5] == digit_char(w.month as int / 10) && text[6] == digit_char(w.month as int % 10),
        text[8] == digit_char(w.day as int / 10) && text[9] == digit_char(w.day as int % 10),
        text[11] == digit_char(w.hour as int / 10) && text[12] == digit_char(w.hour as int % 10),
        text[14] == digit_char(w.minute as int / 10) && text[15] == digit_char(
            w.minute as int % 10,
        ),
        text[17] == digit_char(w.second as int / 10) && text[18] == digit_char(
            w.second as int % 10,
        ),
    ensures
        wall_clock_text(w) == text,
{
    assert(w.year as int / 100 == century && w.year as int % 100 == years);
    assert(wall_clock_text(w) =~= text);
}

/// Text that differs in shape from every reading's text is no timestamp.
proof fn lemma_not_timestamp(text: Seq<char>)
    requires
        text.len() != 19 || text[4] != '.' || text[7] != '.' || text[10] != ' ' || text[13] != ':'
            || text[16] != ':' || exists|i: int|
            0 <= i < 19 && i != 4 && i != 7 && i != 10 && i != 13 && i != 16 && !is_digit(
                #[trigger] text[i],
            ),
    ensures
        !is_timestamp(text),
{
    assert forall|w: WallClock| w.is_valid() && wall_clock_text(w) == text implies false by {
        lemma_wall_clock_text_shape(w);
    }
}

/// Text that writes a reading which is not valid is no timestamp.
proof fn lemma_invalid_reading(text: Seq<char>, reading: WallClock)
    requires
        reading.fits_text(),
        !reading.is_valid(),
        wall_clock_text(reading) == text,
    ensures
        !is_timestamp(text),
{
    assert forall|w: WallClock| w.is_valid() && wall_clock_text(w) == text implies false by {
        lemma_wall_clock_text_injective(w, reading);
    }
}

/// Reads a timestamp's text as the wall-clock reading that it writes.
pub fn parse_wall_clock(text: &[char]) -> (r: Option<WallClock>)
    ensures
        r == wall_clock_of(text@),
        r matches Some(w) ==> w.is_valid() && wall_clock_text(w) == text@,
        r is None ==> !is_timestamp(text@),
{
    if text.len() != 19 {
        proof {
            lemma_not_timestamp(text@);
        }
        return None;
    }
    if text[4] != '.' || text[7] != '.' || text[10] != ' ' || text[13] != ':' || text[16] != ':' {
        proof {
            lemma_not_timestamp(text@);
        }
        return None;
    }
    let fields = (
        two_digits_at(text, 0),
        two_digits_at(text, 2),
        two_digits_at(text, 5),
        two_digits_at(text, 8),
        two_digits_at(text, 11),
        two_digits_at(text, 14),
        two_digits_at(text, 17),
    );
    match fields {
        (Some(century), Some(years), Some(month), Some(day), Some(hour), Some(minute), Some(second)) => {
            let year: u16 = century as u16 * 100 + years as u16;
            let reading = WallClock { year, month, day, hour, minute, second };
            proof {
                lemma_text_of_fields(text@, reading, century as int, years as int);
            }
            if reading.check() {
                proof {
                    lemma_wall_clock_of_text(reading);
                }
                Some(reading)
            } else {
                proof {
                    lemma_invalid_reading(text@, reading);
                }
                None
            }
        },
        _ => {
            proof {
                assert(!is_digit(text@[0]) || !is_digit(text@[1]) || !is_digit(text@[2])
                    || !is_digit(text@[3]) || !is_digit(text@[5]) || !is_digit(text@[6])
                    || !is_digit(text@[8]) || !is_digit(text@[9]) || !is_digit(text@[11])
                    || !is_digit(text@[12]) || !is_digit(text@[14]) || !is_digit(text@[15])
                    || !is_digit(text@[17]) || !is_digit(text@[18]));
                lemma_not_timestamp(text@);
            }
            None
        },
    }
}

/// What the time zone is asked: the fields of a wall-clock reading as
/// `chrono` takes them, with a leap second written as second 59 and a
/// thousand million nanoseconds.
#[derive(Clone, Copy, PartialEq, Eq, Structural, Debug)]
pub struct ZoneQuery {
    pub year: i32,
    pub month: u32,
    pub day: u32,
    pub hour: u32,
    pub minute: u32,
    pub second: u32,
    pub nano: u32,
}

/// The question that a wall-clock reading puts to the time zone.
pub open spec fn zone_query_of(w: WallClock) -> ZoneQuery {
    ZoneQuery {
        year: w.year as i32,
        month: w.month as u32,
        day: w.day as u32,
        hour: w.hour as u32,
        minute: w.minute as u32,
        second: if w.second == 60 {
            59
        } else {
            w.second as u32
        },
        nano: if w.second == 60 {
            1_000_000_000
        } else {
            0
        },
    }
}

/// Puts a wall-clock reading in the form in which the time zone is asked.
pub fn zone_query(w: WallClock) -> (q: ZoneQuery)
    requires
        w.is_valid(),
    ensures
        q == zone_query_of(w),
        q.year == w.year,
        q.month == w.month,
        q.day == w.day,
        q.hour == w.hour,
        q.minute == w.minute,
        q.second == (if w.second == 60 {
            59
        } else {
            w.second as int
        }),
        q.nano == (if w.second == 60 {
            1_000_000_000int
        } else {
            0
        }),
{
    let leap: bool = w.second == 60;
    ZoneQuery {
        year: w.year as i32,
        month: w.month as u32,
        day: w.day as u32,
        hour: w.hour as u32,
        minute: w.minute as u32,
        second: if leap {
            59
        } else {
            w.second as u32
        },
        nano: if leap {
            1_000_000_000
        } else {
            0
        },
    }
}

/// Asks the machine's time zone, through `chrono::Local`, which offset from
/// UTC was in force at a local wall-clock time, and takes the earliest where
/// the zone's clocks showed that time twice. The fields of the query go to
/// `NaiveDate::from_ymd_opt` and `NaiveDate::and_hms_nano_opt` as they are. The
/// answer depends on the machine; all that is claimed is that an offset is
/// less than a day, which is the bound that `FixedOffset` keeps. `None` stands
/// for a time that the zone skips or that chrono's calendar does not hold.
#[verifier::external_body]
fn earliest_local_offset(query: &ZoneQuery) -> (offset: Option<i32>)
    ensures
        offset matches Some(seconds) ==> -86_400 < seconds < 86_400,
{
    let date = chrono::NaiveDate::from_ymd_opt(query.year, query.month, query.day)?;
    let local = date.and_hms_nano_opt(query.hour, query.minute, query.second, query.nano)?;
    let resolved = chrono::Local.from_local_datetime(&local).earliest()?;
    Some(resolved.offset().local_minus_utc())
}

/// Joins a wall-clock reading with the offset that the time zone gave for it.
pub fn resolve_local(wall_clock: WallClock, utc_offset: Option<i32>) -> (r: Result<
    LocalInstant,
    FatalError,
>)
    ensures
        match utc_offset {
            Some(seconds) if -86_400 < seconds < 86_400 => r == Ok::<LocalInstant, FatalError>(
                LocalInstant { wall_clock, utc_offset: seconds },
            ),
            _ => r == Err::<LocalInstant, FatalError>(FatalError::NoLocalTime),
        },
{
    match utc_offset {
        Some(seconds) => {
            if -86_400 < seconds && seconds < 86_400 {
                Ok(LocalInstant { wall_clock, utc_offset: seconds })
            } else {
                Err(FatalError::NoLocalTime)
            }
        },
        None => Err(FatalError::NoLocalTime),
    }
}

/// Places a valid wall-clock reading in the machine's local time zone: asks
/// the zone with `zone_query`, and joins the answer to the reading with
/// `resolve_local`.
pub fn localize(wall_clock: WallClock) -> (r: Result<LocalInstant, FatalError>)
    requires
        wall_clock.is_valid(),
    ensures
        match r {
            Ok(t) => t.wall_clock == wall_clock && t.is_valid(),
            Err(e) => e == FatalError::NoLocalTime,
        },
{
    let query = zone_query(wall_clock);
    let offset = earliest_local_offset(&query);
    resolve_local(wall_clock, offset)
}

/// Reads the timestamp of a log line, written as `YYYY.MM.DD HH:MM:SS`, as an
/// instant of local time.
///
/// Text that writes no valid wall-clock reading is refused. For text that
/// writes one, the time zone decides: the result carries that very reading, so
/// that writing it out again gives the text back, unless the zone skips it.
pub fn parse_timestamp(timestamp: &str) -> (r: Result<LocalInstant, FatalError>)
    ensures
        !is_timestamp(timestamp@) ==> r == Err::<LocalInstant, FatalError>(
            FatalError::MalformedTimestamp,
        ),
        is_timestamp(timestamp@) ==> match r {
            Ok(t) => Some(t.wall_clock) == wall_clock_of(timestamp@) && t.is_valid(),
            Err(e) => e == FatalError::NoLocalTime,
        },
        r matches Ok(t) ==> wall_clock_text(t.wall_clock) == timestamp@,
{
    let text = to_chars(timestamp);
    parse_timestamp_chars(text.as_slice())
}

/// `parse_timestamp` on text that is already split into characters.
pub fn parse_timestamp_chars(text: &[char]) -> (r: Result<LocalInstant, FatalError>)
    ensures
        !is_timestamp(text@) ==> r == Err::<LocalInstant, FatalError>(
            FatalError::MalformedTimestamp,
        ),
        is_timestamp(text@) ==> match r {
            Ok(t) => Some(t.wall_clock) == wall_clock_of(text@) && t.is_valid(),
            Err(e) => e == FatalError::NoLocalTime,
        },
        r matches Ok(t) ==> wall_clock_text(t.wall_clock) == text@,
{
    match parse_wall_clock(text) {
        Some(wall_clock) => localize(wall_clock),
        None => Err(FatalError::MalformedTimestamp),
    }
}

} // verus!
