//! Points in time as logs write them.

use crate::pattern::{capture, group_value, pattern_captures, Captures};
use crate::text::{
    all_digits, char_is_digit, chars_of, decimal, digits_value, find, is_digit, is_space,
    lemma_span_end_is, lemma_span_is, numbers_read_as_they_are_written, opt_str, opt_text,
    parse_u64, read_u64, reads_at, run_before, run_from, space, span, span_end, text_contains,
    the_first_place_is_found, trim, trim_end_by, trim_end_with, trim_start_by, trim_start_with,
    trimmed,
};
use chrono::{Datelike, Timelike};
use vstd::prelude::*;

verus! {

/// A calendar date and a time of day, without a zone. `nanos` reaches past a second only in a
/// leap second.
#[derive(Debug, Clone, Copy, PartialEq, Eq, Structural)]
pub struct Timestamp {
    pub year: i32,
    pub month: u32,
    pub day: u32,
    pub hour: u32,
    pub minute: u32,
    pub second: u32,
    pub nanos: u32,
}

/// The parts of a timestamp, year first.
pub type Parts = (i32, u32, u32, u32, u32, u32, u32);

impl View for Timestamp {
    type V = Parts;

    open spec fn view(&self) -> Parts {
        (self.year, self.month, self.day, self.hour, self.minute, self.second, self.nanos)
    }
}

pub open spec fn opt_stamp(t: Option<Timestamp>) -> Option<Parts> {
    match t {
        Some(t) => Some(t@),
        None => None,
    }
}

/// Earlier in time.
pub open spec fn stamp_less(a: Parts, b: Parts) -> bool {
    if a.0 != b.0 {
        a.0 < b.0
    } else if a.1 != b.1 {
        a.1 < b.1
    } else if a.2 != b.2 {
        a.2 < b.2
    } else if a.3 != b.3 {
        a.3 < b.3
    } else if a.4 != b.4 {
        a.4 < b.4
    } else if a.5 != b.5 {
        a.5 < b.5
    } else {
        a.6 < b.6
    }
}

impl Timestamp {
    /// Before every time a log can name.
    pub fn earliest() -> (r: Timestamp)
        ensures
            r@ == earliest_parts(),
    {
        Timestamp { year: -262143, month: 1, day: 1, hour: 0, minute: 0, second: 0, nanos: 0 }
    }

    /// Whether this time is earlier than `other`.
    pub fn before(&self, other: &Timestamp) -> (r: bool)
        ensures
            r == stamp_less(self@, other@),
    {
        if self.year != other.year {
            self.year < other.year
        } else if self.month != other.month {
            self.month < other.month
        } else if self.day != other.day {
            self.day < other.day
        } else if self.hour != other.hour {
            self.hour < other.hour
        } else if self.minute != other.minute {
            self.minute < other.minute
        } else if self.second != other.second {
            self.second < other.second
        } else {
            self.nanos < other.nanos
        }
    }
}

/// The first instant that `NaiveDateTime` can hold.
pub open spec fn earliest_parts() -> Parts {
    (-262143i32, 1u32, 1u32, 0u32, 0u32, 0u32, 0u32)
}

// ---------------------------------------------------------------------------
// The calendar
// ---------------------------------------------------------------------------

pub open spec fn is_leap_year(year: int) -> bool {
    year % 4 == 0 && (year % 100 != 0 || year % 400 == 0)
}

pub open spec fn days_in_month(year: int, month: int) -> int {
    if month == 2 {
        if is_leap_year(year) {
            29
        } else {
            28
        }
    } else if month == 4 || month == 6 || month == 9 || month == 11 {
        30
    } else {
        31
    }
}

pub open spec fn is_date(year: int, month: int, day: int) -> bool {
    -262143 <= year <= 262142 && 1 <= month <= 12 && 1 <= day <= days_in_month(year, month)
}

pub open spec fn is_clock(hour: int, minute: int, second: int, nanos: int) -> bool {
    0 <= hour < 24 && 0 <= minute < 60 && 0 <= second < 60 && 0 <= nanos < 2_000_000_000 && (nanos
        >= 1_000_000_000 ==> second == 59)
}

/// Seven numbers, where they are a day of the calendar and a time of day.
pub open spec fn valid_parts(p: Parts) -> Option<Parts> {
    if is_date(p.0 as int, p.1 as int, p.2 as int) && is_clock(
        p.3 as int,
        p.4 as int,
        p.5 as int,
        p.6 as int,
    ) {
        Some(p)
    } else {
        None
    }
}

/// `NaiveDate::from_ymd_opt` and `NaiveDate::and_hms_nano_opt`: the same seven numbers where
/// they are a day of the calendar and a time of day, nothing otherwise.
#[verifier::external_body]
pub(crate) fn calendar_time(
    year: i32,
    month: u32,
    day: u32,
    hour: u32,
    minute: u32,
    second: u32,
    nanos: u32,
) -> (r: Option<Timestamp>)
    ensures
        opt_stamp(r) == valid_parts((year, month, day, hour, minute, second, nanos)),
{
    let date = chrono::NaiveDate::from_ymd_opt(year, month, day)?;
    let t = date.and_hms_nano_opt(hour, minute, second, nanos)?;
    Some(Timestamp {
        year: t.year(),
        month: t.month(),
        day: t.day(),
        hour: t.hour(),
        minute: t.minute(),
        second: t.second(),
        nanos: t.nanosecond(),
    })
}

/// The name of what `NaiveDateTime::parse_from_str` reads from a text under a format.
pub uninterp spec fn parsed_datetime(text: Seq<char>, format: Seq<char>) -> Option<Parts>;

/// `NaiveDateTime::parse_from_str`; a text that does not parse gives nothing.
#[verifier::external_body]
pub(crate) fn read_datetime(text: &str, format: &str) -> (r: Option<Timestamp>)
    ensures
        opt_stamp(r) == parsed_datetime(text@, format@),
{
    let t = chrono::NaiveDateTime::parse_from_str(text, format).ok()?;
    Some(Timestamp {
        year: t.year(),
        month: t.month(),
        day: t.day(),
        hour: t.hour(),
        minute: t.minute(),
        second: t.second(),
        nanos: t.nanosecond(),
    })
}

/// The name of what `NaiveDate::parse_from_str` reads from a text under a format.
pub uninterp spec fn parsed_date(text: Seq<char>, format: Seq<char>) -> Option<(i32, u32, u32)>;

/// `NaiveDate::parse_from_str`: year, month and day.
#[verifier::external_body]
pub(crate) fn read_date(text: &str, format: &str) -> (r: Option<(i32, u32, u32)>)
    ensures
        r == parsed_date(text@, format@),
{
    let d = chrono::NaiveDate::parse_from_str(text, format).ok()?;
    Some((d.year(), d.month(), d.day()))
}

/// The name of what `NaiveTime::parse_from_str` reads from a text under a format.
pub uninterp spec fn parsed_time(text: Seq<char>, format: Seq<char>) -> Option<
    (u32, u32, u32, u32),
>;

/// `NaiveTime::parse_from_str`: hour, minute, second and nanosecond.
#[verifier::external_body]
pub(crate) fn read_time(text: &str, format: &str) -> (r: Option<(u32, u32, u32, u32)>)
    ensures
        r == parsed_time(text@, format@),
{
    let t = chrono::NaiveTime::parse_from_str(text, format).ok()?;
    Some((t.hour(), t.minute(), t.second(), t.nanosecond()))
}

// ---------------------------------------------------------------------------
// Under a schema's own format
// ---------------------------------------------------------------------------

pub open spec fn not_point() -> spec_fn(char) -> bool {
    |c: char| c != '.' && c != ','
}

pub open spec fn digit() -> spec_fn(char) -> bool {
    |c: char| is_digit(c)
}

/// `n` zeros.
pub open spec fn zeros(n: int) -> Seq<char> {
    Seq::new((if n < 0 { 0 } else { n }) as nat, |i: int| '0')
}

/// `raw` with the fraction behind its last point written out to nanoseconds, where that
/// fraction has one to six digits.
pub open spec fn widened_fraction(raw: Seq<char>) -> Option<Seq<char>> {
    let behind = span_end(raw, not_point());
    let start = raw.len() - behind;
    let digits = span(raw.skip(start), digit()) as int;
    if behind >= raw.len() || digits == 0 || digits > 6 {
        None
    } else {
        Some(raw.take(start + digits) + zeros(6 - digits) + "000"@ + raw.skip(start + digits))
    }
}

/// What a schema's format reads: with the fraction widened where it has one, else as written.
pub open spec fn formatted_time(raw: Seq<char>, format: Seq<char>) -> Option<Parts> {
    let text = trimmed(raw);
    let widened = widened_fraction(text);
    if find(format, "%f"@) is Some && widened is Some && parsed_datetime(
        widened->0,
        format,
    ) is Some {
        parsed_datetime(widened->0, format)
    } else {
        parsed_datetime(text, format)
    }
}

fn push_zeros(out: &mut String, n: usize)
    ensures
        final(out)@ == old(out)@ + zeros(n as int),
{
    let ghost before = out@;
    assert(before + zeros(0) == before);
    for i in 0..n
        invariant
            before == old(out)@,
            out@ == before + zeros(i as int),
    {
        out.push('0');
        assert(before + zeros(i + 1) == (before + zeros(i as int)).push('0'));
    }
}

/// The text with the fraction behind its last point written out to nanoseconds, where that
/// fraction has one to six digits.
pub fn normalize_python_fraction(raw: &str) -> (r: Option<String>)
    ensures
        opt_text(r) == widened_fraction(raw@),
{
    let chars = chars_of(raw);
    let total: usize = chars.len();
    let plain = |c: char| -> (b: bool)
        ensures
            b == (c != '.' && c != ','),
        { c != '.' && c != ',' };
    let behind: usize = run_before(chars.as_slice(), total, plain, Ghost(not_point()));
    assert(raw@.take(total as int) == raw@);
    if behind >= total {
        return None;
    }
    let start: usize = total - behind;
    let is_number = |c: char| -> (b: bool)
        ensures
            b == is_digit(c),
        { char_is_digit(c) };
    let digits: usize = run_from(chars.as_slice(), start, is_number, Ghost(digit()));
    if digits == 0 || digits > 6 {
        return None;
    }
    let head = raw.substring_char(0, start + digits);
    let tail = raw.substring_char(start + digits, total);
    assert(head@ == raw@.take(start + digits));
    assert(tail@ == raw@.skip(start + digits));
    let mut out = head.to_string();
    push_zeros(&mut out, 6 - digits);
    out.append("000");
    out.append(tail);
    Some(out)
}

/// The time that `raw` names under `fmt`. A fraction is read as a fraction of a second, to
/// whatever precision it is written.
pub fn parse_timestamp_with_format(raw: &str, fmt: &str) -> (r: Option<Timestamp>)
    ensures
        opt_stamp(r) == formatted_time(raw@, fmt@),
{
    let text = trim(raw);
    if text_contains(fmt, "%f") {
        if let Some(normalized) = normalize_python_fraction(text) {
            if let Some(parsed) = read_datetime(normalized.as_str(), fmt) {
                return Some(parsed);
            }
        }
    }
    read_datetime(text, fmt)
}

// ---------------------------------------------------------------------------
// Without a schema
// ---------------------------------------------------------------------------

/// A number of at most 32 bits.
pub open spec fn read_u32(s: Seq<char>) -> Option<u32> {
    match read_u64(s) {
        Some(n) => if n <= u32::MAX {
            Some(n as u32)
        } else {
            None
        },
        None => None,
    }
}

fn parse_u32(s: &str) -> (r: Option<u32>)
    ensures
        r == read_u32(s@),
{
    match parse_u64(s) {
        Some(n) => if n <= u32::MAX as u64 {
            Some(n as u32)
        } else {
            None
        },
        None => None,
    }
}

/// The digits of a fraction of a second as nanoseconds.
pub open spec fn fraction_nanos(fraction: Option<Seq<char>>) -> Option<u32> {
    match fraction {
        Some(digits) => read_u32(digits + zeros(9 - digits.len())),
        None => Some(0u32),
    }
}

/// The time that seven written numbers name, where they name one.
pub open spec fn written_time(
    year: Seq<char>,
    month: Seq<char>,
    day: Seq<char>,
    hour: Seq<char>,
    minute: Seq<char>,
    second: Seq<char>,
    fraction: Option<Seq<char>>,
) -> Option<Parts> {
    if read_u32(year) is Some && read_u32(month) is Some && read_u32(day) is Some && read_u32(
        hour,
    ) is Some && read_u32(minute) is Some && read_u32(second) is Some && fraction_nanos(
        fraction,
    ) is Some && is_date(
        read_u32(year)->0 as int,
        read_u32(month)->0 as int,
        read_u32(day)->0 as int,
    ) && is_clock(
        read_u32(hour)->0 as int,
        read_u32(minute)->0 as int,
        read_u32(second)->0 as int,
        fraction_nanos(fraction)->0 as int,
    ) {
        Some(
            (
                read_u32(year)->0 as i32,
                read_u32(month)->0,
                read_u32(day)->0,
                read_u32(hour)->0,
                read_u32(minute)->0,
                read_u32(second)->0,
                fraction_nanos(fraction)->0,
            ),
        )
    } else {
        None
    }
}

/// The time named by the written parts of an ISO-8601 timestamp; a fraction is written to
/// whatever precision the writer felt like.
pub fn time_from_parts(
    year: &str,
    month: &str,
    day: &str,
    hour: &str,
    minute: &str,
    second: &str,
    fraction: Option<&str>,
) -> (r: Option<Timestamp>)
    ensures
        opt_stamp(r) == written_time(
            year@,
            month@,
            day@,
            hour@,
            minute@,
            second@,
            opt_str(fraction),
        ),
{
    let (y, mo, d) = match (parse_u32(year), parse_u32(month), parse_u32(day)) {
        (Some(y), Some(mo), Some(d)) => (y, mo, d),
        _ => {
            return None;
        },
    };
    let (h, mi, s) = match (parse_u32(hour), parse_u32(minute), parse_u32(second)) {
        (Some(h), Some(mi), Some(s)) => (h, mi, s),
        _ => {
            return None;
        },
    };
    let nanos: u32 = match fraction {
        Some(digits) => {
            let len: usize = digits.unicode_len();
            let mut padded = digits.to_string();
            if len < 9 {
                push_zeros(&mut padded, 9 - len);
            } else {
                assert(digits@ + zeros(9 - digits@.len()) == digits@);
            }
            match parse_u32(padded.as_str()) {
                Some(n) => n,
                None => {
                    return None;
                },
            }
        },
        None => 0,
    };
    if y > 262142 {
        return None;
    }
    calendar_time(y as i32, mo, d, h, mi, s, nanos)
}

/// The shape of a timestamp at the head of a line.
pub const SNIFFER: &'static str =
    "^[\\s\\[]*(?P<year>\\d{4})[-/](?P<month>\\d{1,2})[-/](?P<day>\\d{1,2})[T ](?P<hour>\\d{1,2}):(?P<minute>\\d{2}):(?P<second>\\d{2})(?:[.,](?P<fraction>\\d{1,9}))?";

/// The time that the groups of a sniffed head name.
pub open spec fn groups_time(groups: Seq<(Seq<char>, Option<Seq<char>>)>) -> Option<Parts> {
    let year = group_value(groups, "year"@);
    let month = group_value(groups, "month"@);
    let day = group_value(groups, "day"@);
    let hour = group_value(groups, "hour"@);
    let minute = group_value(groups, "minute"@);
    let second = group_value(groups, "second"@);
    if year is Some && month is Some && day is Some && hour is Some && minute is Some
        && second is Some {
        written_time(
            year->0,
            month->0,
            day->0,
            hour->0,
            minute->0,
            second->0,
            group_value(groups, "fraction"@),
        )
    } else {
        None
    }
}

/// The time at the head of a line, by its shape alone.
pub open spec fn sniffed_time(line: Seq<char>) -> Option<Parts> {
    match pattern_captures(SNIFFER@, line) {
        Some(found) => groups_time(found.0),
        None => None,
    }
}

/// A timestamp at the head of a line, read without help from a schema.
///
/// Only the ISO-8601 family is recognised, because a wrong timestamp reorders a merge more
/// damagingly than a missing one.
pub fn sniff_timestamp(line: &str) -> (r: Option<Timestamp>)
    ensures
        opt_stamp(r) == sniffed_time(line@),
{
    match capture(SNIFFER, line) {
        Some(found) => time_in_groups(&found),
        None => None,
    }
}

/// The time that the groups of a sniffed head name.
pub fn time_in_groups(found: &Captures) -> (r: Option<Timestamp>)
    ensures
        opt_stamp(r) == groups_time(found@.0),
{
    let fraction: Option<&str> = match found.get("fraction") {
        Some(s) => Some(s.as_str()),
        None => None,
    };
    match (
        (found.get("year"), found.get("month"), found.get("day")),
        (found.get("hour"), found.get("minute"), found.get("second")),
    ) {
        ((Some(y), Some(mo), Some(d)), (Some(h), Some(mi), Some(s))) => time_from_parts(
            y.as_str(),
            mo.as_str(),
            d.as_str(),
            h.as_str(),
            mi.as_str(),
            s.as_str(),
            fraction,
        ),
        _ => None,
    }
}

// ---------------------------------------------------------------------------
// As a user types it
// ---------------------------------------------------------------------------

pub open spec fn quote_mark() -> spec_fn(char) -> bool {
    |c: char| c == '\'' || c == '"'
}

/// A typed time without quotes, with a space where a `T` or an underscore stood.
pub open spec fn plain_time(text: Seq<char>) -> Seq<char> {
    trim_end_by(trim_start_by(trimmed(text), quote_mark()), quote_mark()).map_values(
        |c: char|
            if c == 'T' || c == '_' {
                ' '
            } else {
                c
            },
    )
}

/// A date at midnight.
pub open spec fn midnight(date: (i32, u32, u32)) -> Parts {
    (date.0, date.1, date.2, 0u32, 0u32, 0u32, 0u32)
}

/// A time of day on the day that stands for "no date given".
pub open spec fn dateless(time: (u32, u32, u32, u32)) -> Parts {
    (1900i32, 1u32, 1u32, time.0, time.1, time.2, time.3)
}

/// The time that a typed text names: the first of the accepted forms that reads it.
pub open spec fn typed_time(text: Seq<char>) -> Option<Parts> {
    let t = plain_time(text);
    if t.len() == 0 {
        None
    } else if formatted_time(t, "%Y-%m-%d %H:%M:%S.%f"@) is Some {
        formatted_time(t, "%Y-%m-%d %H:%M:%S.%f"@)
    } else if parsed_datetime(t, "%Y-%m-%d %H:%M:%S.%f"@) is Some {
        parsed_datetime(t, "%Y-%m-%d %H:%M:%S.%f"@)
    } else if parsed_datetime(t, "%Y-%m-%d %H:%M:%S"@) is Some {
        parsed_datetime(t, "%Y-%m-%d %H:%M:%S"@)
    } else if parsed_datetime(t, "%Y-%m-%d %H:%M"@) is Some {
        parsed_datetime(t, "%Y-%m-%d %H:%M"@)
    } else if parsed_datetime(t, "%Y-%m-%d %H"@) is Some {
        parsed_datetime(t, "%Y-%m-%d %H"@)
    } else if parsed_datetime(t, "%Y/%m/%d %H:%M:%S"@) is Some {
        parsed_datetime(t, "%Y/%m/%d %H:%M:%S"@)
    } else if parsed_date(t, "%Y-%m-%d"@) is Some {
        Some(midnight(parsed_date(t, "%Y-%m-%d"@)->0))
    } else if parsed_date(t, "%Y/%m/%d"@) is Some {
        Some(midnight(parsed_date(t, "%Y/%m/%d"@)->0))
    } else if parsed_time(t, "%H:%M:%S.%f"@) is Some {
        Some(dateless(parsed_time(t, "%H:%M:%S.%f"@)->0))
    } else if parsed_time(t, "%H:%M:%S"@) is Some {
        Some(dateless(parsed_time(t, "%H:%M:%S"@)->0))
    } else if parsed_time(t, "%H:%M"@) is Some {
        Some(dateless(parsed_time(t, "%H:%M"@)->0))
    } else {
        None
    }
}

/// A typed time without quotes, with a space where a `T` or an underscore stood.
pub fn plain_time_text(text: &str) -> (r: String)
    ensures
        r@ == plain_time(text@),
{
    let is_quote = |c: char| -> (b: bool)
        ensures
            b == (c == '\'' || c == '"'),
        { c == '\'' || c == '"' };
    let start = trim_start_with(trim(text), is_quote, Ghost(quote_mark()));
    let bare = trim_end_with(start, is_quote, Ghost(quote_mark()));
    let chars = chars_of(bare);
    let mut out = String::new();
    for i in 0..chars.len()
        invariant
            chars@ == bare@,
            out@ == bare@.take(i as int).map_values(
                |c: char|
                    if c == 'T' || c == '_' {
                        ' '
                    } else {
                        c
                    },
            ),
    {
        let c = chars[i];
        assert(bare@.take(i + 1) == bare@.take(i as int).push(c));
        out.push(if c == 'T' || c == '_' { ' ' } else { c });
    }
    assert(bare@.take(bare@.len() as int) == bare@);
    out
}

/// A date at midnight.
pub fn at_midnight(date: (i32, u32, u32)) -> (r: Timestamp)
    ensures
        r@ == midnight(date),
{
    Timestamp {
        year: date.0,
        month: date.1,
        day: date.2,
        hour: 0,
        minute: 0,
        second: 0,
        nanos: 0,
    }
}

/// A time of day on the day that stands for "no date given".
pub fn without_date(time: (u32, u32, u32, u32)) -> (r: Timestamp)
    ensures
        r@ == dateless(time),
{
    Timestamp {
        year: 1900,
        month: 1,
        day: 1,
        hour: time.0,
        minute: time.1,
        second: time.2,
        nanos: time.3,
    }
}

/// The time that a typed text names, in any of the accepted forms.
pub fn parse_datetime(text: &str) -> (r: Option<Timestamp>)
    ensures
        opt_stamp(r) == typed_time(text@),
{
    let plain = plain_time_text(text);
    let t = plain.as_str();
    if t.unicode_len() == 0 {
        return None;
    }
    if let Some(dt) = parse_timestamp_with_format(t, "%Y-%m-%d %H:%M:%S.%f") {
        return Some(dt);
    }
    if let Some(dt) = read_datetime(t, "%Y-%m-%d %H:%M:%S.%f") {
        return Some(dt);
    }
    if let Some(dt) = read_datetime(t, "%Y-%m-%d %H:%M:%S") {
        return Some(dt);
    }
    if let Some(dt) = read_datetime(t, "%Y-%m-%d %H:%M") {
        return Some(dt);
    }
    if let Some(dt) = read_datetime(t, "%Y-%m-%d %H") {
        return Some(dt);
    }
    if let Some(dt) = read_datetime(t, "%Y/%m/%d %H:%M:%S") {
        return Some(dt);
    }
    if let Some(date) = read_date(t, "%Y-%m-%d") {
        return Some(at_midnight(date));
    }
    if let Some(date) = read_date(t, "%Y/%m/%d") {
        return Some(at_midnight(date));
    }
    if let Some(time) = read_time(t, "%H:%M:%S.%f") {
        return Some(without_date(time));
    }
    if let Some(time) = read_time(t, "%H:%M:%S") {
        return Some(without_date(time));
    }
    if let Some(time) = read_time(t, "%H:%M") {
        return Some(without_date(time));
    }
    None
}

/// The order of times is a strict total order.
pub proof fn times_are_totally_ordered(a: Parts, b: Parts, c: Parts)
    ensures
        !stamp_less(a, a),
        stamp_less(a, b) && stamp_less(b, c) ==> stamp_less(a, c),
        a != b ==> stamp_less(a, b) || stamp_less(b, a),
{
}

/// The days from the first day of year 0 to the first day of `year`.
pub open spec fn days_to_year(year: int) -> int {
    365 * year + (year + 3) / 4 - (year + 99) / 100 + (year + 399) / 400
}

/// The days from the first day of `year` to the first day of `month`.
pub open spec fn days_to_month(year: int, month: int) -> int
    decreases month,
{
    if month <= 1 {
        0
    } else {
        days_to_month(year, month - 1) + days_in_month(year, month - 1)
    }
}

/// The nanoseconds from the start of year 0 to the instant that a time names.
pub open spec fn instant(p: Parts) -> int {
    let days = days_to_year(p.0 as int) + days_to_month(p.0 as int, p.1 as int) + p.2 - 1;
    (((days * 24 + p.3) * 60 + p.4) * 60 + p.5) * 1_000_000_000 + p.6
}

/// Whether a time is a day of the calendar and a time of that day, outside a leap second.
pub open spec fn is_instant(p: Parts) -> bool {
    valid_parts(p) is Some && p.6 < 1_000_000_000
}

proof fn lemma_ceiling(y: int, n: int)
    requires
        n == 4 || n == 100 || n == 400,
    ensures
        (y + 1 + n - 1) / n == (y + n - 1) / n + if y % n == 0 {
            1int
        } else {
            0int
        },
{
    if n == 4 {
        assert((y + 4) / 4 == (y + 3) / 4 + if y % 4 == 0 {
            1int
        } else {
            0int
        });
    } else if n == 100 {
        assert((y + 100) / 100 == (y + 99) / 100 + if y % 100 == 0 {
            1int
        } else {
            0int
        });
    } else {
        assert((y + 400) / 400 == (y + 399) / 400 + if y % 400 == 0 {
            1int
        } else {
            0int
        });
    }
}

proof fn lemma_year_step(y: int)
    ensures
        days_to_year(y + 1) == days_to_year(y) + 365 + if is_leap_year(y) {
            1int
        } else {
            0int
        },
{
    lemma_ceiling(y, 4);
    lemma_ceiling(y, 100);
    lemma_ceiling(y, 400);
    assert(y % 400 == 0 ==> y % 100 == 0);
    assert(y % 100 == 0 ==> y % 4 == 0);
}

proof fn lemma_last_month(y: int)
    ensures
        days_to_month(y, 12) == 334 + if is_leap_year(y) {
            1int
        } else {
            0int
        },
{
    reveal_with_fuel(days_to_month, 13);
}

proof fn lemma_year_lengths(a: int, b: int)
    requires
        a <= b,
    ensures
        days_to_year(a) <= days_to_year(b),
        a < b ==> days_to_year(a) + days_to_month(a, 12) + 31 <= days_to_year(b),
    decreases b - a,
{
    if a < b {
        lemma_year_lengths(a + 1, b);
        lemma_year_step(a);
        lemma_last_month(a);
    }
}

proof fn lemma_month_lengths(year: int, a: int, b: int)
    requires
        1 <= a <= b <= 12,
    ensures
        days_to_month(year, a) <= days_to_month(year, b),
        a < b ==> days_to_month(year, a) + days_in_month(year, a) <= days_to_month(year, b),
    decreases b - a,
{
    if a < b {
        lemma_month_lengths(year, a, b - 1);
    }
}

proof fn lemma_earlier(a: Parts, b: Parts)
    requires
        is_instant(a),
        is_instant(b),
        stamp_less(a, b),
    ensures
        instant(a) < instant(b),
{
    let da = days_to_year(a.0 as int) + days_to_month(a.0 as int, a.1 as int) + a.2 - 1;
    let db = days_to_year(b.0 as int) + days_to_month(b.0 as int, b.1 as int) + b.2 - 1;
    lemma_month_lengths(a.0 as int, a.1 as int, 12);
    lemma_month_lengths(b.0 as int, 1, b.1 as int);
    if a.0 < b.0 {
        lemma_year_lengths(a.0 as int, b.0 as int);
    } else if a.0 == b.0 && a.1 < b.1 {
        lemma_month_lengths(a.0 as int, a.1 as int, b.1 as int);
    }
    assert(da <= db);
    assert(a.0 != b.0 || a.1 != b.1 || a.2 != b.2 ==> da < db);
}

/// The order of times is the order of the instants that they name: of two times outside leap
/// seconds the one is earlier whose count of nanoseconds is the smaller, and the same instant is
/// the same time.
pub proof fn times_are_ordered_as_instants(a: Parts, b: Parts)
    requires
        is_instant(a),
        is_instant(b),
    ensures
        stamp_less(a, b) <==> instant(a) < instant(b),
        a == b <==> instant(a) == instant(b),
{
    times_are_totally_ordered(a, b, a);
    if stamp_less(a, b) {
        lemma_earlier(a, b);
    } else if stamp_less(b, a) {
        lemma_earlier(b, a);
    }
}

/// No time comes before the earliest.
pub proof fn the_earliest_time_comes_first(p: Parts)
    requires
        is_instant(p),
    ensures
        is_instant(earliest_parts()),
        instant(earliest_parts()) <= instant(p),
{
    times_are_ordered_as_instants(earliest_parts(), p);
    times_are_ordered_as_instants(p, earliest_parts());
}

/// Ten to the power of `n`.
pub open spec fn ten_to(n: nat) -> nat
    decreases n,
{
    if n == 0 {
        1
    } else {
        10 * ten_to((n - 1) as nat)
    }
}

proof fn lemma_zeros_scale(digits: Seq<char>, k: nat)
    ensures
        digits_value(digits + zeros(k as int)) == digits_value(digits) * ten_to(k),
    decreases k,
{
    if k == 0 {
        assert(digits + zeros(0) =~= digits);
        assert(digits_value(digits) * ten_to(0) == digits_value(digits)) by (nonlinear_arith)
            requires
                ten_to(0) == 1,
        ;
    } else {
        let less = (k - 1) as nat;
        lemma_zeros_scale(digits, less);
        let all = digits + zeros(k as int);
        assert(all.drop_last() =~= digits + zeros(less as int));
        assert(all.last() == '0');
        assert(digits_value(all) == digits_value(all.drop_last()) * 10);
        let v = digits_value(digits);
        let t = ten_to(less);
        assert((v * t) * 10 == v * (10 * t)) by (nonlinear_arith);
    }
}

proof fn lemma_digits_bound(digits: Seq<char>)
    requires
        all_digits(digits),
    ensures
        digits_value(digits) < ten_to(digits.len()),
    decreases digits.len(),
{
    if digits.len() > 0 {
        let head = digits.drop_last();
        assert forall|i: int| 0 <= i < head.len() implies is_digit(#[trigger] head[i]) by {
            assert(head[i] == digits[i]);
        }
        lemma_digits_bound(head);
        assert(is_digit(digits[digits.len() - 1]));
    }
}

/// The digits of a fraction count tenths, hundredths and so on of a second: `n` of them are so
/// many parts of which ten to the power of `n` make a second.
pub proof fn a_fraction_is_a_part_of_a_second(digits: Seq<char>)
    requires
        1 <= digits.len() <= 9,
        all_digits(digits),
    ensures
        fraction_nanos(Some(digits)) is Some,
        fraction_nanos(Some(digits))->0 == digits_value(digits) * ten_to(
            (9 - digits.len()) as nat,
        ),
        fraction_nanos(Some(digits))->0 < 1_000_000_000,
        fraction_nanos(None) == Some(0u32),
{
    let k = (9 - digits.len()) as nat;
    let all = digits + zeros(k as int);
    lemma_zeros_scale(digits, k);
    assert forall|i: int| 0 <= i < all.len() implies is_digit(#[trigger] all[i]) by {
        if i < digits.len() {
            assert(all[i] == digits[i]);
        }
    }
    lemma_digits_bound(all);
    assert(ten_to(9) == 1_000_000_000) by {
        reveal_with_fuel(ten_to, 10);
    }
}

/// The time of a written date and clock is the numbers as they are written, where there is such
/// a day and such a time of day; where there is not, it is none.
pub proof fn a_written_time_is_its_numbers(p: Parts)
    requires
        p.0 >= 0,
        p.6 == 0,
    ensures
        written_time(
            decimal(p.0 as nat),
            decimal(p.1 as nat),
            decimal(p.2 as nat),
            decimal(p.3 as nat),
            decimal(p.4 as nat),
            decimal(p.5 as nat),
            None,
        ) == if p.0 <= 262142 && 1 <= p.1 <= 12 && 1 <= p.2 <= days_in_month(
            p.0 as int,
            p.1 as int,
        ) && p.3 < 24 && p.4 < 60 && p.5 < 60 {
            Some(p)
        } else {
            None
        },
{
    numbers_read_as_they_are_written(p.0 as nat);
    numbers_read_as_they_are_written(p.1 as nat);
    numbers_read_as_they_are_written(p.2 as nat);
    numbers_read_as_they_are_written(p.3 as nat);
    numbers_read_as_they_are_written(p.4 as nat);
    numbers_read_as_they_are_written(p.5 as nat);
}

/// The months of a year have the days that make up the year, and every fourth year has one more,
/// but for the hundredth, unless it is the four-hundredth.
pub proof fn the_months_make_up_the_year(year: int)
    ensures
        days_in_month(year, 1) + days_in_month(year, 2) + days_in_month(year, 3) + days_in_month(
            year,
            4,
        ) + days_in_month(year, 5) + days_in_month(year, 6) + days_in_month(year, 7)
            + days_in_month(year, 8) + days_in_month(year, 9) + days_in_month(year, 10)
            + days_in_month(year, 11) + days_in_month(year, 12) == 365 + if year % 400 == 0 || (year
            % 4 == 0 && year % 100 != 0) {
            1int
        } else {
            0int
        },
{
}

/// A fraction of one to six digits behind the last point is filled up with zeros to nine, and
/// nothing else of the text changes.
pub proof fn a_short_fraction_is_filled_up(head: Seq<char>, digits: Seq<char>, tail: Seq<char>)
    requires
        head.len() > 0,
        head.last() == '.' || head.last() == ',',
        1 <= digits.len() <= 6,
        all_digits(digits),
        forall|i: int| 0 <= i < tail.len() ==> #[trigger] tail[i] != '.' && tail[i] != ',',
        tail.len() > 0 ==> !is_digit(tail[0]),
    ensures
        ({
            let filled = widened_fraction(head + digits + tail);
            let fraction = filled->0.subrange(head.len() as int, head.len() as int + 9);
            &&& filled is Some
            &&& filled->0 == head + fraction + tail
            &&& fraction.len() == 9
            &&& fraction.take(digits.len() as int) == digits
            &&& forall|i: int| digits.len() <= i < 9 ==> #[trigger] fraction[i] == '0'
        }),
{
    reveal_strlit("000");
    let raw = head + digits + tail;
    let behind = (digits.len() + tail.len()) as nat;
    let start = head.len() as int;
    assert forall|i: int| raw.len() - behind <= i < raw.len() implies not_point()(
        #[trigger] raw[i],
    ) by {
        if i < start + digits.len() {
            assert(raw[i] == digits[i - start]);
            assert(is_digit(digits[i - start]));
        } else {
            assert(raw[i] == tail[i - start - digits.len()]);
        }
    }
    assert(raw[start - 1] == head.last());
    lemma_span_end_is(raw, not_point(), behind);
    let rest = raw.skip(start);
    assert forall|i: int| 0 <= i < digits.len() implies digit()(#[trigger] rest[i]) by {
        assert(rest[i] == digits[i]);
        assert(is_digit(digits[i]));
    }
    if tail.len() > 0 {
        assert(rest[digits.len() as int] == tail[0]);
    }
    lemma_span_is(rest, digit(), digits.len());
    let n = digits.len() as int;
    let fraction = digits + zeros(6 - n) + "000"@;
    let filled = raw.take(start + n) + zeros(6 - n) + "000"@ + raw.skip(start + n);
    assert(widened_fraction(raw) == Some(filled));
    assert(filled =~= head + fraction + tail);
    assert(filled.subrange(start, start + 9) =~= fraction);
    assert(fraction.take(n) =~= digits);
}

proof fn lemma_bare(text: Seq<char>)
    requires
        text.len() > 0,
        !is_space(text[0]) && !quote_mark()(text[0]),
        !is_space(text.last()) && !quote_mark()(text.last()),
    ensures
        trim_end_by(trim_start_by(trimmed(text), quote_mark()), quote_mark()) == text,
{
    lemma_span_is(text, space(), 0);
    assert(text.skip(0) =~= text);
    lemma_span_end_is(text, space(), 0);
    assert(trimmed(text) =~= text);
    lemma_span_is(text, quote_mark(), 0);
    lemma_span_end_is(text, quote_mark(), 0);
    assert(trim_end_by(text.skip(0), quote_mark()) =~= text);
}

/// Between the date and the clock of a typed time a `T`, an underscore and a space all say the
/// same; nothing else of the time is changed.
pub proof fn a_typed_time_may_have_a_space_a_t_or_an_underscore(date: Seq<char>, clock: Seq<char>)
    requires
        date.len() > 0,
        clock.len() > 0,
        forall|i: int| 0 <= i < date.len() ==> is_digit(#[trigger] date[i]) || date[i] == '-',
        forall|i: int| 0 <= i < clock.len() ==> is_digit(#[trigger] clock[i]) || clock[i] == ':',
    ensures
        plain_time(date + seq![' '] + clock) == date + seq![' '] + clock,
        plain_time(date + seq!['T'] + clock) == date + seq![' '] + clock,
        plain_time(date + seq!['_'] + clock) == date + seq![' '] + clock,
        typed_time(date + seq!['T'] + clock) == typed_time(date + seq![' '] + clock),
        typed_time(date + seq!['_'] + clock) == typed_time(date + seq![' '] + clock),
{
    lemma_plain(date, ' ', clock);
    lemma_plain(date, 'T', clock);
    lemma_plain(date, '_', clock);
}

proof fn lemma_plain(date: Seq<char>, between: char, clock: Seq<char>)
    requires
        between == ' ' || between == 'T' || between == '_',
        date.len() > 0,
        clock.len() > 0,
        forall|i: int| 0 <= i < date.len() ==> is_digit(#[trigger] date[i]) || date[i] == '-',
        forall|i: int| 0 <= i < clock.len() ==> is_digit(#[trigger] clock[i]) || clock[i] == ':',
    ensures
        plain_time(date + seq![between] + clock) == date + seq![' '] + clock,
{
    let s = date + seq![between] + clock;
    assert(s[0] == date[0]);
    assert(is_digit(date[0]) || date[0] == '-');
    assert(s.last() == clock[clock.len() - 1]);
    assert(is_digit(clock[clock.len() - 1]) || clock[clock.len() - 1] == ':');
    lemma_bare(s);
    let want = date + seq![' '] + clock;
    assert forall|i: int| 0 <= i < s.len() implies plain_time(s)[i] == #[trigger] want[i] by {
        if i < date.len() {
            assert(s[i] == date[i]);
        } else if i > date.len() {
            assert(s[i] == clock[i - date.len() - 1]);
        }
    }
    assert(plain_time(s) =~= want);
}

/// A format without a fraction reads the text as it is, but for the blanks around it.
pub proof fn a_format_without_a_fraction_reads_the_text(raw: Seq<char>, format: Seq<char>)
    requires
        forall|k: int| !#[trigger] reads_at(format, "%f"@, k),
    ensures
        formatted_time(raw, format) == parsed_datetime(trimmed(raw), format),
{
    the_first_place_is_found(format, "%f"@);
}

/// Whether a text reads as a date and a clock in one of the accepted forms.
pub open spec fn reads_as_both(t: Seq<char>) -> bool {
    ||| formatted_time(t, "%Y-%m-%d %H:%M:%S.%f"@) is Some
    ||| parsed_datetime(t, "%Y-%m-%d %H:%M:%S.%f"@) is Some
    ||| parsed_datetime(t, "%Y-%m-%d %H:%M:%S"@) is Some
    ||| parsed_datetime(t, "%Y-%m-%d %H:%M"@) is Some
    ||| parsed_datetime(t, "%Y-%m-%d %H"@) is Some
    ||| parsed_datetime(t, "%Y/%m/%d %H:%M:%S"@) is Some
}

/// What a typed time leaves out is filled in: a date alone is its midnight, and a clock alone is
/// on the first day of 1900. A text that reads as none of the forms names no time.
pub proof fn what_a_typed_time_leaves_out_is_filled_in(text: Seq<char>)
    requires
        plain_time(text).len() > 0,
        !reads_as_both(plain_time(text)),
    ensures
        ({
            let t = plain_time(text);
            let dashed = parsed_date(t, "%Y-%m-%d"@);
            let slashed = parsed_date(t, "%Y/%m/%d"@);
            let clock = parsed_time(t, "%H:%M"@);
            &&& dashed is Some ==> typed_time(text) == Some(
                ((dashed->0).0, (dashed->0).1, (dashed->0).2, 0u32, 0u32, 0u32, 0u32),
            )
            &&& dashed is None && slashed is Some ==> typed_time(text) == Some(
                ((slashed->0).0, (slashed->0).1, (slashed->0).2, 0u32, 0u32, 0u32, 0u32),
            )
            &&& dashed is None && slashed is None && parsed_time(t, "%H:%M:%S.%f"@) is None
                && parsed_time(t, "%H:%M:%S"@) is None ==> typed_time(text) == match clock {
                Some(c) => Some((1900i32, 1u32, 1u32, c.0, c.1, c.2, c.3)),
                None => None,
            }
        }),
{
}

} // verus!
