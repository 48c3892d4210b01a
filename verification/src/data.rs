//! Row loading, with the input timezone declared rather than guessed.

use std::collections::HashMap;

use chrono::{DateTime, Datelike, NaiveDate, NaiveDateTime, TimeZone, Timelike};
use chrono_tz::US::Eastern;
use vstd::prelude::*;

use crate::session::date_exists;
use crate::text::{
    begins_with, chars_of, ends_with, lowercase, pieces, same_text, split, to_lower, to_upper, trim,
    trim_end_char, trimmed, uppercase, views, without_trailing,
};
use crate::types::{Bar, DayMeta};

verus! {

// ---------------------------------------------------------------------------
// Declared timezone
// ---------------------------------------------------------------------------

/// How to interpret the timestamps in the input files.
///
/// Reading offset-bearing timestamps as UTC displaces every bar by four or five
/// hours, and the displacement changes across daylight saving boundaries. Since
/// the file cannot be trusted to say which it is, the caller declares it and the
/// loader verifies.
#[derive(Clone, Copy, PartialEq, Eq, Debug, Structural)]
pub enum TzInput {
    /// Naive timestamps are UTC. An explicit offset must be `+00:00`.
    Utc,
    /// Timestamps carry an explicit offset, which is honoured.
    Offset,
    /// Naive timestamps are already US/Eastern wall-clock time.
    Eastern,
}

/// The timezone that a trimmed, lowercase word declares.
pub open spec fn tz_named(word: Seq<char>) -> Option<TzInput> {
    if word == "utc"@ {
        Some(TzInput::Utc)
    } else if word == "offset"@ {
        Some(TzInput::Offset)
    } else if word == "et"@ || word == "eastern"@ {
        Some(TzInput::Eastern)
    } else {
        None
    }
}

impl TzInput {
    /// The word that names the declaration.
    pub open spec fn word(self) -> Seq<char> {
        match self {
            TzInput::Utc => "utc"@,
            TzInput::Offset => "offset"@,
            TzInput::Eastern => "et"@,
        }
    }

    /// Read a declaration, which must be a known one.
    pub fn parse(s: &str) -> (r: Self)
        requires
            tz_named(lowercase(trimmed(s@))) is Some,
        ensures
            tz_named(lowercase(trimmed(s@))) == Some(r),
    {
        let word: String = to_lower(trim(s));
        if same_text(word.as_str(), "utc") {
            TzInput::Utc
        } else if same_text(word.as_str(), "offset") {
            TzInput::Offset
        } else {
            TzInput::Eastern
        }
    }

    /// Read a declaration, or `None` where it is none of utc, offset, et.
    pub fn try_parse(s: &str) -> (r: Option<Self>)
        ensures
            r == tz_named(lowercase(trimmed(s@))),
    {
        let word: String = to_lower(trim(s));
        if same_text(word.as_str(), "utc") || same_text(word.as_str(), "offset") || same_text(
            word.as_str(),
            "et",
        ) || same_text(word.as_str(), "eastern") {
            Some(TzInput::parse(s))
        } else {
            None
        }
    }

    pub fn as_str(&self) -> (r: &'static str)
        ensures
            r@ == self.word(),
    {
        match self {
            TzInput::Utc => "utc",
            TzInput::Offset => "offset",
            TzInput::Eastern => "et",
        }
    }
}

// ---------------------------------------------------------------------------
// Reading a timestamp
// ---------------------------------------------------------------------------

/// A date and a time of day.
#[derive(Clone, Copy, PartialEq, Eq, Debug, Structural)]
pub struct Civil {
    pub year: i32,
    pub month: u32,
    pub day: u32,
    pub hour: u32,
    pub minute: u32,
    pub second: u32,
}

impl Civil {
    /// Whether the date exists and the time is one of its day.
    pub open spec fn is_real(self) -> bool {
        &&& date_exists(self.year as int, self.month as int, self.day as int)
        &&& self.on_clock()
    }

    /// Whether the fields are those of a calendar and a clock.
    pub open spec fn on_clock(self) -> bool {
        &&& 1 <= self.month <= 12
        &&& 1 <= self.day <= 31
        &&& self.hour < 24
        &&& self.minute < 60
        &&& self.second < 60
    }
}

/// What `DateTime::parse_from_str` reads in a text under a format: the instant
/// in UTC to the second, and the offset from UTC in seconds.
pub uninterp spec fn offset_stamp(text: Seq<char>, format: Seq<char>) -> Option<(Civil, i32)>;

/// What `NaiveDateTime::parse_from_str` reads in a text under a format, to the
/// second.
pub uninterp spec fn naive_stamp(text: Seq<char>, format: Seq<char>) -> Option<Civil>;

/// What the clocks of US/Eastern show at an instant given in UTC, by the time
/// zone tables of `chrono_tz`.
pub uninterp spec fn eastern_of_utc(utc: Civil) -> Option<Civil>;

/// How often the clocks of US/Eastern show a wall-clock time.
#[derive(Clone, Copy, PartialEq, Eq, Debug, Structural)]
pub enum Showing {
    /// Once, as most times.
    Once,
    /// Twice: the autumn repeated hour.
    Twice,
    /// Never: the spring skipped hour.
    Never,
}

/// How often the clocks of US/Eastern show a wall-clock time, by the time zone
/// tables of `chrono_tz`.
pub uninterp spec fn eastern_showing(local: Civil) -> Option<Showing>;

/// `DateTime::parse_from_str`: the instant that the text names, in UTC to the
/// second, and its offset; `None` where the text does not fit the format. The
/// instant is one that exists.
#[verifier::external_body]
fn parse_offset_stamp(text: &str, format: &str) -> (r: Option<(Civil, i32)>)
    ensures
        r == offset_stamp(text@, format@),
        r matches Some(s) ==> s.0.is_real(),
{
    let dt = DateTime::parse_from_str(text, format).ok()?;
    let u = dt.naive_utc();
    let utc = Civil {
        year: u.year(),
        month: u.month(),
        day: u.day(),
        hour: u.hour(),
        minute: u.minute(),
        second: u.second(),
    };
    Some((utc, dt.offset().local_minus_utc()))
}

/// `NaiveDateTime::parse_from_str`: the date and time that the text names, to
/// the second; `None` where the text does not fit the format. The date and time
/// are ones that exist.
#[verifier::external_body]
fn parse_naive_stamp(text: &str, format: &str) -> (r: Option<Civil>)
    ensures
        r == naive_stamp(text@, format@),
        r matches Some(c) ==> c.is_real(),
{
    let u = NaiveDateTime::parse_from_str(text, format).ok()?;
    Some(
        Civil {
            year: u.year(),
            month: u.month(),
            day: u.day(),
            hour: u.hour(),
            minute: u.minute(),
            second: u.second(),
        },
    )
}

/// `TimeZone::from_utc_datetime` of `chrono_tz`'s US/Eastern: what the clocks
/// there show, for every date and time that exists.
#[verifier::external_body]
fn utc_to_eastern(utc: Civil) -> (r: Option<Civil>)
    ensures
        r == eastern_of_utc(utc),
        r is Some <==> utc.is_real(),
        r matches Some(c) ==> c.on_clock(),
{
    let date = NaiveDate::from_ymd_opt(utc.year, utc.month, utc.day)?;
    let et = Eastern.from_utc_datetime(&date.and_hms_opt(utc.hour, utc.minute, utc.second)?);
    Some(
        Civil {
            year: et.year(),
            month: et.month(),
            day: et.day(),
            hour: et.hour(),
            minute: et.minute(),
            second: et.second(),
        },
    )
}

/// `TimeZone::from_local_datetime` of `chrono_tz`'s US/Eastern: whether the
/// clocks there show a wall-clock time once, twice or never, for every date and
/// time that exists.
#[verifier::external_body]
fn local_in_eastern(local: Civil) -> (r: Option<Showing>)
    ensures
        r == eastern_showing(local),
        r is Some <==> local.is_real(),
{
    let date = NaiveDate::from_ymd_opt(local.year, local.month, local.day)?;
    let at = date.and_hms_opt(local.hour, local.minute, local.second)?;
    Some(
        match Eastern.from_local_datetime(&at) {
            chrono::LocalResult::Single(_) => Showing::Once,
            chrono::LocalResult::Ambiguous(_, _) => Showing::Twice,
            chrono::LocalResult::None => Showing::Never,
        },
    )
}

/// What a timestamp field holds.
#[derive(Clone, Copy, Debug, PartialEq, Eq, Structural)]
pub enum Stamp {
    /// An instant, with the offset it was written with in seconds.
    WithOffset(Civil, i32),
    /// A date and time without an offset.
    Naive(Civil),
    /// Neither.
    Unreadable,
}

/// The first of four readings that there is.
pub open spec fn first_of<A>(a: Option<A>, b: Option<A>, c: Option<A>, d: Option<A>) -> Option<A> {
    if a is Some {
        a
    } else if b is Some {
        b
    } else if c is Some {
        c
    } else {
        d
    }
}

/// The reading of a text under the formats with an offset.
pub open spec fn offset_reading(t: Seq<char>) -> Option<(Civil, i32)> {
    first_of(
        offset_stamp(t, "%Y-%m-%d %H:%M:%S%#z"@),
        offset_stamp(t, "%Y-%m-%dT%H:%M:%S%#z"@),
        offset_stamp(t, "%Y-%m-%d %H:%M:%S%.f%#z"@),
        offset_stamp(t, "%Y-%m-%dT%H:%M:%S%.f%#z"@),
    )
}

/// The reading of a text under the formats without an offset.
pub open spec fn naive_reading(t: Seq<char>) -> Option<Civil> {
    first_of(
        naive_stamp(t, "%Y-%m-%d %H:%M:%S"@),
        naive_stamp(t, "%Y-%m-%d %H:%M"@),
        naive_stamp(t, "%Y-%m-%dT%H:%M:%S"@),
        naive_stamp(t, "%Y-%m-%dT%H:%M"@),
    )
}

/// What a trimmed timestamp field holds. An explicit offset is unambiguous, so
/// it is looked for first, whatever the caller declared.
pub open spec fn stamp_in(t: Seq<char>) -> Stamp {
    match offset_reading(t) {
        Some((utc, offset)) => Stamp::WithOffset(utc, offset),
        None => match naive_reading(t) {
            Some(c) => Stamp::Naive(c),
            None => Stamp::Unreadable,
        },
    }
}

/// Read a timestamp field.
pub fn read_stamp(ts: &str) -> (r: Stamp)
    ensures
        r == stamp_in(trimmed(ts@)),
        r matches Stamp::WithOffset(utc, _) ==> utc.is_real(),
        r matches Stamp::Naive(c) ==> c.is_real(),
{
    let t: &str = trim(ts);
    let mut read: Option<(Civil, i32)> = parse_offset_stamp(t, "%Y-%m-%d %H:%M:%S%#z");
    if read.is_none() {
        read = parse_offset_stamp(t, "%Y-%m-%dT%H:%M:%S%#z");
    }
    if read.is_none() {
        read = parse_offset_stamp(t, "%Y-%m-%d %H:%M:%S%.f%#z");
    }
    if read.is_none() {
        read = parse_offset_stamp(t, "%Y-%m-%dT%H:%M:%S%.f%#z");
    }
    match read {
        Some((utc, offset)) => Stamp::WithOffset(utc, offset),
        None => {
            let mut plain: Option<Civil> = parse_naive_stamp(t, "%Y-%m-%d %H:%M:%S");
            if plain.is_none() {
                plain = parse_naive_stamp(t, "%Y-%m-%d %H:%M");
            }
            if plain.is_none() {
                plain = parse_naive_stamp(t, "%Y-%m-%dT%H:%M:%S");
            }
            if plain.is_none() {
                plain = parse_naive_stamp(t, "%Y-%m-%dT%H:%M");
            }
            match plain {
                Some(c) => Stamp::Naive(c),
                None => Stamp::Unreadable,
            }
        },
    }
}

/// How a timestamp becomes Eastern time.
#[derive(Clone, Copy, Debug, PartialEq, Eq, Structural)]
pub enum Conversion {
    /// From an instant in UTC.
    FromUtc(Civil),
    /// Taken literally as Eastern wall-clock time.
    FromLocal(Civil),
    /// Not at all: the field disagrees with the declaration, or is unreadable.
    Refuse,
}

/// How a timestamp becomes Eastern time under a declaration. A real offset under
/// a declaration of UTC is refused rather than silently shifting every bar.
pub open spec fn conversion_for(stamp: Stamp, tz: TzInput) -> Conversion {
    match stamp {
        Stamp::WithOffset(utc, offset) => if tz == TzInput::Utc && offset != 0 {
            Conversion::Refuse
        } else {
            Conversion::FromUtc(utc)
        },
        Stamp::Naive(c) => if tz == TzInput::Eastern {
            Conversion::FromLocal(c)
        } else {
            Conversion::FromUtc(c)
        },
        Stamp::Unreadable => Conversion::Refuse,
    }
}

/// Decide how a timestamp becomes Eastern time.
pub fn choose_conversion(stamp: Stamp, tz: TzInput) -> (r: Conversion)
    ensures
        r == conversion_for(stamp, tz),
{
    match stamp {
        Stamp::WithOffset(utc, offset) => if tz == TzInput::Utc && offset != 0 {
            Conversion::Refuse
        } else {
            Conversion::FromUtc(utc)
        },
        Stamp::Naive(c) => if tz == TzInput::Eastern {
            Conversion::FromLocal(c)
        } else {
            Conversion::FromUtc(c)
        },
        Stamp::Unreadable => Conversion::Refuse,
    }
}

/// Minutes from midnight, date code and year of an Eastern time. The code of a
/// year that needs more than 32 bits wraps.
pub open spec fn clock(et: Civil) -> (i32, u32, i32) {
    (
        (et.hour * 60 + et.minute) as i32,
        (et.year as u32).wrapping_mul(10000).wrapping_add(
            (et.month * 100 + et.day) as u32,
        ),
        et.year,
    )
}

/// Minutes from midnight, date code and year of an Eastern time.
pub fn clock_of(et: Civil) -> (r: (i32, u32, i32))
    requires
        et.on_clock(),
    ensures
        r == clock(et),
        0 <= r.0 < 1440,
{
    let year: u32 = #[verifier::truncate]
    (et.year as u32);
    (
        (et.hour * 60 + et.minute) as i32,
        year.wrapping_mul(10000).wrapping_add(et.month * 100 + et.day),
        et.year,
    )
}

/// A date code of the years that fit reads as year, month and day.
pub proof fn a_date_code_reads_as_its_date(et: Civil)
    requires
        et.on_clock(),
        0 <= et.year <= 400_000,
    ensures
        clock(et).1 == et.year * 10000 + et.month * 100 + et.day,
        clock(et).1 / 10000 == et.year,
        (clock(et).1 / 100) % 100 == et.month,
        clock(et).1 % 100 == et.day,
{
    let y = et.year as int;
    let m = et.month as int;
    let d = et.day as int;
    assert((et.year as u32) == y);
    assert((et.year as u32).wrapping_mul(10000) == y * 10000) by {
        assert((y * 10000) % 0x1_0000_0000 == y * 10000);
    }
    let code = y * 10000 + m * 100 + d;
    assert(clock(et).1 == code);
    assert(code / 10000 == y);
    assert(code / 100 == y * 100 + m);
    assert((y * 100 + m) % 100 == m);
    assert(code % 100 == d);
}

#[derive(Clone, Copy, Debug, PartialEq, Eq, Structural)]
pub struct LoadReport {
    pub bad_rows: usize,
    pub offset_rows: usize,
    pub naive_rows: usize,
    pub ambiguous_local: usize,
}

impl Default for LoadReport {
    fn default() -> (r: Self)
        ensures
            r == (LoadReport { bad_rows: 0, offset_rows: 0, naive_rows: 0, ambiguous_local: 0 }),
    {
        LoadReport { bad_rows: 0, offset_rows: 0, naive_rows: 0, ambiguous_local: 0 }
    }
}

impl LoadReport {
    /// Room for the counts of one more row.
    pub open spec fn has_room(self) -> bool {
        &&& self.bad_rows < usize::MAX
        &&& self.offset_rows < usize::MAX
        &&& self.naive_rows < usize::MAX
        &&& self.ambiguous_local < usize::MAX
    }
}

/// Eastern time of a conversion: `None` where it is refused, or where a
/// wall-clock time does not exist.
pub open spec fn converted(c: Conversion) -> Option<(i32, u32, i32)> {
    match c {
        Conversion::FromUtc(utc) => match eastern_of_utc(utc) {
            Some(et) => Some(clock(et)),
            None => None,
        },
        Conversion::FromLocal(local) => match eastern_showing(local) {
            Some(Showing::Never) => None,
            Some(_) => Some(clock(local)),
            None => None,
        },
        Conversion::Refuse => None,
    }
}

/// Minutes, date code and year that a timestamp field gives under a declaration.
pub open spec fn et_reading(ts: Seq<char>, tz: TzInput) -> Option<(i32, u32, i32)> {
    converted(conversion_for(stamp_in(trimmed(ts)), tz))
}

/// The report after one more timestamp: which kind it was, and whether it fell
/// in a daylight saving transition.
pub open spec fn report_after(rep: LoadReport, ts: Seq<char>, tz: TzInput) -> LoadReport {
    let stamp = stamp_in(trimmed(ts));
    LoadReport {
        bad_rows: rep.bad_rows,
        offset_rows: if stamp is WithOffset {
            (rep.offset_rows + 1) as usize
        } else {
            rep.offset_rows
        },
        naive_rows: if stamp is Naive {
            (rep.naive_rows + 1) as usize
        } else {
            rep.naive_rows
        },
        ambiguous_local: match conversion_for(stamp, tz) {
            Conversion::FromLocal(c) => if eastern_showing(c) == Some(Showing::Once) {
                rep.ambiguous_local
            } else {
                (rep.ambiguous_local + 1) as usize
            },
            _ => rep.ambiguous_local,
        },
    }
}

/// Convert one timestamp field to ET minutes-from-midnight plus a date code.
///
/// Returns `None` when the field cannot be parsed, or when it disagrees with
/// the declared `tz` (for example an explicit `-04:00` under `--tz-input utc`).
pub fn parse_et(ts: &str, tz: TzInput, rep: &mut LoadReport) -> (r: Option<(i32, u32, i32)>)
    requires
        old(rep).has_room(),
    ensures
        r == et_reading(ts@, tz),
        *final(rep) == report_after(*old(rep), ts@, tz),
        r matches Some(c) ==> 0 <= c.0 < 1440,
{
    let stamp: Stamp = read_stamp(ts);
    match stamp {
        Stamp::WithOffset(_, _) => {
            rep.offset_rows = rep.offset_rows + 1;
        },
        Stamp::Naive(_) => {
            rep.naive_rows = rep.naive_rows + 1;
        },
        Stamp::Unreadable => {},
    }
    match choose_conversion(stamp, tz) {
        Conversion::FromUtc(utc) => match utc_to_eastern(utc) {
            Some(et) => Some(clock_of(et)),
            None => None,
        },
        Conversion::FromLocal(local) => match local_in_eastern(local) {
            Some(Showing::Once) => Some(clock_of(local)),
            Some(Showing::Twice) => {
                // The autumn repeated hour. Take the first occurrence and count it.
                rep.ambiguous_local = rep.ambiguous_local + 1;
                Some(clock_of(local))
            },
            Some(Showing::Never) => {
                // The spring skipped hour: this wall-clock time does not exist.
                rep.ambiguous_local = rep.ambiguous_local + 1;
                None
            },
            None => {
                rep.ambiguous_local = rep.ambiguous_local + 1;
                None
            },
        },
        Conversion::Refuse => None,
    }
}

/// A timestamp with a real offset is refused under a declaration of UTC, not
/// silently shifted.
pub proof fn a_real_offset_is_refused_under_utc(ts: Seq<char>)
    requires
        offset_reading(trimmed(ts)) is Some,
        ({
            let (utc, offset) = offset_reading(trimmed(ts))->0;
            offset != 0
        }),
    ensures
        et_reading(ts, TzInput::Utc) is None,
{
}

/// A timestamp without an offset that is declared Eastern is taken literally:
/// its own hour and minute, wherever the clocks show it.
pub proof fn an_eastern_wall_clock_is_taken_literally(ts: Seq<char>, c: Civil)
    requires
        offset_reading(trimmed(ts)) is None,
        naive_reading(trimmed(ts)) == Some(c),
        eastern_showing(c) == Some(Showing::Once) || eastern_showing(c) == Some(Showing::Twice),
    ensures
        et_reading(ts, TzInput::Eastern) == Some(clock(c)),
{
}

/// An explicit offset decides the instant alone: under every declaration that
/// accepts it, the reading is the same.
pub proof fn an_accepted_offset_reads_the_same_under_every_declaration(
    ts: Seq<char>,
    a: TzInput,
    b: TzInput,
)
    requires
        offset_reading(trimmed(ts)) is Some,
        ({
            let (utc, offset) = offset_reading(trimmed(ts))->0;
            offset == 0 || (a != TzInput::Utc && b != TzInput::Utc)
        }),
    ensures
        et_reading(ts, a) == et_reading(ts, b),
{
}

// ---------------------------------------------------------------------------
// Rows
// ---------------------------------------------------------------------------

/// What a line of a data file holds.
#[derive(Clone, Debug)]
pub enum RowText<'a> {
    /// Nothing but whitespace.
    Blank,
    /// Fewer fields than a row has.
    Short,
    /// The fields of a row.
    Fields(Vec<&'a str>),
}

/// Fields that a row has at least.
pub const ROW_FIELDS: usize = 7;

/// Split a line into its fields.
pub fn split_row<'a>(line: &'a str) -> (r: RowText<'a>)
    ensures
        ({
            let body = without_trailing(line@, '\r');
            match r {
                RowText::Blank => trimmed(body).len() == 0,
                RowText::Short => trimmed(body).len() > 0 && pieces(body, ',').len() < ROW_FIELDS,
                RowText::Fields(f) => trimmed(body).len() > 0 && views(f@) == pieces(body, ',')
                    && f@.len() >= ROW_FIELDS,
            }
        }),
{
    let body: &'a str = trim_end_char(line, '\r');
    if trim(body).is_empty() {
        return RowText::Blank;
    }
    let f: Vec<&'a str> = split(body, ',');
    proof {
        assert(views(f@).len() == f@.len());
    }
    if f.len() < ROW_FIELDS {
        RowText::Short
    } else {
        RowText::Fields(f)
    }
}

/// High, low and close of a row, in price units.
#[derive(Clone, Copy, Debug)]
pub struct RowPrices {
    pub high: i64,
    pub low: i64,
    pub close: i64,
}

impl RowPrices {
    /// Positive prices, with the close between the low and the high.
    pub open spec fn sensible(self) -> bool {
        &&& self.high > 0
        &&& self.low > 0
        &&& self.close > 0
        &&& self.low <= self.close <= self.high
    }
}

/// Bars and days being loaded, with the number of each date seen so far.
#[derive(Debug)]
pub struct Loader {
    pub bars: Vec<Bar>,
    pub days: Vec<DayMeta>,
    /// The day of each date code.
    pub ids: HashMap<u32, u32>,
    pub rep: LoadReport,
}

/// The first day from `d` on with a date code; the number of days if there is
/// none.
pub open spec fn day_of_code(days: Seq<DayMeta>, code: u32, d: int) -> int
    decreases days.len() - d,
{
    if d >= days.len() {
        days.len() as int
    } else if days[d].date_code == code {
        d
    } else {
        day_of_code(days, code, d + 1)
    }
}

proof fn lemma_day_of_code(days: Seq<DayMeta>, code: u32, d: int, at: int)
    requires
        0 <= d <= at < days.len(),
        days[at].date_code == code,
        forall|k: int| d <= k < at ==> (#[trigger] days[k]).date_code != code,
    ensures
        day_of_code(days, code, d) == at,
    decreases at - d,
{
    if d < at {
        lemma_day_of_code(days, code, d + 1, at);
    }
}

proof fn lemma_no_day_of_code(days: Seq<DayMeta>, code: u32, d: int)
    requires
        0 <= d <= days.len(),
        forall|k: int| d <= k < days.len() ==> (#[trigger] days[k]).date_code != code,
    ensures
        day_of_code(days, code, d) == days.len(),
    decreases days.len() - d,
{
    if d < days.len() {
        lemma_no_day_of_code(days, code, d + 1);
    }
}

/// A day of which no bar range is known yet.
pub open spec fn unranged_day(year: i32, date_code: u32) -> DayMeta {
    DayMeta { year, date_code, start: 0, end: 0, sess_start: 0, sess_end: 0 }
}

impl Loader {
    /// The numbers stand for the days in their order, no two days share a date
    /// code, and every bar belongs to a day and has sensible prices.
    pub open spec fn wf(self) -> bool {
        &&& forall|code: u32| #[trigger]
            self.ids@.contains_key(code) ==> self.ids@[code] < self.days@.len()
                && self.days@[self.ids@[code] as int].date_code == code
        &&& forall|d: int|
            0 <= d < self.days@.len() ==> self.ids@.contains_key(
                (#[trigger] self.days@[d]).date_code,
            ) && self.ids@[self.days@[d].date_code] == d && self.days@[d] == unranged_day(
                self.days@[d].year,
                self.days@[d].date_code,
            )
        &&& forall|i: int|
            0 <= i < self.bars@.len() ==> (#[trigger] self.bars@[i]).date_id < self.days@.len()
                && self.bars@[i].sensible()
    }

    /// Nothing loaded yet.
    pub fn new() -> (r: Self)
        ensures
            r.wf(),
            r.bars@.len() == 0,
            r.days@.len() == 0,
            r.rep == (LoadReport {
                bad_rows: 0,
                offset_rows: 0,
                naive_rows: 0,
                ambiguous_local: 0,
            }),
    {
        broadcast use vstd::std_specs::hash::group_hash_axioms;

        Loader {
            bars: Vec::new(),
            days: Vec::new(),
            ids: HashMap::new(),
            rep: LoadReport::default(),
        }
    }

    /// Count a row that is not used.
    pub fn reject_row(&mut self)
        requires
            old(self).wf(),
            old(self).rep.bad_rows < usize::MAX,
        ensures
            final(self).wf(),
            final(self).bars@ == old(self).bars@,
            final(self).days@ == old(self).days@,
            final(self).rep == (LoadReport {
                bad_rows: (old(self).rep.bad_rows + 1) as usize,
                ..old(self).rep
            }),
    {
        self.rep.bad_rows = self.rep.bad_rows + 1;
    }

    /// Add the bar of a row whose timestamp and prices were read. Prices are held
    /// to strictly: a row without a timestamp, or with an unreadable or
    /// nonsensical price, is counted and never used.
    pub fn add_bar(
        &mut self,
        at: Option<(i32, u32, i32)>,
        prices: Option<RowPrices>,
        volume: i64,
    )
        requires
            old(self).wf(),
            old(self).days@.len() < u32::MAX,
            old(self).rep.bad_rows < usize::MAX,
        ensures
            final(self).wf(),
            match (at, prices) {
                (Some((tm, code, year)), Some(px)) if px.sensible() => {
                    let id = day_of_code(old(self).days@, code, 0);
                    &&& final(self).rep == old(self).rep
                    &&& final(self).bars@ == old(self).bars@.push(
                        Bar {
                            high: px.high,
                            low: px.low,
                            close: px.close,
                            volume,
                            time_mins: tm,
                            date_id: id as u32,
                        },
                    )
                    &&& final(self).days@ == if id < old(self).days@.len() {
                        old(self).days@
                    } else {
                        old(self).days@.push(unranged_day(year, code))
                    }
                },
                _ => {
                    &&& final(self).bars@ == old(self).bars@
                    &&& final(self).days@ == old(self).days@
                    &&& final(self).rep == (LoadReport {
                        bad_rows: (old(self).rep.bad_rows + 1) as usize,
                        ..old(self).rep
                    })
                },
            },
    {
        broadcast use vstd::std_specs::hash::group_hash_axioms;

        let ghost before = *self;
        match (at, prices) {
            (Some((tm, code, year)), Some(px)) => {
                if px.high <= 0 || px.low <= 0 || px.close <= 0 || px.low > px.high || px.close
                    > px.high || px.close < px.low {
                    self.reject_row();
                    return;
                }
                let known: Option<u32> = match self.ids.get(&code) {
                    Some(id) => Some(*id),
                    None => None,
                };
                let id: u32 = match known {
                    Some(id) => {
                        proof {
                            assert forall|k: int| 0 <= k < id implies (
                            #[trigger] before.days@[k]).date_code != code by {
                                assert(before.ids@[before.days@[k].date_code] == k);
                            }
                            lemma_day_of_code(before.days@, code, 0, id as int);
                        }
                        id
                    },
                    None => {
                        let fresh: u32 = self.days.len() as u32;
                        proof {
                            assert forall|k: int| 0 <= k < before.days@.len() implies (
                            #[trigger] before.days@[k]).date_code != code by {
                                assert(before.ids@.contains_key(before.days@[k].date_code));
                            }
                            lemma_no_day_of_code(before.days@, code, 0);
                        }
                        self.days.push(
                            DayMeta {
                                year,
                                date_code: code,
                                start: 0,
                                end: 0,
                                sess_start: 0,
                                sess_end: 0,
                            },
                        );
                        self.ids.insert(code, fresh);
                        fresh
                    },
                };
                self.bars.push(
                    Bar {
                        high: px.high,
                        low: px.low,
                        close: px.close,
                        volume,
                        time_mins: tm,
                        date_id: id,
                    },
                );
                proof {
                    assert forall|i: int| 0 <= i < self.bars@.len() implies (
                    #[trigger] self.bars@[i]).date_id < self.days@.len() by {
                        if i < before.bars@.len() {
                            assert(before.bars@[i].date_id < before.days@.len());
                        }
                    }
                }
            },
            _ => {
                self.reject_row();
            },
        }
    }

    /// Add a row, given its timestamp field and what was read of its prices.
    pub fn add_row(&mut self, ts: &str, tz: TzInput, prices: Option<RowPrices>, volume: i64)
        requires
            old(self).wf(),
            old(self).days@.len() < u32::MAX,
            old(self).rep.has_room(),
        ensures
            final(self).wf(),
            match (et_reading(ts@, tz), prices) {
                (Some((tm, code, year)), Some(px)) if px.sensible() => {
                    let id = day_of_code(old(self).days@, code, 0);
                    &&& final(self).rep == report_after(old(self).rep, ts@, tz)
                    &&& final(self).bars@ == old(self).bars@.push(
                        Bar {
                            high: px.high,
                            low: px.low,
                            close: px.close,
                            volume,
                            time_mins: tm,
                            date_id: id as u32,
                        },
                    )
                    &&& final(self).days@ == if id < old(self).days@.len() {
                        old(self).days@
                    } else {
                        old(self).days@.push(unranged_day(year, code))
                    }
                },
                _ => {
                    &&& final(self).bars@ == old(self).bars@
                    &&& final(self).days@ == old(self).days@
                    &&& final(self).rep == (LoadReport {
                        bad_rows: (old(self).rep.bad_rows + 1) as usize,
                        ..report_after(old(self).rep, ts@, tz)
                    })
                },
            },
    {
        let at: Option<(i32, u32, i32)> = parse_et(ts, tz, &mut self.rep);
        self.add_bar(at, prices, volume);
    }

    /// Give each day its bar range and hand everything out. Every bar has
    /// sensible prices.
    pub fn finish(self) -> (r: (Vec<Bar>, Vec<DayMeta>, LoadReport))
        requires
            self.wf(),
        ensures
            r.0@ == self.bars@,
            r.1@.len() == self.days@.len(),
            forall|d: int|
                0 <= d < self.days@.len() ==> #[trigger] r.1@[d] == ranged_day(
                    self.bars@,
                    self.days@[d],
                    d,
                ),
            r.2 == self.rep,
            forall|i: int| 0 <= i < r.0@.len() ==> (#[trigger] r.0@[i]).sensible(),
            forall|i: int| 0 <= i < r.0@.len() ==> (#[trigger] r.0@[i]).date_id < r.1@.len(),
    {
        let Loader { bars, mut days, ids: _, rep } = self;
        let ghost before = self.days@;
        let n: usize = bars.len();
        let mut i: usize = 0;
        while i < n
            invariant
                i <= n,
                n == bars@.len(),
                days@.len() == before.len(),
                forall|k: int| 0 <= k < n ==> (#[trigger] bars@[k]).date_id < before.len(),
                forall|d: int|
                    0 <= d < days@.len() ==> #[trigger] days@[d] == (DayMeta {
                        start: last_run_start(bars@, d, i as int) as usize,
                        end: last_run_end(bars@, d, i as int) as usize,
                        ..before[d]
                    }),
            decreases n - i,
        {
            let id: usize = bars[i].date_id as usize;
            let day: DayMeta = days[id];
            let begins: bool = i == 0 || bars[i - 1].date_id as usize != id;
            let ends: bool = i + 1 == n || bars[i + 1].date_id as usize != id;
            let start: usize = if begins {
                i
            } else {
                day.start
            };
            let end: usize = if ends {
                i + 1
            } else {
                day.end
            };
            days.set(id, DayMeta { start, end, ..day });
            i = i + 1;
        }
        (bars, days, rep)
    }
}

/// Whether a run of bars of day `d` begins at bar `k`.
pub open spec fn run_begins(bars: Seq<Bar>, d: int, k: int) -> bool {
    bars[k].date_id == d && (k == 0 || bars[k - 1].date_id != d)
}

/// Whether a run of bars of day `d` ends with bar `k`.
pub open spec fn run_ends(bars: Seq<Bar>, d: int, k: int) -> bool {
    bars[k].date_id == d && (k + 1 == bars.len() || bars[k + 1].date_id != d)
}

/// Where the last run of bars of day `d` among the first `n` begins.
pub open spec fn last_run_start(bars: Seq<Bar>, d: int, n: int) -> int
    decreases n,
{
    if n <= 0 {
        0
    } else if run_begins(bars, d, n - 1) {
        n - 1
    } else {
        last_run_start(bars, d, n - 1)
    }
}

/// One past where the last run of bars of day `d` among the first `n` ends.
pub open spec fn last_run_end(bars: Seq<Bar>, d: int, n: int) -> int
    decreases n,
{
    if n <= 0 {
        0
    } else if run_ends(bars, d, n - 1) {
        n
    } else {
        last_run_end(bars, d, n - 1)
    }
}

/// A day with the range of its last run of bars.
pub open spec fn ranged_day(bars: Seq<Bar>, day: DayMeta, d: int) -> DayMeta {
    DayMeta {
        start: last_run_start(bars, d, bars.len() as int) as usize,
        end: last_run_end(bars, d, bars.len() as int) as usize,
        ..day
    }
}

/// Whether the bars of day `d` stand together in `s..e`.
pub open spec fn day_stands_in(bars: Seq<Bar>, d: int, s: int, e: int) -> bool {
    &&& 0 <= s < e <= bars.len()
    &&& forall|k: int| 0 <= k < bars.len() ==> ((#[trigger] bars[k]).date_id == d <==> s <= k < e)
}

proof fn lemma_last_run_of_contiguous(bars: Seq<Bar>, d: int, s: int, e: int, n: int)
    requires
        day_stands_in(bars, d, s, e),
        0 <= n <= bars.len(),
    ensures
        n > s ==> last_run_start(bars, d, n) == s,
        n >= e ==> last_run_end(bars, d, n) == e,
        n < e ==> last_run_end(bars, d, n) == 0,
    decreases n,
{
    if n > 0 {
        lemma_last_run_of_contiguous(bars, d, s, e, n - 1);
        let k = n - 1;
        assert(bars[k].date_id == d <==> s <= k < e);
        if k > 0 {
            assert(bars[k - 1].date_id == d <==> s <= k - 1 < e);
        }
        if k + 1 < bars.len() {
            assert(bars[k + 1].date_id == d <==> s <= k + 1 < e);
        }
    }
}

/// Where the bars of a day stand together, its range holds exactly them.
pub proof fn a_day_range_holds_exactly_its_bars(
    bars: Seq<Bar>,
    day: DayMeta,
    d: int,
    s: int,
    e: int,
)
    requires
        bars.len() <= usize::MAX,
        day_stands_in(bars, d, s, e),
    ensures
        ranged_day(bars, day, d).start == s,
        ranged_day(bars, day, d).end == e,
{
    lemma_last_run_of_contiguous(bars, d, s, e, bars.len() as int);
}

// ---------------------------------------------------------------------------
// File names
// ---------------------------------------------------------------------------

/// `s` without the occurrences of ".CSV" at its end.
pub open spec fn stem_of(s: Seq<char>) -> Seq<char>
    decreases s.len(),
{
    if ends_with(s, seq!['.', 'C', 'S', 'V']) {
        stem_of(s.take(s.len() - 4))
    } else {
        s
    }
}

/// Whether an uppercase file name is a CSV file of an uppercase symbol: its stem
/// is the symbol, or the symbol followed by an underscore or a hyphen.
pub open spec fn names_instrument(name: Seq<char>, sym: Seq<char>) -> bool {
    let stem = stem_of(name);
    &&& ends_with(name, seq!['.', 'C', 'S', 'V'])
    &&& begins_with(stem, sym)
    &&& stem.len() == sym.len() || stem[sym.len() as int] == '_' || stem[sym.len() as int] == '-'
}

fn is_csv(v: &Vec<char>, n: usize) -> (r: bool)
    requires
        n <= v@.len(),
    ensures
        r == ends_with(v@.take(n as int), seq!['.', 'C', 'S', 'V']),
{
    let r: bool = n >= 4 && v[n - 4] == '.' && v[n - 3] == 'C' && v[n - 2] == 'S' && v[n - 1] == 'V';
    proof {
        let s = v@.take(n as int);
        let suffix = seq!['.', 'C', 'S', 'V'];
        if n >= 4 {
            let tail = s.skip(s.len() - 4);
            assert(tail.len() == 4);
            assert(tail[0] == v@[n - 4] && tail[1] == v@[n - 3] && tail[2] == v@[n - 2] && tail[3]
                == v@[n - 1]);
            if r {
                assert(tail =~= suffix);
            }
        }
    }
    r
}

/// Whether an uppercase file name is a CSV file of an uppercase symbol.
///
/// Matched on an anchored prefix: an unanchored search for "ES" would also match
/// `MES_2024.CSV`, `RESULTS.CSV` and `NQ_ES_SPREAD.CSV`.
pub fn matches_instrument(name: &str, sym: &str) -> (r: bool)
    ensures
        r == names_instrument(name@, sym@),
{
    let v: Vec<char> = chars_of(name);
    let s: Vec<char> = chars_of(sym);
    let mut n: usize = v.len();
    proof {
        assert(v@.take(n as int) == v@);
    }
    if !is_csv(&v, n) {
        return false;
    }
    while is_csv(&v, n)
        invariant
            n <= v@.len(),
            stem_of(v@) == stem_of(v@.take(n as int)),
        decreases n,
    {
        proof {
            assert(v@.take(n as int).take(n - 4) == v@.take(n - 4));
        }
        n = n - 4;
    }
    let ghost stem = v@.take(n as int);
    if s.len() > n {
        return false;
    }
    let mut i: usize = 0;
    while i < s.len()
        invariant
            i <= s@.len() <= n <= v@.len(),
            stem == v@.take(n as int),
            stem_of(v@) == stem,
            v@ == name@,
            s@ == sym@,
            forall|k: int| 0 <= k < i ==> v@[k] == s@[k],
        decreases s@.len() - i,
    {
        if v[i] != s[i] {
            proof {
                assert(stem.take(s@.len() as int)[i as int] == v@[i as int]);
            }
            return false;
        }
        i = i + 1;
    }
    proof {
        assert(stem.take(s@.len() as int) =~= s@);
    }
    s.len() == n || v[s.len()] == '_' || v[s.len()] == '-'
}

/// Whether a file belongs to an instrument, in any case of letters.
pub fn file_matches(name: &str, symbol: &str) -> (r: bool)
    ensures
        r == names_instrument(uppercase(name@), uppercase(symbol@)),
{
    matches_instrument(to_upper(name).as_str(), to_upper(symbol).as_str())
}

proof fn lemma_stem_is_prefix(s: Seq<char>)
    ensures
        stem_of(s).len() <= s.len(),
        stem_of(s) == s.take(stem_of(s).len() as int),
    decreases s.len(),
{
    if ends_with(s, seq!['.', 'C', 'S', 'V']) {
        lemma_stem_is_prefix(s.take(s.len() - 4));
        let stem = stem_of(s);
        assert(s.take(s.len() - 4).take(stem.len() as int) == s.take(stem.len() as int));
    } else {
        assert(s.take(s.len() as int) == s);
    }
}

/// Matching is anchored: the name of a matching file begins with the symbol.
pub proof fn a_matching_file_begins_with_its_symbol(name: Seq<char>, sym: Seq<char>)
    requires
        names_instrument(name, sym),
    ensures
        begins_with(name, sym),
{
    lemma_stem_is_prefix(name);
    let stem = stem_of(name);
    assert(name.take(stem.len() as int).take(sym.len() as int) == name.take(sym.len() as int));
}

} // verus!
