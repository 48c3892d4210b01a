//! What sessions, session-days and timestamps mean.

use vstd::prelude::*;

use crate::data::{
    clock, eastern_of_utc, eastern_showing, et_reading, naive_reading, offset_reading, report_after,
    Civil, LoadReport, Showing, TzInput,
};
use crate::session::{
    beginnings, code_day, date_exists, day_number, days_before_month, inside, lemma_run_end,
    month_len, renumbered, run_end, session_begins, session_days,
};
use crate::text::trimmed;
use crate::types::{Bar, DayMeta};

verus! {

// ---------------------------------------------------------------------------
// Sessions
// ---------------------------------------------------------------------------

/// A minute of the day is inside a session exactly where it, or the same minute
/// of the next day, lies from the open up to the close, both counted from the
/// midnight before the open.
pub proof fn a_session_lasts_from_its_open_to_its_close(t: i32, open_mins: i32, close_mins: i32)
    requires
        0 <= t < 1440,
        0 <= open_mins <= 1440,
    ensures
        inside(t, open_mins, close_mins) <==> open_mins <= t < close_mins || open_mins <= t + 1440
            < close_mins,
{
}

/// The calendar counts every day once: the day after is the next of the month, the
/// first of the next month, or New Year's Day.
pub proof fn the_calendar_counts_every_day(y: int, m: int, d: int)
    requires
        date_exists(y, m, d),
    ensures
        d < month_len(y, m) ==> day_number(y, m, d + 1) == day_number(y, m, d) + 1,
        d == month_len(y, m) && m < 12 ==> day_number(y, m + 1, 1) == day_number(y, m, d) + 1,
        d == 31 && m == 12 ==> day_number(y + 1, 1, 1) == day_number(y, m, d) + 1,
        day_number(1, 1, 1) == 1,
        d <= 28 || m != 2 || d == 29 && y % 4 == 0 && (y % 100 != 0 || y % 400 == 0),
        m == 4 || m == 6 || m == 9 || m == 11 ==> d <= 30,
        d <= 31,
{
    reveal_with_fuel(days_before_month, 13);
}

// ---------------------------------------------------------------------------
// Session-days
// ---------------------------------------------------------------------------

/// Whether a new session comes between two bars in a row: more than a day lies
/// between their dates, or the second is at or after the open and the first in
/// the part of a session after midnight.
pub open spec fn parted(
    bars: Seq<Bar>,
    days: Seq<DayMeta>,
    open_mins: i32,
    close_mins: i32,
    i: int,
) -> bool {
    ||| code_day(days[bars[i].date_id as int].date_code) > code_day(
        days[bars[i - 1].date_id as int].date_code,
    ) + 1
    ||| bars[i - 1].time_mins < close_mins - 1440 && bars[i].time_mins >= open_mins
}

proof fn lemma_covering(
    bars: Seq<Bar>,
    days: Seq<DayMeta>,
    open_mins: i32,
    close_mins: i32,
    i: int,
) -> (s: int)
    requires
        0 <= i < bars.len(),
        inside(bars[i].time_mins, open_mins, close_mins),
    ensures
        ({
            let b = beginnings(bars, days, open_mins, close_mins, i + 1);
            &&& b.len() > 0
            &&& s == b[b.len() - 1]
            &&& 0 <= s <= i < run_end(bars, days, open_mins, close_mins, s + 1)
        }),
    decreases i,
{
    let b = beginnings(bars, days, open_mins, close_mins, i + 1);
    if session_begins(bars, days, open_mins, close_mins, i) {
        lemma_run_end(bars, days, open_mins, close_mins, i + 1);
        assert(b[b.len() - 1] == i);
        i
    } else {
        let s = lemma_covering(bars, days, open_mins, close_mins, i - 1);
        lemma_run_end(bars, days, open_mins, close_mins, s + 1);
        s
    }
}

proof fn lemma_beginnings_grow(
    bars: Seq<Bar>,
    days: Seq<DayMeta>,
    open_mins: i32,
    close_mins: i32,
    m: int,
    n: int,
)
    requires
        0 <= m <= n,
    ensures
        beginnings(bars, days, open_mins, close_mins, m).is_prefix_of(
            beginnings(bars, days, open_mins, close_mins, n),
        ),
    decreases n - m,
{
    if m < n {
        lemma_beginnings_grow(bars, days, open_mins, close_mins, m, n - 1);
    }
}

/// Every bar inside the session belongs to the rebuilt day that it is numbered
/// with, which is dated by its own first bar; bars outside keep their number.
pub proof fn every_session_bar_has_its_day(
    bars: Seq<Bar>,
    days: Seq<DayMeta>,
    open_mins: i32,
    close_mins: i32,
    i: int,
)
    requires
        bars.len() <= u32::MAX,
        0 <= i < bars.len(),
    ensures
        ({
            let all = session_days(bars, days, open_mins, close_mins);
            let b = renumbered(bars, days, open_mins, close_mins, i);
            let k = b.date_id as int;
            &&& inside(bars[i].time_mins, open_mins, close_mins) ==> {
                &&& 0 <= k < all.len()
                &&& all[k].start <= i < all[k].end
                &&& all[k].year == days[bars[all[k].start as int].date_id as int].year
                &&& all[k].date_code == days[bars[all[k].start as int].date_id as int].date_code
            }
            &&& !inside(bars[i].time_mins, open_mins, close_mins) ==> b == bars[i]
            &&& b.high == bars[i].high && b.low == bars[i].low && b.close == bars[i].close
            &&& b.time_mins == bars[i].time_mins && b.volume == bars[i].volume
        }),
{
    if inside(bars[i].time_mins, open_mins, close_mins) {
        let n = bars.len() as int;
        let s = lemma_covering(bars, days, open_mins, close_mins, i);
        let b = beginnings(bars, days, open_mins, close_mins, i + 1);
        let whole = beginnings(bars, days, open_mins, close_mins, n);
        lemma_beginnings_grow(bars, days, open_mins, close_mins, i + 1, n);
        lemma_beginnings_length(bars, days, open_mins, close_mins, i + 1);
        let k = b.len() - 1;
        assert(whole[k] == b[k]);
        lemma_run_end(bars, days, open_mins, close_mins, s + 1);
    }
}

proof fn lemma_beginnings_length(
    bars: Seq<Bar>,
    days: Seq<DayMeta>,
    open_mins: i32,
    close_mins: i32,
    n: int,
)
    requires
        0 <= n,
    ensures
        beginnings(bars, days, open_mins, close_mins, n).len() <= n,
    decreases n,
{
    if n > 0 {
        lemma_beginnings_length(bars, days, open_mins, close_mins, n - 1);
    }
}

/// Two bars in a row inside the session are of one rebuilt day exactly where no
/// new session comes between them.
pub proof fn a_session_day_ends_only_with_its_session(
    bars: Seq<Bar>,
    days: Seq<DayMeta>,
    open_mins: i32,
    close_mins: i32,
    i: int,
)
    requires
        bars.len() <= u32::MAX,
        0 < i < bars.len(),
        inside(bars[i - 1].time_mins, open_mins, close_mins),
        inside(bars[i].time_mins, open_mins, close_mins),
    ensures
        renumbered(bars, days, open_mins, close_mins, i).date_id == renumbered(
            bars,
            days,
            open_mins,
            close_mins,
            i - 1,
        ).date_id <==> !parted(bars, days, open_mins, close_mins, i),
{
    lemma_beginnings_length(bars, days, open_mins, close_mins, i);
    lemma_beginnings_length(bars, days, open_mins, close_mins, i + 1);
    let s = lemma_covering(bars, days, open_mins, close_mins, i - 1);
}

// ---------------------------------------------------------------------------
// Timestamps
// ---------------------------------------------------------------------------

/// An Eastern time is the minutes since its midnight, with its own year.
pub proof fn a_clock_shows_minutes_since_midnight(et: Civil)
    requires
        et.on_clock(),
    ensures
        clock(et).0 == 60 * et.hour + et.minute,
        clock(et).2 == et.year,
{
}

/// A timestamp without an offset is an instant in UTC unless it is declared
/// Eastern, and one with an offset is the instant that the offset makes it.
pub proof fn an_instant_is_read_in_eastern_time(ts: Seq<char>, tz: TzInput, utc: Civil, et: Civil)
    requires
        eastern_of_utc(utc) == Some(et),
        ({
            ||| offset_reading(trimmed(ts)) is None && naive_reading(trimmed(ts)) == Some(utc)
                && tz != TzInput::Eastern
            ||| exists|o: i32|
                #![trigger instant_with(utc, o)]
                offset_reading(trimmed(ts)) == instant_with(utc, o) && (o == 0 || tz
                    != TzInput::Utc)
        }),
    ensures
        et_reading(ts, tz) == Some(clock(et)),
{
}

/// An instant in UTC and the offset it was written with.
pub open spec fn instant_with(utc: Civil, offset: i32) -> Option<(Civil, i32)> {
    Some((utc, offset))
}

/// A text that holds no timestamp, or an Eastern time that the clocks skip, is
/// not read.
pub proof fn what_is_no_time_is_not_read(ts: Seq<char>, tz: TzInput, c: Civil)
    requires
        offset_reading(trimmed(ts)) is None,
        ({
            ||| naive_reading(trimmed(ts)) is None
            ||| naive_reading(trimmed(ts)) == Some(c) && tz == TzInput::Eastern
                && eastern_showing(c) == Some(Showing::Never)
        }),
    ensures
        et_reading(ts, tz) is None,
{
}

/// A report counts each timestamp under its kind, and every Eastern time that the
/// clocks skip or repeat.
pub proof fn a_report_counts_each_kind(rep: LoadReport, ts: Seq<char>, tz: TzInput, c: Civil)
    requires
        rep.has_room(),
        naive_reading(trimmed(ts)) == Some(c),
    ensures
        ({
            let r = report_after(rep, ts, tz);
            let with_offset = offset_reading(trimmed(ts)) is Some;
            let literal = !with_offset && tz == TzInput::Eastern;
            &&& r.bad_rows == rep.bad_rows
            &&& r.offset_rows == rep.offset_rows + if with_offset {
                1int
            } else {
                0
            }
            &&& r.naive_rows == rep.naive_rows + if with_offset {
                0int
            } else {
                1
            }
            &&& r.ambiguous_local == rep.ambiguous_local + if literal && eastern_showing(c) != Some(
                Showing::Once,
            ) {
                1int
            } else {
                0
            }
        }),
{
}

} // verus!
