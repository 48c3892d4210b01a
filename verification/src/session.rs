//! Session resolution and session-day construction.
//!
//! Two jobs. First, turn `--session` into a pair of minutes-from-midnight ET
//! bounds. Second, establish for every day the half-open range of bars that lie
//! inside that session, so the backtest is structurally unable to trade outside
//! it.

use chrono::{Datelike, NaiveDate};
use vstd::prelude::*;

use crate::text::{lowercase, same_text, to_lower};
use crate::types::{Bar, DayMeta};

verus! {

// ---------------------------------------------------------------------------
// Session bounds
// ---------------------------------------------------------------------------

/// Why no session bounds come of the settings.
#[derive(Clone, Copy, Debug, PartialEq, Eq, Structural)]
pub enum SessionError {
    /// `--session-close` is not after `--session-open`.
    Inverted,
    /// The session is longer than 24 hours.
    TooLong,
    /// No session has the name.
    Unknown,
}

/// The bounds of the named sessions.
pub open spec fn named_session(name: Seq<char>) -> Option<(i32, i32)> {
    if name == "ny"@ {
        Some((570, 960))
    } else if name == "london"@ {
        Some((180, 480))
    } else if name == "asia"@ {
        Some((1200, 1560))
    } else if name == "globex24"@ {
        Some((1080, 2460))
    } else {
        None
    }
}

/// The session bounds that the settings ask for: the overrides where both are
/// given, else those of the named session.
pub open spec fn session_bounds(
    name: Seq<char>,
    open_override: i32,
    close_override: i32,
) -> Result<(i32, i32), SessionError> {
    if open_override >= 0 && close_override >= 0 {
        if close_override <= open_override {
            Err(SessionError::Inverted)
        } else if close_override - open_override > 1440 {
            Err(SessionError::TooLong)
        } else {
            Ok((open_override, close_override))
        }
    } else {
        match named_session(lowercase(name)) {
            Some(b) => Ok(b),
            None => Err(SessionError::Unknown),
        }
    }
}

/// Resolve a session name (or explicit override) to ET minutes-from-midnight.
///
/// A `close_mins` above 1440 means the session wraps past midnight and closes
/// `close_mins - 1440` into the next calendar day.
pub fn resolve_session(name: &str, open_override: i32, close_override: i32) -> (r: (i32, i32))
    requires
        session_bounds(name@, open_override, close_override) is Ok,
    ensures
        session_bounds(name@, open_override, close_override) == Ok::<(i32, i32), SessionError>(r),
{
    if open_override >= 0 && close_override >= 0 {
        return (open_override, close_override);
    }
    let low: String = to_lower(name);
    if same_text(low.as_str(), "ny") {
        (570, 960)  // 09:30-16:00
    } else if same_text(low.as_str(), "london") {
        (180, 480)  // 03:00-08:00
    } else if same_text(low.as_str(), "asia") {
        (1200, 1560)  // 20:00-02:00, wraps
    } else {
        (1080, 2460)  // globex24, 18:00-17:00, wraps
    }
}

/// Resolve a session, or say why the settings name none.
pub fn try_resolve_session(name: &str, open_override: i32, close_override: i32) -> (r: Result<
    (i32, i32),
    SessionError,
>)
    ensures
        r == session_bounds(name@, open_override, close_override),
{
    if open_override >= 0 && close_override >= 0 {
        if close_override <= open_override {
            return Err(SessionError::Inverted);
        }
        if close_override - open_override > 1440 {
            return Err(SessionError::TooLong);
        }
        return Ok(resolve_session(name, open_override, close_override));
    }
    let low: String = to_lower(name);
    if same_text(low.as_str(), "ny") || same_text(low.as_str(), "london") || same_text(
        low.as_str(),
        "asia",
    ) || same_text(low.as_str(), "globex24") {
        Ok(resolve_session(name, open_override, close_override))
    } else {
        Err(SessionError::Unknown)
    }
}

/// Whether minute `t` of the day falls inside the session.
pub open spec fn inside(t: i32, open_mins: i32, close_mins: i32) -> bool {
    if close_mins > 1440 {
        t >= open_mins || t < close_mins - 1440
    } else {
        open_mins <= t < close_mins
    }
}

/// True if a bar at `t_mins` (0..1439) falls inside the session.
pub fn in_session(t_mins: i32, open_mins: i32, close_mins: i32) -> (r: bool)
    ensures
        r == inside(t_mins, open_mins, close_mins),
{
    if close_mins > 1440 {
        let close_wrapped: i32 = close_mins - 1440;
        t_mins >= open_mins || t_mins < close_wrapped
    } else {
        t_mins >= open_mins && t_mins < close_mins
    }
}

// ---------------------------------------------------------------------------
// Calendar
// ---------------------------------------------------------------------------

/// Whether a year has a 29th of February.
pub open spec fn is_leap(y: int) -> bool {
    (y % 4 == 0 && y % 100 != 0) || y % 400 == 0
}

/// Days in a month.
pub open spec fn month_len(y: int, m: int) -> int {
    if m == 2 {
        if is_leap(y) {
            29
        } else {
            28
        }
    } else if m == 4 || m == 6 || m == 9 || m == 11 {
        30
    } else {
        31
    }
}

/// Whether a date exists and is in the range of years that dates are kept for.
pub open spec fn date_exists(y: int, m: int, d: int) -> bool {
    &&& -262_143 <= y <= 262_142
    &&& 1 <= m <= 12
    &&& 1 <= d <= month_len(y, m)
}

/// Days of a year before its month `m`.
pub open spec fn days_before_month(y: int, m: int) -> int
    decreases m,
{
    if m <= 1 {
        0
    } else {
        days_before_month(y, m - 1) + month_len(y, m - 1)
    }
}

/// The number of a date, counted from January 1 of year 1 as day 1.
pub open spec fn day_number(y: int, m: int, d: int) -> int {
    let p = y - 1;
    365 * p + p / 4 - p / 100 + p / 400 + days_before_month(y, m) + d
}

/// `NaiveDate::from_ymd_opt` and `Datelike::num_days_from_ce`: the day count of
/// the proleptic Gregorian calendar from January 1 of year 1 as day 1, and `None`
/// where the date does not exist or its year is out of range.
#[verifier::external_body]
fn days_from_ce(y: i32, m: u32, d: u32) -> (r: Option<i32>)
    ensures
        match r {
            Some(n) => date_exists(y as int, m as int, d as int) && n == day_number(
                y as int,
                m as int,
                d as int,
            ),
            None => !date_exists(y as int, m as int, d as int),
        },
{
    NaiveDate::from_ymd_opt(y, m, d).map(|nd| nd.num_days_from_ce())
}

/// The day number of a date code, 0 where it names no date.
pub open spec fn code_day(code: u32) -> int {
    let y = code as int / 10000;
    let m = (code as int / 100) % 100;
    let d = code as int % 100;
    if date_exists(y, m, d) {
        day_number(y, m, d)
    } else {
        0
    }
}

fn date_code_to_ord(code: u32) -> (r: i64)
    ensures
        r == code_day(code),
{
    let y: i32 = (code / 10000) as i32;
    let m: u32 = (code / 100) % 100;
    let d: u32 = code % 100;
    match days_from_ce(y, m, d) {
        Some(n) => n as i64,
        None => 0,
    }
}

// ---------------------------------------------------------------------------
// Session days of sessions that wrap midnight
// ---------------------------------------------------------------------------

/// Whether more than a day lies between bar `i` and the bar before it.
pub open spec fn gap_before(bars: Seq<Bar>, days: Seq<DayMeta>, i: int) -> bool {
    i > 0 && code_day(days[bars[i].date_id as int].date_code) - code_day(
        days[bars[i - 1].date_id as int].date_code,
    ) > 1
}

/// Whether bar `i` crosses back up through the open after the wrapped portion
/// of a session.
pub open spec fn crosses_open(bars: Seq<Bar>, open_mins: i32, close_mins: i32, i: int) -> bool {
    i > 0 && bars[i - 1].time_mins < close_mins - 1440 && bars[i].time_mins >= open_mins
}

/// Whether a session begins at bar `i`: the bar is inside the session, and it is
/// the first, follows a bar outside, follows a calendar gap, or crosses the open.
pub open spec fn session_begins(
    bars: Seq<Bar>,
    days: Seq<DayMeta>,
    open_mins: i32,
    close_mins: i32,
    i: int,
) -> bool {
    &&& inside(bars[i].time_mins, open_mins, close_mins)
    &&& {
        ||| i == 0
        ||| !inside(bars[i - 1].time_mins, open_mins, close_mins)
        ||| gap_before(bars, days, i)
        ||| crosses_open(bars, open_mins, close_mins, i)
    }
}

/// The bars before bar `n` at which sessions begin, in order.
pub open spec fn beginnings(
    bars: Seq<Bar>,
    days: Seq<DayMeta>,
    open_mins: i32,
    close_mins: i32,
    n: int,
) -> Seq<int>
    decreases n,
{
    if n <= 0 {
        Seq::empty()
    } else {
        let before = beginnings(bars, days, open_mins, close_mins, n - 1);
        if session_begins(bars, days, open_mins, close_mins, n - 1) {
            before.push(n - 1)
        } else {
            before
        }
    }
}

/// The first bar from `i` on that is outside the session or begins another one;
/// the number of bars if there is none.
pub open spec fn run_end(
    bars: Seq<Bar>,
    days: Seq<DayMeta>,
    open_mins: i32,
    close_mins: i32,
    i: int,
) -> int
    decreases bars.len() - i,
{
    if i >= bars.len() {
        bars.len() as int
    } else if !inside(bars[i].time_mins, open_mins, close_mins) || session_begins(
        bars,
        days,
        open_mins,
        close_mins,
        i,
    ) {
        i
    } else {
        run_end(bars, days, open_mins, close_mins, i + 1)
    }
}

/// The session-day that begins at bar `s`.
pub open spec fn session_day(
    bars: Seq<Bar>,
    days: Seq<DayMeta>,
    open_mins: i32,
    close_mins: i32,
    s: int,
) -> DayMeta {
    let e = run_end(bars, days, open_mins, close_mins, s + 1);
    let from = days[bars[s].date_id as int];
    DayMeta {
        year: from.year,
        date_code: from.date_code,
        start: s as usize,
        end: e as usize,
        sess_start: s as usize,
        sess_end: e as usize,
    }
}

/// The session-days of a sequence of bars.
pub open spec fn session_days(
    bars: Seq<Bar>,
    days: Seq<DayMeta>,
    open_mins: i32,
    close_mins: i32,
) -> Seq<DayMeta> {
    beginnings(bars, days, open_mins, close_mins, bars.len() as int).map_values(
        |s: int| session_day(bars, days, open_mins, close_mins, s),
    )
}

/// A bar with the number of its session for its day, if it is in one.
pub open spec fn renumbered(
    bars: Seq<Bar>,
    days: Seq<DayMeta>,
    open_mins: i32,
    close_mins: i32,
    i: int,
) -> Bar {
    if inside(bars[i].time_mins, open_mins, close_mins) {
        Bar {
            date_id: (beginnings(bars, days, open_mins, close_mins, i + 1).len() - 1) as u32,
            ..bars[i]
        }
    } else {
        bars[i]
    }
}

proof fn lemma_beginnings_bounded(
    bars: Seq<Bar>,
    days: Seq<DayMeta>,
    open_mins: i32,
    close_mins: i32,
    n: int,
)
    requires
        0 <= n,
    ensures
        beginnings(bars, days, open_mins, close_mins, n).len() <= n,
        forall|k: int|
            0 <= k < beginnings(bars, days, open_mins, close_mins, n).len() ==> 0
                <= #[trigger] beginnings(bars, days, open_mins, close_mins, n)[k] < n,
    decreases n,
{
    if n > 0 {
        lemma_beginnings_bounded(bars, days, open_mins, close_mins, n - 1);
    }
}

/// Rebuild calendar days into session-days for sessions that wrap midnight.
///
/// For non-wrapping sessions this is a pass-through: one session-day equals one
/// calendar day. For wrapping sessions (asia, globex24) bars from 20:00 on date
/// D and 01:00 on D+1 belong to the same session, so the day grouping produced
/// by the loader is redone.
///
/// Weekend and holiday gaps are detected from true calendar-day ordinals rather
/// than the sequential `date_id`: futures do not trade Saturdays, so Friday and
/// Sunday receive consecutive ids.
pub fn rebuild_session_days(
    bars: &mut Vec<Bar>,
    days_in: &[DayMeta],
    open_mins: i32,
    close_mins: i32,
) -> (r: Vec<DayMeta>)
    requires
        close_mins > 1440 ==> old(bars)@.len() < u32::MAX && forall|i: int|
            0 <= i < old(bars)@.len() ==> (#[trigger] old(bars)@[i]).date_id < days_in@.len(),
    ensures
        close_mins <= 1440 ==> r@ == days_in@ && final(bars)@ == old(bars)@,
        close_mins > 1440 ==> {
            &&& r@ == session_days(old(bars)@, days_in@, open_mins, close_mins)
            &&& final(bars)@.len() == old(bars)@.len()
            &&& forall|i: int|
                0 <= i < old(bars)@.len() ==> #[trigger] final(bars)@[i] == renumbered(
                    old(bars)@,
                    days_in@,
                    open_mins,
                    close_mins,
                    i,
                )
        },
{
    let mut new_days: Vec<DayMeta> = Vec::new();
    if close_mins <= 1440 {
        let mut k: usize = 0;
        while k < days_in.len()
            invariant
                k <= days_in@.len(),
                new_days@ == days_in@.take(k as int),
            decreases days_in@.len() - k,
        {
            proof {
                assert(days_in@.take(k + 1) == days_in@.take(k as int).push(days_in@[k as int]));
            }
            new_days.push(days_in[k]);
            k = k + 1;
        }
        proof {
            assert(days_in@.take(days_in@.len() as int) == days_in@);
        }
        return new_days;
    }
    let ghost all = bars@;
    let ghost days = days_in@;
    let n: usize = bars.len();
    let mut ids: Vec<Option<u32>> = Vec::new();
    let mut start: usize = 0;
    let mut open: bool = false;
    let mut i: usize = 0;
    while i < n
        invariant
            close_mins > 1440,
            n == all.len(),
            n < u32::MAX,
            all == bars@,
            days == days_in@,
            forall|j: int| 0 <= j < all.len() ==> (#[trigger] all[j]).date_id < days.len(),
            i <= n,
            ids@.len() == i,
            open == (i > 0 && inside(all[i - 1].time_mins, open_mins, close_mins)),
            ({
                let b = beginnings(all, days, open_mins, close_mins, i as int);
                let done = new_days@.len() as int;
                &&& done == if open {
                    b.len() - 1
                } else {
                    b.len() as int
                }
                &&& open ==> start == b.last() && start < i && run_end(
                    all,
                    days,
                    open_mins,
                    close_mins,
                    start + 1,
                ) == run_end(all, days, open_mins, close_mins, i as int)
                &&& forall|k: int|
                    0 <= k < done ==> #[trigger] new_days@[k] == session_day(
                        all,
                        days,
                        open_mins,
                        close_mins,
                        b[k],
                    )
            }),
            forall|j: int|
                0 <= j < i ==> #[trigger] ids@[j] == if inside(
                    all[j].time_mins,
                    open_mins,
                    close_mins,
                ) {
                    Some(
                        (beginnings(all, days, open_mins, close_mins, j + 1).len() - 1) as u32,
                    )
                } else {
                    None
                },
        decreases n - i,
    {
        let t: i32 = bars[i].time_mins;
        let did: usize = bars[i].date_id as usize;
        let within: bool = in_session(t, open_mins, close_mins);
        let gap: bool = if i > 0 {
            let prev: usize = bars[i - 1].date_id as usize;
            let here: i64 = date_code_to_ord(days_in[did].date_code);
            let there: i64 = date_code_to_ord(days_in[prev].date_code);
            proof {
                lemma_code_day_bounded(days_in@[did as int].date_code);
                lemma_code_day_bounded(days_in@[prev as int].date_code);
            }
            here - there > 1
        } else {
            false
        };
        let crossed: bool = i > 0 && bars[i - 1].time_mins < close_mins - 1440 && t >= open_mins;
        proof {
            lemma_beginnings_bounded(all, days, open_mins, close_mins, i as int);
            lemma_beginnings_bounded(all, days, open_mins, close_mins, i + 1);
            assert(within == inside(all[i as int].time_mins, open_mins, close_mins));
            assert(gap == gap_before(all, days, i as int));
            assert(crossed == crosses_open(all, open_mins, close_mins, i as int));
            assert(session_begins(all, days, open_mins, close_mins, i as int) == (within && (!open
                || gap || crossed)));
        }
        let begins: bool = within && (!open || gap || crossed);
        if open && (begins || !within) {
            let from: DayMeta = days_in[bars[start].date_id as usize];
            new_days.push(
                DayMeta {
                    year: from.year,
                    date_code: from.date_code,
                    start,
                    end: i,
                    sess_start: start,
                    sess_end: i,
                },
            );
        }
        if begins {
            start = i;
        }
        if within {
            ids.push(Some(new_days.len() as u32));
        } else {
            ids.push(None);
        }
        open = within;
        i = i + 1;
    }
    if open {
        let from: DayMeta = days_in[bars[start].date_id as usize];
        new_days.push(
            DayMeta {
                year: from.year,
                date_code: from.date_code,
                start,
                end: n,
                sess_start: start,
                sess_end: n,
            },
        );
    }
    proof {
        assert(new_days@ == session_days(all, days, open_mins, close_mins));
    }
    i = 0;
    while i < n
        invariant
            i <= n,
            n == all.len(),
            bars@.len() == n,
            ids@.len() == n,
            forall|j: int| i <= j < n ==> #[trigger] bars@[j] == all[j],
            forall|j: int|
                0 <= j < i ==> #[trigger] bars@[j] == renumbered(
                    all,
                    days,
                    open_mins,
                    close_mins,
                    j,
                ),
            forall|j: int|
                0 <= j < n ==> #[trigger] ids@[j] == if inside(
                    all[j].time_mins,
                    open_mins,
                    close_mins,
                ) {
                    Some(
                        (beginnings(all, days, open_mins, close_mins, j + 1).len() - 1) as u32,
                    )
                } else {
                    None
                },
        decreases n - i,
    {
        match ids[i] {
            Some(id) => {
                let b: Bar = bars[i];
                bars.set(i, Bar { date_id: id, ..b });
            },
            None => {},
        }
        i = i + 1;
    }
    new_days
}

proof fn lemma_days_before_month_steps(y: int, m: int)
    ensures
        0 <= days_before_month(y, m),
        m >= 1 ==> days_before_month(y, m) <= 31 * (m - 1),
        m < 1 ==> days_before_month(y, m) == 0,
    decreases m,
{
    if m > 1 {
        lemma_days_before_month_steps(y, m - 1);
    }
}

proof fn lemma_code_day_bounded(code: u32)
    ensures
        0 <= code_day(code) + 400 <= 200_000_000,
{
    lemma_days_before_month_steps(code as int / 10000, (code as int / 100) % 100);
}

/// Whether a rebuild left so few days that gap detection may have failed: under
/// half of the calendar days.
pub fn suspiciously_few_days(rebuilt: usize, calendar: usize) -> (r: bool)
    ensures
        r == (2 * rebuilt < calendar),
{
    rebuilt < calendar / 2 || (rebuilt == calendar / 2 && calendar % 2 == 1)
}

// ---------------------------------------------------------------------------
// Session range of each day
// ---------------------------------------------------------------------------

/// The first bar from `i` on that is inside the session; `e` if none before it is.
pub open spec fn first_inside(
    bars: Seq<Bar>,
    i: int,
    e: int,
    open_mins: i32,
    close_mins: i32,
) -> int
    decreases e - i,
{
    if i >= e {
        e
    } else if inside(bars[i].time_mins, open_mins, close_mins) {
        i
    } else {
        first_inside(bars, i + 1, e, open_mins, close_mins)
    }
}

/// One past the last bar before `e` that is inside the session; `s` if none
/// from it on is.
pub open spec fn past_last_inside(
    bars: Seq<Bar>,
    s: int,
    e: int,
    open_mins: i32,
    close_mins: i32,
) -> int
    decreases e - s,
{
    if e <= s {
        s
    } else if inside(bars[e - 1].time_mins, open_mins, close_mins) {
        e
    } else {
        past_last_inside(bars, s, e - 1, open_mins, close_mins)
    }
}

/// A day with its session range: from the first to the last bar inside the
/// session, or empty at the start of the day where there is none. A day of a
/// wrapping session is all session.
pub open spec fn indexed_day(
    bars: Seq<Bar>,
    d: DayMeta,
    open_mins: i32,
    close_mins: i32,
) -> DayMeta {
    let s = first_inside(bars, d.start as int, d.end as int, open_mins, close_mins);
    if close_mins > 1440 {
        DayMeta { sess_start: d.start, sess_end: d.end, ..d }
    } else if d.start >= d.end || s == d.end {
        DayMeta { sess_start: d.start, sess_end: d.start, ..d }
    } else {
        DayMeta {
            sess_start: s as usize,
            sess_end: past_last_inside(
                bars,
                d.start as int,
                d.end as int,
                open_mins,
                close_mins,
            ) as usize,
            ..d
        }
    }
}

fn index_day(bars: &[Bar], d: DayMeta, open_mins: i32, close_mins: i32) -> (r: DayMeta)
    requires
        close_mins <= 1440 && d.start < d.end ==> d.end <= bars@.len(),
    ensures
        r == indexed_day(bars@, d, open_mins, close_mins),
{
    if close_mins > 1440 {
        return DayMeta { sess_start: d.start, sess_end: d.end, ..d };
    }
    let mut s: usize = d.end;
    let mut e: usize = d.start;
    let mut i: usize = d.start;
    let ghost first = first_inside(
        bars@,
        d.start as int,
        d.end as int,
        open_mins,
        close_mins,
    );
    while i < d.end
        invariant
            close_mins <= 1440 && d.start < d.end ==> d.end <= bars@.len(),
            close_mins <= 1440,
            d.start <= i,
            d.start < d.end ==> i <= d.end,
            first == first_inside(
                bars@,
                d.start as int,
                d.end as int,
                open_mins,
                close_mins,
            ),
            s == d.end ==> first == first_inside(
                bars@,
                i as int,
                d.end as int,
                open_mins,
                close_mins,
            ),
            s != d.end ==> s == first,
            e == past_last_inside(bars@, d.start as int, i as int, open_mins, close_mins),
        decreases d.end - i,
    {
        if in_session(bars[i].time_mins, open_mins, close_mins) {
            if s == d.end {
                s = i;
            }
            e = i + 1;
        }
        i = i + 1;
    }
    if s == d.end {
        DayMeta { sess_start: d.start, sess_end: d.start, ..d }
    } else {
        DayMeta { sess_start: s, sess_end: e, ..d }
    }
}

/// Populate `sess_start`/`sess_end` on every day: the half-open bar range that
/// lies inside the session.
///
/// Bars within a day are time-ordered, and for a non-wrapping session the
/// in-session bars therefore form one contiguous run, so a scan for the first
/// and last qualifying bar is exact. For wrapping sessions `rebuild_session_days`
/// has already trimmed each day to in-session bars only.
pub fn index_sessions(bars: &[Bar], days: &mut Vec<DayMeta>, open_mins: i32, close_mins: i32)
    requires
        close_mins <= 1440 ==> forall|k: int|
            0 <= k < old(days)@.len() && (#[trigger] old(days)@[k]).start < old(days)@[k].end
                ==> old(days)@[k].end <= bars@.len(),
    ensures
        final(days)@.len() == old(days)@.len(),
        forall|k: int|
            0 <= k < old(days)@.len() ==> #[trigger] final(days)@[k] == indexed_day(
                bars@,
                old(days)@[k],
                open_mins,
                close_mins,
            ),
{
    let ghost before = days@;
    let n: usize = days.len();
    let mut k: usize = 0;
    while k < n
        invariant
            n == before.len(),
            days@.len() == n,
            k <= n,
            close_mins <= 1440 ==> forall|j: int|
                0 <= j < n && (#[trigger] before[j]).start < before[j].end ==> before[j].end
                    <= bars@.len(),
            forall|j: int| k <= j < n ==> #[trigger] days@[j] == before[j],
            forall|j: int|
                0 <= j < k ==> #[trigger] days@[j] == indexed_day(
                    bars@,
                    before[j],
                    open_mins,
                    close_mins,
                ),
        decreases n - k,
    {
        let d: DayMeta = days[k];
        proof {
            assert(d == before[k as int]);
        }
        days.set(k, index_day(bars, d, open_mins, close_mins));
        k = k + 1;
    }
}

// ---------------------------------------------------------------------------
// What holds of the ranges
// ---------------------------------------------------------------------------

proof fn lemma_first_inside(
    bars: Seq<Bar>,
    i: int,
    e: int,
    open_mins: i32,
    close_mins: i32,
)
    requires
        i <= e,
    ensures
        ({
            let s = first_inside(bars, i, e, open_mins, close_mins);
            &&& i <= s <= e
            &&& s < e ==> inside(bars[s].time_mins, open_mins, close_mins)
            &&& forall|j: int| i <= j < s ==> !inside(#[trigger] bars[j].time_mins, open_mins, close_mins)
        }),
    decreases e - i,
{
    if i < e && !inside(bars[i].time_mins, open_mins, close_mins) {
        lemma_first_inside(bars, i + 1, e, open_mins, close_mins);
    }
}

proof fn lemma_past_last_inside(
    bars: Seq<Bar>,
    s: int,
    e: int,
    open_mins: i32,
    close_mins: i32,
)
    requires
        s <= e,
    ensures
        ({
            let p = past_last_inside(bars, s, e, open_mins, close_mins);
            &&& s <= p <= e
            &&& s < p ==> inside(bars[p - 1].time_mins, open_mins, close_mins)
            &&& forall|j: int| p <= j < e ==> !inside(#[trigger] bars[j].time_mins, open_mins, close_mins)
        }),
    decreases e - s,
{
    if s < e && !inside(bars[e - 1].time_mins, open_mins, close_mins) {
        lemma_past_last_inside(bars, s, e - 1, open_mins, close_mins);
    }
}

/// Whether the bars of a day are in the order of their times.
pub open spec fn time_ordered(bars: Seq<Bar>, d: DayMeta) -> bool {
    forall|i: int, j: int|
        d.start <= i <= j < d.end ==> (#[trigger] bars[i]).time_mins <= (
        #[trigger] bars[j]).time_mins
}

/// On a time-ordered day of a session that does not wrap, a bar of the day is in
/// the indexed range exactly when it is inside the session: the range neither
/// holds an overnight bar nor misses a session bar.
pub proof fn the_indexed_range_is_the_session(
    bars: Seq<Bar>,
    d: DayMeta,
    open_mins: i32,
    close_mins: i32,
    i: int,
)
    requires
        close_mins <= 1440,
        time_ordered(bars, d),
        d.start <= i < d.end,
    ensures
        ({
            let r = indexed_day(bars, d, open_mins, close_mins);
            inside(bars[i].time_mins, open_mins, close_mins) <==> r.sess_start <= i < r.sess_end
        }),
{
    let s = first_inside(bars, d.start as int, d.end as int, open_mins, close_mins);
    let p = past_last_inside(bars, d.start as int, d.end as int, open_mins, close_mins);
    lemma_first_inside(bars, d.start as int, d.end as int, open_mins, close_mins);
    lemma_past_last_inside(bars, d.start as int, d.end as int, open_mins, close_mins);
    if s < d.end {
        assert(p > s) by {
            if p <= s {
                assert(!inside(bars[s].time_mins, open_mins, close_mins));
            }
        }
        if s <= i < p {
            assert(bars[s].time_mins <= bars[i].time_mins);
            assert(bars[i].time_mins <= bars[p - 1].time_mins);
        }
    }
}

/// The indexed range of a day lies within the day.
pub proof fn the_indexed_range_lies_in_the_day(
    bars: Seq<Bar>,
    d: DayMeta,
    open_mins: i32,
    close_mins: i32,
)
    requires
        d.start <= d.end,
    ensures
        ({
            let r = indexed_day(bars, d, open_mins, close_mins);
            &&& d.start <= r.sess_start <= r.sess_end <= d.end
            &&& r.start == d.start && r.end == d.end
            &&& r.year == d.year && r.date_code == d.date_code
        }),
{
    lemma_first_inside(bars, d.start as int, d.end as int, open_mins, close_mins);
    lemma_past_last_inside(bars, d.start as int, d.end as int, open_mins, close_mins);
    let s = first_inside(bars, d.start as int, d.end as int, open_mins, close_mins);
    let p = past_last_inside(bars, d.start as int, d.end as int, open_mins, close_mins);
    if s < d.end && p <= s {
        assert(!inside(bars[s].time_mins, open_mins, close_mins));
    }
}

pub(crate) proof fn lemma_run_end(
    bars: Seq<Bar>,
    days: Seq<DayMeta>,
    open_mins: i32,
    close_mins: i32,
    i: int,
)
    requires
        i <= bars.len(),
    ensures
        ({
            let e = run_end(bars, days, open_mins, close_mins, i);
            &&& i <= e <= bars.len()
            &&& forall|j: int|
                i <= j < e ==> inside((#[trigger] bars[j]).time_mins, open_mins, close_mins)
                    && !session_begins(bars, days, open_mins, close_mins, j)
            &&& e < bars.len() ==> !inside(bars[e].time_mins, open_mins, close_mins)
                || session_begins(bars, days, open_mins, close_mins, e)
        }),
    decreases bars.len() - i,
{
    if i < bars.len() && inside(bars[i].time_mins, open_mins, close_mins) && !session_begins(
        bars,
        days,
        open_mins,
        close_mins,
        i,
    ) {
        lemma_run_end(bars, days, open_mins, close_mins, i + 1);
    }
}

proof fn lemma_beginnings_begin(
    bars: Seq<Bar>,
    days: Seq<DayMeta>,
    open_mins: i32,
    close_mins: i32,
    n: int,
    k: int,
)
    requires
        0 <= n,
        0 <= k < beginnings(bars, days, open_mins, close_mins, n).len(),
    ensures
        ({
            let s = beginnings(bars, days, open_mins, close_mins, n)[k];
            0 <= s < n && session_begins(bars, days, open_mins, close_mins, s)
        }),
    decreases n,
{
    if n > 0 {
        let before = beginnings(bars, days, open_mins, close_mins, n - 1);
        if k < before.len() {
            lemma_beginnings_begin(bars, days, open_mins, close_mins, n - 1, k);
        }
    }
}

/// A rebuilt session-day is not empty, holds only bars inside the session, and
/// has no calendar gap in it.
pub proof fn a_rebuilt_day_is_one_session(
    bars: Seq<Bar>,
    days: Seq<DayMeta>,
    open_mins: i32,
    close_mins: i32,
    k: int,
)
    requires
        bars.len() <= usize::MAX,
        0 <= k < session_days(bars, days, open_mins, close_mins).len(),
    ensures
        ({
            let d = session_days(bars, days, open_mins, close_mins)[k];
            &&& d.start < d.end <= bars.len()
            &&& d.sess_start == d.start && d.sess_end == d.end
            &&& forall|i: int|
                d.start <= i < d.end ==> inside(
                    (#[trigger] bars[i]).time_mins,
                    open_mins,
                    close_mins,
                )
            &&& forall|i: int|
                d.start < i < d.end ==> !#[trigger] gap_before(bars, days, i)
        }),
{
    lemma_beginnings_begin(bars, days, open_mins, close_mins, bars.len() as int, k);
    let s = beginnings(bars, days, open_mins, close_mins, bars.len() as int)[k];
    lemma_run_end(bars, days, open_mins, close_mins, s + 1);
    let d = session_days(bars, days, open_mins, close_mins)[k];
    assert forall|i: int| d.start < i < d.end implies !#[trigger] gap_before(bars, days, i) by {
        assert(inside(bars[i].time_mins, open_mins, close_mins));
        assert(!session_begins(bars, days, open_mins, close_mins, i));
    }
}

proof fn lemma_beginnings_ascend(
    bars: Seq<Bar>,
    days: Seq<DayMeta>,
    open_mins: i32,
    close_mins: i32,
    n: int,
    k: int,
    l: int,
)
    requires
        0 <= n,
        0 <= k < l < beginnings(bars, days, open_mins, close_mins, n).len(),
    ensures
        beginnings(bars, days, open_mins, close_mins, n)[k] < beginnings(
            bars,
            days,
            open_mins,
            close_mins,
            n,
        )[l],
    decreases n,
{
    if n > 0 {
        let before = beginnings(bars, days, open_mins, close_mins, n - 1);
        if l < before.len() {
            lemma_beginnings_ascend(bars, days, open_mins, close_mins, n - 1, k, l);
        } else {
            lemma_beginnings_begin(bars, days, open_mins, close_mins, n - 1, k);
        }
    }
}

/// Rebuilt session-days do not overlap and stand in the order of their bars.
pub proof fn rebuilt_days_do_not_overlap(
    bars: Seq<Bar>,
    days: Seq<DayMeta>,
    open_mins: i32,
    close_mins: i32,
    k: int,
    l: int,
)
    requires
        bars.len() <= usize::MAX,
        0 <= k < l < session_days(bars, days, open_mins, close_mins).len(),
    ensures
        session_days(bars, days, open_mins, close_mins)[k].end <= session_days(
            bars,
            days,
            open_mins,
            close_mins,
        )[l].start,
{
    let n = bars.len() as int;
    let b = beginnings(bars, days, open_mins, close_mins, n);
    lemma_beginnings_begin(bars, days, open_mins, close_mins, n, k);
    lemma_beginnings_begin(bars, days, open_mins, close_mins, n, l);
    lemma_beginnings_ascend(bars, days, open_mins, close_mins, n, k, l);
    lemma_run_end(bars, days, open_mins, close_mins, b[k] + 1);
    let e = run_end(bars, days, open_mins, close_mins, b[k] + 1);
    if e > b[l] {
        assert(inside(bars[b[l]].time_mins, open_mins, close_mins));
        assert(!session_begins(bars, days, open_mins, close_mins, b[l]));
    }
}

} // verus!
