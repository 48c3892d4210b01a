//! The opening-range-breakout backtest.
//!
//! Every scan is bounded to `DayMeta::sess_start .. sess_end`: a bar outside the
//! session is never read. A wick-break entry whose own bar also trades through
//! the stop is recorded as a losing trade.

use std::collections::HashMap;

use vstd::prelude::*;

use crate::features::{day_eligible, eligible};
use crate::num::sorted_distinct;
use crate::text::same_text;
use crate::types::{
    Bar, BiasMode, DayMeta, EntryMode, ExitMode, InstCfg, RawTrade, MAX_OR_TICKS, MAX_PNL, MAX_PRICE,
    MIN_OR_TICKS,
};

verus! {

/// Minutes elapsed since the session opened, wrapping past midnight.
pub open spec fn since_open(t_mins: int, open_mins: int) -> int {
    (t_mins - open_mins) % 1440
}

/// Minutes elapsed since the session opened, wrapping past midnight.
///
/// Monotonic across a session even when it spans midnight, which makes one
/// comparison work for both wrapped and non-wrapped sessions. Comparing raw
/// `time_mins` against `close_mins` would never fire for a wrapped session,
/// because `close_mins` there exceeds 1440 and `time_mins` never does.
pub fn mins_since_open(t_mins: i32, open_mins: i32) -> (r: i32)
    ensures
        r == since_open(t_mins as int, open_mins as int),
        0 <= r < 1440,
{
    let d: i64 = t_mins as i64 - open_mins as i64;
    if d >= 0 {
        (d % 1440) as i32
    } else {
        let back: i64 = (-d) % 1440;
        if back == 0 {
            0
        } else {
            (1440 - back) as i32
        }
    }
}

/// The minute of the day that comes `a` minutes after the open is `a` minutes
/// since the open, also past midnight: later minutes of a session count higher.
pub proof fn minutes_count_up_from_the_open(a: int, b: int, open_mins: int)
    requires
        0 <= a <= b < 1440,
    ensures
        since_open((open_mins + a) % 1440, open_mins) == a,
        since_open((open_mins + a) % 1440, open_mins) <= since_open(
            (open_mins + b) % 1440,
            open_mins,
        ),
{
}

// ---------------------------------------------------------------------------
// Opening range
// ---------------------------------------------------------------------------

/// High and low of the bars in `s..e` that fall in the first `w` minutes of the
/// session, if there are any.
pub open spec fn opening_range(
    bars: Seq<Bar>,
    s: int,
    e: int,
    open_mins: int,
    w: int,
) -> Option<(i64, i64)>
    decreases e - s,
{
    if e <= s {
        None
    } else {
        let before = opening_range(bars, s, e - 1, open_mins, w);
        let b = bars[e - 1];
        if since_open(b.time_mins as int, open_mins) < w {
            match before {
                Some((hi, lo)) => Some(
                    (
                        if b.high > hi {
                            b.high
                        } else {
                            hi
                        },
                        if b.low < lo {
                            b.low
                        } else {
                            lo
                        },
                    ),
                ),
                None => Some((b.high, b.low)),
            }
        } else {
            before
        }
    }
}

/// The first bar from `i` on, before `e`, past the first `w` minutes of the
/// session.
pub open spec fn first_post(
    bars: Seq<Bar>,
    i: int,
    e: int,
    open_mins: int,
    w: int,
) -> Option<usize>
    decreases e - i,
{
    if i >= e {
        None
    } else if since_open(bars[i].time_mins as int, open_mins) >= w {
        Some(i as usize)
    } else {
        first_post(bars, i + 1, e, open_mins, w)
    }
}

/// Closes of the bars in `s..e` that fall in the first `w` minutes.
pub open spec fn opening_closes(
    bars: Seq<Bar>,
    s: int,
    e: int,
    open_mins: int,
    w: int,
) -> Seq<i64>
    decreases e - s,
{
    if e <= s {
        Seq::empty()
    } else {
        let before = opening_closes(bars, s, e - 1, open_mins, w);
        if since_open(bars[e - 1].time_mins as int, open_mins) < w {
            before.push(bars[e - 1].close)
        } else {
            before
        }
    }
}

/// What one day offers to one window length.
#[derive(Clone, Copy, Debug)]
pub struct DayRow {
    /// High and low of the opening range, if any bar falls in it.
    pub range: Option<(i64, i64)>,
    /// Sample entropy of the range's closes, in trillionths; `None` where there is
    /// none.
    pub entropy: Option<i64>,
    /// First session bar after the opening range.
    pub post: Option<usize>,
}

/// The row of a day, its entropy left unmeasured.
pub open spec fn day_row(bars: Seq<Bar>, day: DayMeta, inst: InstCfg, w: i32) -> DayRow {
    DayRow {
        range: opening_range(
            bars,
            day.sess_start as int,
            day.sess_end as int,
            inst.open_mins as int,
            w as int,
        ),
        entropy: None,
        post: first_post(
            bars,
            day.sess_start as int,
            day.sess_end as int,
            inst.open_mins as int,
            w as int,
        ),
    }
}

/// Whether every session range lies within the bars.
pub open spec fn sessions_fit(bars: Seq<Bar>, days: Seq<DayMeta>) -> bool {
    forall|d: int|
        0 <= d < days.len() && (#[trigger] days[d]).sess_start < days[d].sess_end
            ==> days[d].sess_end <= bars.len()
}

fn build_row(bars: &[Bar], day: &DayMeta, inst: &InstCfg, w: i32) -> (r: DayRow)
    requires
        day.sess_start < day.sess_end ==> day.sess_end <= bars@.len(),
    ensures
        r == day_row(bars@, *day, *inst, w),
{
    let s: usize = day.sess_start;
    let e: usize = day.sess_end;
    let mut range: Option<(i64, i64)> = None;
    let mut post: Option<usize> = None;
    let mut i: usize = s;
    let ghost om = inst.open_mins as int;
    while i < e
        invariant
            s < e ==> e <= bars@.len(),
            s <= i,
            s < e ==> i <= e,
            s >= e ==> i == s,
            om == inst.open_mins,
            range == opening_range(bars@, s as int, i as int, om, w as int),
            match post {
                Some(k) => first_post(bars@, s as int, e as int, om, w as int) == Some(k),
                None => first_post(bars@, s as int, e as int, om, w as int) == first_post(
                    bars@,
                    i as int,
                    e as int,
                    om,
                    w as int,
                ),
            },
        decreases e - i,
    {
        let b: Bar = bars[i];
        let m: i32 = mins_since_open(b.time_mins, inst.open_mins);
        if m < w {
            range = match range {
                Some((hi, lo)) => Some(
                    (
                        if b.high > hi {
                            b.high
                        } else {
                            hi
                        },
                        if b.low < lo {
                            b.low
                        } else {
                            lo
                        },
                    ),
                ),
                None => Some((b.high, b.low)),
            };
        } else {
            if post.is_none() {
                post = Some(i);
            }
        }
        i = i + 1;
    }
    DayRow { range, entropy: None, post }
}

/// Closes of a day's opening range, in order.
pub fn range_closes(bars: &[Bar], day: &DayMeta, inst: &InstCfg, w: i32) -> (r: Vec<i64>)
    requires
        day.sess_start < day.sess_end ==> day.sess_end <= bars@.len(),
    ensures
        r@ == opening_closes(
            bars@,
            day.sess_start as int,
            day.sess_end as int,
            inst.open_mins as int,
            w as int,
        ),
{
    let s: usize = day.sess_start;
    let e: usize = day.sess_end;
    let mut r: Vec<i64> = Vec::new();
    let mut i: usize = s;
    while i < e
        invariant
            s < e ==> e <= bars@.len(),
            s <= i,
            s < e ==> i <= e,
            s >= e ==> i == s,
            r@ == opening_closes(bars@, s as int, i as int, inst.open_mins as int, w as int),
        decreases e - i,
    {
        if mins_since_open(bars[i].time_mins, inst.open_mins) < w {
            r.push(bars[i].close);
        }
        i = i + 1;
    }
    r
}

/// Per-(window, day) precomputation.
///
/// The opening range, its entropy and the first post-range bar depend only on
/// the window length and the day, not on the target multiple, direction, exit
/// mode, filter thresholds or regime, so they are computed once instead of once
/// per grid cell.
pub struct DayCache {
    pub windows: Vec<i32>,
    pub n_days: usize,
    /// For each window, one row a day.
    pub rows: Vec<Vec<DayRow>>,
}

impl DayCache {
    /// One row of every day for every window, the windows distinct and ascending.
    pub open spec fn wf(self) -> bool {
        &&& self.rows@.len() == self.windows@.len()
        &&& forall|wi: int|
            0 <= wi < self.rows@.len() ==> (#[trigger] self.rows@[wi])@.len() == self.n_days
        &&& forall|i: int, j: int| 0 <= i < j < self.windows@.len() ==> self.windows@[i] < self.windows@[j]
    }

    /// The rows of one window.
    pub open spec fn rows_of(self, wi: int) -> Seq<DayRow> {
        self.rows@[wi]@
    }

    /// The position of a window.
    pub open spec fn index_of(self, w: i32) -> int {
        self.windows@.index_of(w)
    }

    /// Precompute every day for every window length.
    pub fn build(bars: &[Bar], days: &[DayMeta], inst: &InstCfg, windows: Vec<i32>) -> (r: Self)
        requires
            sessions_fit(bars@, days@),
        ensures
            r.wf(),
            r.n_days == days@.len(),
            forall|i: int, j: int| 0 <= i < j < r.windows@.len() ==> r.windows@[i] < r.windows@[j],
            forall|w: i32| r.windows@.contains(w) <==> windows@.contains(w),
            forall|wi: int|
                0 <= wi < r.windows@.len() ==> #[trigger] r.rows_of(wi) =~= Seq::new(
                    days@.len(),
                    |d: int| day_row(bars@, days@[d], *inst, r.windows@[wi]),
                ),
    {
        let windows: Vec<i32> = sorted_distinct(&windows);
        let n_days: usize = days.len();
        let mut rows: Vec<Vec<DayRow>> = Vec::new();
        let mut wi: usize = 0;
        while wi < windows.len()
            invariant
                sessions_fit(bars@, days@),
                n_days == days@.len(),
                wi <= windows@.len(),
                rows@.len() == wi,
                forall|k: int|
                    0 <= k < wi ==> (#[trigger] rows@[k])@ =~= Seq::new(
                        days@.len(),
                        |d: int| day_row(bars@, days@[d], *inst, windows@[k]),
                    ),
            decreases windows@.len() - wi,
        {
            let w: i32 = windows[wi];
            let mut row: Vec<DayRow> = Vec::new();
            let mut d: usize = 0;
            while d < n_days
                invariant
                    sessions_fit(bars@, days@),
                    n_days == days@.len(),
                    d <= n_days,
                    row@.len() == d,
                    forall|k: int|
                        0 <= k < d ==> #[trigger] row@[k] == day_row(bars@, days@[k], *inst, w),
                decreases n_days - d,
            {
                row.push(build_row(bars, &days[d], inst, w));
                d = d + 1;
            }
            rows.push(row);
            wi = wi + 1;
        }
        DayCache { windows, n_days, rows }
    }

    /// The position of a precomputed window.
    pub fn window_index(&self, w: i32) -> (r: usize)
        requires
            self.wf(),
            self.windows@.contains(w),
        ensures
            r == self.index_of(w),
            r < self.windows@.len(),
            self.windows@[r as int] == w,
    {
        match self.find_window(w) {
            Some(i) => i,
            None => 0,
        }
    }

    /// The position of a window, or `None` where it was not precomputed.
    pub fn find_window(&self, w: i32) -> (r: Option<usize>)
        requires
            self.wf(),
        ensures
            match r {
                Some(i) => i < self.windows@.len() && self.windows@[i as int] == w && i
                    == self.index_of(w),
                None => !self.windows@.contains(w),
            },
    {
        let mut i: usize = 0;
        while i < self.windows.len()
            invariant
                self.wf(),
                i <= self.windows@.len(),
                forall|j: int| 0 <= j < i ==> self.windows@[j] != w,
            decreases self.windows@.len() - i,
        {
            if self.windows[i] == w {
                proof {
                    assert(self.windows@.contains(w));
                    let k = self.windows@.index_of(w);
                    assert(self.windows@[k] == w);
                    if k > i {
                        assert(self.windows@[i as int] < self.windows@[k]);
                    }
                }
                return Some(i);
            }
            i = i + 1;
        }
        None
    }

    /// Opening range, entropy and first post-range bar of a day.
    pub fn get(&self, wi: usize, d: usize) -> (r: DayRow)
        requires
            self.wf(),
            wi < self.windows@.len(),
            d < self.n_days,
        ensures
            r == self.rows_of(wi as int)[d as int],
            self.rows_of(wi as int).len() == self.n_days,
    {
        self.rows[wi][d]
    }

    /// Record the sample entropy of a range's closes, in trillionths.
    pub fn set_entropy(&mut self, wi: usize, d: usize, entropy: Option<i64>)
        requires
            old(self).wf(),
            wi < old(self).windows@.len(),
            d < old(self).n_days,
        ensures
            final(self).wf(),
            final(self).windows@ == old(self).windows@,
            final(self).n_days == old(self).n_days,
            forall|k: int|
                0 <= k < old(self).windows@.len() ==> #[trigger] final(self).rows_of(k) == if k
                    == wi {
                    old(self).rows_of(k).update(
                        d as int,
                        DayRow { entropy, ..old(self).rows_of(k)[d as int] },
                    )
                } else {
                    old(self).rows_of(k)
                },
    {
        let row: DayRow = self.rows[wi][d];
        self.rows[wi].set(d, DayRow { entropy, ..row });
    }
}

// ---------------------------------------------------------------------------
// Years
// ---------------------------------------------------------------------------

/// Whether `spans` holds for each year of `days`, and for no other, the first
/// day of the year and the day after its last.
pub open spec fn spans_years(spans: Map<i32, (usize, usize)>, days: Seq<DayMeta>) -> bool {
    &&& forall|d: int| 0 <= d < days.len() ==> spans.contains_key((#[trigger] days[d]).year)
    &&& forall|y: i32| #[trigger]
        spans.contains_key(y) ==> {
            let (a, b) = spans[y];
            &&& a < b <= days.len()
            &&& days[a as int].year == y
            &&& days[b - 1].year == y
            &&& forall|d: int|
                0 <= d < days.len() && (#[trigger] days[d]).year == y ==> a <= d < b
        }
}

/// First and last day index (half-open) for each calendar year.
///
/// Days are chronological, so each year occupies a contiguous span. Looking the
/// span up beats re-scanning all days inside every fold.
pub fn year_spans(days: &[DayMeta]) -> (r: HashMap<i32, (usize, usize)>)
    ensures
        spans_years(r@, days@),
{
    broadcast use vstd::std_specs::hash::group_hash_axioms;

    let mut m: HashMap<i32, (usize, usize)> = HashMap::new();
    let mut d: usize = 0;
    while d < days.len()
        invariant
            d <= days@.len(),
            spans_years(m@, days@.take(d as int)),
        decreases days@.len() - d,
    {
        let y: i32 = days[d].year;
        let first: usize = match m.get(&y) {
            Some(span) => span.0,
            None => d,
        };
        let ghost before = m@;
        m.insert(y, (first, d + 1));
        proof {
            let now = days@.take(d + 1);
            let past = days@.take(d as int);
            assert forall|k: int| 0 <= k < now.len() implies m@.contains_key(
                (#[trigger] now[k]).year,
            ) by {
                if k < d {
                    assert(now[k] == past[k]);
                }
            }
            assert forall|z: i32| #[trigger] m@.contains_key(z) implies ({
                let (a, b) = m@[z];
                &&& a < b <= now.len()
                &&& now[a as int].year == z
                &&& now[b - 1].year == z
                &&& forall|k: int|
                    0 <= k < now.len() && (#[trigger] now[k]).year == z ==> a <= k < b
            }) by {
                let (a, b) = m@[z];
                if z == y {
                    if before.contains_key(y) {
                        assert(past[a as int].year == y);
                    }
                } else {
                    assert(before.contains_key(z));
                    assert(past[b - 1].year == z);
                }
                assert forall|k: int|
                    0 <= k < now.len() && (#[trigger] now[k]).year == z implies a <= k < b by {
                    if k < d {
                        assert(past[k] == now[k]);
                        assert(before.contains_key(z));
                    }
                }
            }
        }
        d = d + 1;
    }
    proof {
        assert(days@.take(days@.len() as int) == days@);
    }
    m
}

/// The smallest span that covers the spans of the years `ymin..=ymax`.
pub open spec fn covering(
    spans: Map<i32, (usize, usize)>,
    ymin: int,
    ymax: int,
) -> Option<(usize, usize)>
    decreases ymax - ymin + 1,
{
    if ymax < ymin {
        None
    } else {
        let rest = covering(spans, ymin, ymax - 1);
        let y = ymax as i32;
        if spans.contains_key(y) {
            match rest {
                None => Some(spans[y]),
                Some((lo, hi)) => Some(
                    (
                        if spans[y].0 < lo {
                            spans[y].0
                        } else {
                            lo
                        },
                        if spans[y].1 > hi {
                            spans[y].1
                        } else {
                            hi
                        },
                    ),
                ),
            }
        } else {
            rest
        }
    }
}

/// The day span of a range of years, empty where it holds none.
pub open spec fn year_range_span(
    spans: Map<i32, (usize, usize)>,
    ymin: int,
    ymax: int,
) -> (usize, usize) {
    match covering(spans, ymin, ymax) {
        Some((lo, hi)) => if lo == usize::MAX {
            (0, 0)
        } else {
            (lo, hi)
        },
        None => (0, 0),
    }
}

/// Day-index span covering an inclusive year range.
pub fn span_for_years(spans: &HashMap<i32, (usize, usize)>, ymin: i32, ymax: i32) -> (r: (
    usize,
    usize,
))
    ensures
        r == year_range_span(spans@, ymin as int, ymax as int),
{
    broadcast use vstd::std_specs::hash::group_hash_axioms;

    let mut cover: Option<(usize, usize)> = None;
    let mut y: i64 = ymin as i64;
    while y <= ymax as i64
        invariant
            ymin <= y,
            y <= ymax + 1 || y == ymin,
            cover == covering(spans@, ymin as int, y - 1),
        decreases ymax - y + 1,
    {
        let key: i32 = y as i32;
        match spans.get(&key) {
            Some(span) => {
                let (a, b): (usize, usize) = *span;
                cover = match cover {
                    None => Some((a, b)),
                    Some((lo, hi)) => Some(
                        (
                            if a < lo {
                                a
                            } else {
                                lo
                            },
                            if b > hi {
                                b
                            } else {
                                hi
                            },
                        ),
                    ),
                };
            },
            None => {},
        }
        y = y + 1;
    }
    match cover {
        Some((lo, hi)) => if lo == usize::MAX {
            (0, 0)
        } else {
            (lo, hi)
        },
        None => (0, 0),
    }
}

/// Whether the years of the days never go back.
pub open spec fn chronological(days: Seq<DayMeta>) -> bool {
    forall|i: int, j: int|
        0 <= i <= j < days.len() ==> (#[trigger] days[i]).year <= (#[trigger] days[j]).year
}

proof fn lemma_covering(
    spans: Map<i32, (usize, usize)>,
    days: Seq<DayMeta>,
    ymin: int,
    ymax: int,
)
    requires
        chronological(days),
        spans_years(spans, days),
        i32::MIN <= ymin,
        ymax <= i32::MAX,
    ensures
        match covering(spans, ymin, ymax) {
            Some((lo, hi)) => lo < hi <= days.len() && forall|d: int|
                0 <= d < days.len() ==> (lo <= d < hi <==> ymin <= (#[trigger] days[d]).year
                    <= ymax),
            None => forall|d: int|
                0 <= d < days.len() ==> !(ymin <= (#[trigger] days[d]).year <= ymax),
        },
    decreases ymax - ymin + 1,
{
    if ymax >= ymin {
        lemma_covering(spans, days, ymin, ymax - 1);
        let y = ymax as i32;
        let rest = covering(spans, ymin, ymax - 1);
        if spans.contains_key(y) {
            let (a, b) = spans[y];
            assert(days[a as int].year == y);
            assert(days[b - 1].year == y);
            assert forall|d: int| 0 <= d < days.len() implies (a <= d < b <==> (
            #[trigger] days[d]).year == y) by {
                if a <= d < b {
                    assert(days[a as int].year <= days[d].year);
                    assert(days[d].year <= days[b - 1].year);
                }
            }
            if let Some((lo, hi)) = rest {
                assert(days[lo as int].year <= ymax - 1);
                assert(days[hi - 1].year <= ymax - 1);
                assert(hi <= a) by {
                    if hi > a {
                        if lo <= a {
                            assert(days[a as int].year <= ymax - 1);
                        } else {
                            assert(days[a as int].year <= days[lo as int].year);
                        }
                    }
                }
                assert forall|d: int| hi <= d < a implies (#[trigger] days[d]).year > ymax by {
                    assert(days[hi - 1].year <= days[d].year);
                    assert(days[hi - 1].year >= ymin);
                    assert(days[d].year <= days[a as int].year);
                }
            }
        } else {
            assert forall|d: int| 0 <= d < days.len() implies (#[trigger] days[d]).year != y by {
                assert(spans.contains_key(days[d].year));
            }
        }
    }
}

/// On chronological days, the span of a year range holds exactly the days of
/// those years.
pub proof fn a_year_span_holds_exactly_its_years(
    spans: Map<i32, (usize, usize)>,
    days: Seq<DayMeta>,
    ymin: i32,
    ymax: i32,
    d: int,
)
    requires
        chronological(days),
        spans_years(spans, days),
        days.len() <= usize::MAX,
        0 <= d < days.len(),
    ensures
        ({
            let (lo, hi) = year_range_span(spans, ymin as int, ymax as int);
            lo <= d < hi <==> ymin <= days[d].year <= ymax
        }),
{
    lemma_covering(spans, days, ymin as int, ymax as int);
}

// ---------------------------------------------------------------------------
// One direction of one day
// ---------------------------------------------------------------------------

/// What one direction of one day trades on. Levels and distances marked fine are
/// in hundredths of a price unit.
#[derive(Clone, Copy, Debug)]
pub struct Side {
    pub is_long: bool,
    pub entry_mode: EntryMode,
    /// Fine level whose break enters the trade.
    pub level: i64,
    /// Price that stops the trade out.
    pub stop: i64,
    /// Fine distance from entry to target.
    pub reach: i64,
}

/// Largest fine level or distance that profit arithmetic admits.
pub const MAX_FINE: i64 = 3_000_000_000_000;

impl Side {
    pub open spec fn in_range(self) -> bool {
        &&& -MAX_FINE <= self.level <= MAX_FINE
        &&& -MAX_PRICE <= self.stop <= MAX_PRICE
        &&& -MAX_FINE <= self.reach <= MAX_FINE
    }
}

/// A price on the fine scale.
pub open spec fn fine(price: i64) -> int {
    100 * price
}

/// Whether a fine price has broken the level.
pub open spec fn beyond(side: Side, x: int) -> bool {
    if side.is_long {
        x > side.level
    } else {
        x < side.level
    }
}

/// Whether bar `i` enters a trade: its wick breaks the level, or its close does
/// and the close before, within the slice that begins at `lo`, did not.
pub open spec fn triggers(bars: Seq<Bar>, lo: int, i: int, side: Side) -> bool {
    match side.entry_mode {
        EntryMode::WickBreak => beyond(
            side,
            if side.is_long {
                fine(bars[i].high)
            } else {
                fine(bars[i].low)
            },
        ),
        EntryMode::CloseCross => beyond(side, fine(bars[i].close)) && (i == lo || !beyond(
            side,
            fine(bars[i - 1].close),
        )),
    }
}

/// The first bar from `i` on, before `hi`, that enters a trade.
pub open spec fn entry_bar(bars: Seq<Bar>, lo: int, i: int, hi: int, side: Side) -> Option<int>
    decreases hi - i,
{
    if i >= hi {
        None
    } else if triggers(bars, lo, i, side) {
        Some(i)
    } else {
        entry_bar(bars, lo, i + 1, hi, side)
    }
}

/// The fine price of an entry at bar `i`: the level, or the close.
pub open spec fn entry_price(bars: Seq<Bar>, i: int, side: Side) -> int {
    match side.entry_mode {
        EntryMode::WickBreak => side.level as int,
        EntryMode::CloseCross => fine(bars[i].close),
    }
}

/// Whether a bar trades through the stop.
pub open spec fn stops(b: Bar, side: Side) -> bool {
    if side.is_long {
        b.low <= side.stop
    } else {
        b.high >= side.stop
    }
}

/// The fine target price of a trade.
pub open spec fn target_price(entry: int, side: Side) -> int {
    if side.is_long {
        entry + side.reach
    } else {
        entry - side.reach
    }
}

/// Whether a bar reaches the target.
pub open spec fn targets(b: Bar, entry: int, side: Side) -> bool {
    if side.is_long {
        fine(b.high) >= target_price(entry, side)
    } else {
        fine(b.low) <= target_price(entry, side)
    }
}

/// The fine exit price of a trade that is open from bar `i` on: the stop where
/// a bar trades through it first, else the target, else the last close of the
/// slice.
pub open spec fn exit_price(bars: Seq<Bar>, i: int, hi: int, entry: int, side: Side) -> int
    decreases hi - i,
{
    if i >= hi {
        fine(bars[hi - 1].close)
    } else if stops(bars[i], side) {
        fine(side.stop)
    } else if targets(bars[i], entry, side) {
        target_price(entry, side)
    } else {
        exit_price(bars, i + 1, hi, entry, side)
    }
}

/// A fine price, or the target where the price is beyond it.
pub open spec fn up_to_target(x: int, entry: int, side: Side) -> int {
    let target = target_price(entry, side);
    if side.is_long && x > target || !side.is_long && x < target {
        target
    } else {
        x
    }
}

/// The fine exit price of a trade entered at bar `i`. A wick-break entry whose
/// own bar trades through the stop exits there: the sequence within the bar is
/// unknowable, so the adverse one is taken. One on the last bar exits at its
/// close, or at the target where the close is beyond it.
pub open spec fn outcome_price(bars: Seq<Bar>, i: int, hi: int, side: Side) -> int {
    if side.entry_mode == EntryMode::WickBreak && stops(bars[i], side) {
        fine(side.stop)
    } else if side.entry_mode == EntryMode::WickBreak && i == hi - 1 {
        up_to_target(fine(bars[i].close), side.level as int, side)
    } else {
        exit_price(bars, i + 1, hi, entry_price(bars, i, side), side)
    }
}

/// Points gained from entry to exit, on the fine scale.
pub open spec fn gain(is_long: bool, entry: int, exit: int) -> int {
    if is_long {
        exit - entry
    } else {
        entry - exit
    }
}

/// What one direction of one day makes at one contract, in micro-dollars, where
/// it trades.
pub open spec fn side_profit(
    bars: Seq<Bar>,
    lo: int,
    hi: int,
    side: Side,
    pv: int,
    cost: int,
) -> Option<int> {
    match entry_bar(bars, lo, lo, hi, side) {
        None => None,
        Some(i) => Some(
            gain(side.is_long, entry_price(bars, i, side), outcome_price(bars, i, hi, side)) * pv
                - cost,
        ),
    }
}

/// Whether all bars have prices that profit arithmetic admits.
pub open spec fn bars_in_range(bars: Seq<Bar>) -> bool {
    forall|i: int| 0 <= i < bars.len() ==> (#[trigger] bars[i]).in_range()
}

fn breaks(bars: &[Bar], lo: usize, i: usize, side: &Side) -> (r: bool)
    requires
        lo <= i < bars@.len(),
        bars_in_range(bars@),
        side.in_range(),
    ensures
        r == triggers(bars@, lo as int, i as int, *side),
{
    let b: Bar = bars[i];
    proof {
        assert(bars@[i as int].in_range());
    }
    match side.entry_mode {
        EntryMode::WickBreak => if side.is_long {
            100 * b.high > side.level
        } else {
            100 * b.low < side.level
        },
        EntryMode::CloseCross => if i == lo {
            if side.is_long {
                100 * b.close > side.level
            } else {
                100 * b.close < side.level
            }
        } else {
            let pc: i64 = bars[i - 1].close;
            proof {
                assert(bars@[i - 1].in_range());
            }
            if side.is_long {
                100 * pc <= side.level && 100 * b.close > side.level
            } else {
                100 * pc >= side.level && 100 * b.close < side.level
            }
        },
    }
}

fn find_exit(bars: &[Bar], from: usize, hi: usize, entry: i64, side: &Side) -> (r: i64)
    requires
        0 < hi <= bars@.len(),
        from <= hi,
        bars_in_range(bars@),
        side.in_range(),
        -MAX_FINE <= entry <= MAX_FINE,
    ensures
        r == exit_price(bars@, from as int, hi as int, entry as int, *side),
        -MAX_FINE <= r <= MAX_FINE || r - entry == side.reach || entry - r == side.reach,
{
    let target: i64 = if side.is_long {
        entry + side.reach
    } else {
        entry - side.reach
    };
    let mut i: usize = from;
    while i < hi
        invariant
            0 < hi <= bars@.len(),
            i <= hi,
            bars_in_range(bars@),
            side.in_range(),
            -MAX_FINE <= entry <= MAX_FINE,
            target == target_price(entry as int, *side),
            exit_price(bars@, from as int, hi as int, entry as int, *side) == exit_price(
                bars@,
                i as int,
                hi as int,
                entry as int,
                *side,
            ),
        decreases hi - i,
    {
        let b: Bar = bars[i];
        proof {
            assert(bars@[i as int].in_range());
        }
        let hit_stop: bool = if side.is_long {
            b.low <= side.stop
        } else {
            b.high >= side.stop
        };
        if hit_stop {
            return 100 * side.stop;
        }
        let hit_target: bool = if side.is_long {
            100 * b.high >= target
        } else {
            100 * b.low <= target
        };
        if hit_target {
            return target;
        }
        i = i + 1;
    }
    // Ran out of session: exit at the session's closing price.
    proof {
        assert(bars@[hi - 1].in_range());
    }
    100 * bars[hi - 1].close
}

/// The close of the bar that a trade was entered in at its level, or the target
/// where the close is beyond it.
fn capped_close(close: i64, side: &Side) -> (r: i64)
    requires
        -MAX_PRICE <= close <= MAX_PRICE,
        side.in_range(),
    ensures
        r == up_to_target(fine(close), side.level as int, *side),
        -MAX_FINE <= r <= MAX_FINE || r - side.level == side.reach || side.level - r == side.reach,
{
    let x: i64 = 100 * close;
    let target: i64 = if side.is_long {
        side.level + side.reach
    } else {
        side.level - side.reach
    };
    if side.is_long && x > target || !side.is_long && x < target {
        target
    } else {
        x
    }
}

/// One direction for one day. `lo..hi` is the post-range slice of the session,
/// and nothing outside it is ever read.
fn run_side(
    bars: &[Bar],
    lo: usize,
    hi: usize,
    side: &Side,
    orr: i64,
    cost_1ct: i64,
    pv: i64,
    day_idx: usize,
) -> (r: Option<RawTrade>)
    requires
        lo <= hi <= bars@.len(),
        bars_in_range(bars@),
        side.in_range(),
        0 <= pv <= 10_000,
        -MAX_COST <= cost_1ct <= MAX_COST,
    ensures
        match r {
            Some(t) => {
                &&& side_profit(
                    bars@,
                    lo as int,
                    hi as int,
                    *side,
                    pv as int,
                    cost_1ct as int,
                ) == Some(t.pnl_1ct as int)
                &&& t.risk_1ct == orr
                &&& t.dir == if side.is_long {
                    0u8
                } else {
                    1u8
                }
                &&& t.day_idx == day_idx
            },
            None => side_profit(
                bars@,
                lo as int,
                hi as int,
                *side,
                pv as int,
                cost_1ct as int,
            ) is None,
        },
        r matches Some(t) ==> -MAX_PNL <= t.pnl_1ct <= MAX_PNL,
{
    let mut i: usize = lo;
    while i < hi
        invariant
            lo <= i <= hi <= bars@.len(),
            bars_in_range(bars@),
            side.in_range(),
            0 <= pv <= 10_000,
            -MAX_COST <= cost_1ct <= MAX_COST,
            entry_bar(bars@, lo as int, lo as int, hi as int, *side) == entry_bar(
                bars@,
                lo as int,
                i as int,
                hi as int,
                *side,
            ),
        decreases hi - i,
    {
        if breaks(bars, lo, i, side) {
            let b: Bar = bars[i];
            proof {
                assert(bars@[i as int].in_range());
            }
            let is_wick: bool = match side.entry_mode {
                EntryMode::WickBreak => true,
                EntryMode::CloseCross => false,
            };
            let (entry, swept): (i64, bool) = match side.entry_mode {
                EntryMode::WickBreak => (
                    side.level,
                    if side.is_long {
                        b.low <= side.stop
                    } else {
                        b.high >= side.stop
                    },
                ),
                // Filled on the close, so this bar's range is already history and
                // no same-bar stop is possible.
                EntryMode::CloseCross => (100 * b.close, false),
            };
            let exit: i64 = if swept {
                100 * side.stop
            } else if is_wick && i == hi - 1 {
                capped_close(b.close, side)
            } else {
                find_exit(bars, i + 1, hi, entry, side)
            };
            let points: i64 = if side.is_long {
                exit - entry
            } else {
                entry - exit
            };
            proof {
                assert(-60_000_000_000_000_000 <= points * pv <= 60_000_000_000_000_000)
                    by (nonlinear_arith)
                    requires
                        -6_000_000_000_000 <= points <= 6_000_000_000_000,
                        0 <= pv <= 10_000,
                ;
            }
            return Some(
                RawTrade {
                    pnl_1ct: points * pv - cost_1ct,
                    risk_1ct: orr,
                    dir: if side.is_long {
                        0
                    } else {
                        1
                    },
                    day_idx,
                },
            );
        }
        i = i + 1;
    }
    None
}

// ---------------------------------------------------------------------------
// The strategy over a span of days
// ---------------------------------------------------------------------------

/// Largest round-turn cost, in micro-dollars, that profit arithmetic admits.
pub const MAX_COST: i64 = 10_000_000_000_000_000;

/// Largest target multiple, in hundredths, that profit arithmetic admits.
pub const MAX_MULT: i64 = 10_000;

#[derive(Clone, Copy, Debug)]
pub struct BacktestParams<'a> {
    pub window: i32,
    /// Target multiple of the range under `FixedRR`, in hundredths.
    pub rr: i64,
    pub direction: &'a str,
    /// Round-turn cost in micro-dollars.
    pub cost_1ct: i64,
    /// Smallest Hurst exponent that trades, in trillionths; `None` when the filter
    /// is off.
    pub h_min: Option<i64>,
    /// Largest entropy that trades, in trillionths; `None` when the filter is off.
    pub e_max: Option<i64>,
    pub year_range: Option<(i32, i32)>,
    pub entry_mode: EntryMode,
    pub bias_mode: BiasMode,
    pub exit_mode: ExitMode,
    /// Bias offset and target multiple under `LuxTargets`, in hundredths.
    pub lux_tper: i64,
    pub vol_regime_filter: &'a str,
}

impl<'a> BacktestParams<'a> {
    pub open spec fn in_range(self) -> bool {
        &&& -MAX_MULT <= self.rr <= MAX_MULT
        &&& -MAX_MULT <= self.lux_tper <= MAX_MULT
        &&& -MAX_COST <= self.cost_1ct <= MAX_COST
    }

    pub open spec fn wants_long(self) -> bool {
        self.direction@ == "long"@ || self.direction@ == "both"@
    }

    pub open spec fn wants_short(self) -> bool {
        self.direction@ == "short"@ || self.direction@ == "both"@
    }

    /// The target multiple of the exit mode, in hundredths.
    pub open spec fn target_mult(self) -> int {
        match self.exit_mode {
            ExitMode::FixedRR => self.rr as int,
            ExitMode::LuxTargets => self.lux_tper as int,
        }
    }

    /// Whether the years asked for hold `year`.
    pub open spec fn year_fits(self, year: i32) -> bool {
        match self.year_range {
            Some((ymin, ymax)) => ymin <= year <= ymax,
            None => true,
        }
    }
}

/// Twice the midpoint of a day's range, where the day is in the years asked for
/// and has a range.
pub open spec fn double_mid(
    days: Seq<DayMeta>,
    rows: Seq<DayRow>,
    p: BacktestParams,
    d: int,
) -> Option<int> {
    if p.year_fits(days[d].year) {
        match rows[d].range {
            Some((hi, lo)) => Some(hi + lo),
            None => None,
        }
    } else {
        None
    }
}

/// Twice the midpoint of the latest day in `from..d` that has one.
pub open spec fn previous_double_mid(
    days: Seq<DayMeta>,
    rows: Seq<DayRow>,
    p: BacktestParams,
    from: int,
    d: int,
) -> Option<int>
    decreases d - from,
{
    if d <= from {
        None
    } else {
        match double_mid(days, rows, p, d - 1) {
            Some(m) => Some(m),
            None => previous_double_mid(days, rows, p, from, d - 1),
        }
    }
}

/// The direction of a day against the day before: 1 up, -1 down, 0 neither.
pub open spec fn day_direction(
    days: Seq<DayMeta>,
    rows: Seq<DayRow>,
    p: BacktestParams,
    from: int,
    d: int,
) -> int {
    match (double_mid(days, rows, p, d), previous_double_mid(days, rows, p, from, d)) {
        (Some(now), Some(then)) => if now > then {
            1
        } else if now < then {
            -1
        } else {
            0
        },
        _ => 0,
    }
}

/// Whether a measured value reaches a floor. One that could not be measured
/// does not.
pub open spec fn reaches(measured: Option<i64>, floor: Option<i64>) -> bool {
    match floor {
        Some(f) => match measured {
            Some(x) => x >= f,
            None => false,
        },
        None => true,
    }
}

/// Whether a measured value stays under a cap. One that could not be measured
/// does not.
pub open spec fn stays_under(measured: Option<i64>, cap: Option<i64>) -> bool {
    match cap {
        Some(c) => match measured {
            Some(x) => x <= c,
            None => false,
        },
        None => true,
    }
}

/// Whether a day trades: it is in the years asked for, its regime is eligible,
/// its range is between the tick bounds, it clears both filters, and at least
/// five session bars follow the range.
pub open spec fn trades_on(
    days: Seq<DayMeta>,
    inst: InstCfg,
    rows: Seq<DayRow>,
    p: BacktestParams,
    regimes: Seq<u8>,
    hurst: Seq<Option<i64>>,
    d: int,
) -> bool {
    &&& p.year_fits(days[d].year)
    &&& rows[d].range is Some
    &&& eligible(regimes[d], p.vol_regime_filter@)
    &&& ({
        let (hi, lo) = rows[d].range->0;
        MIN_OR_TICKS * inst.tick_size <= hi - lo <= MAX_OR_TICKS * inst.tick_size
    })
    &&& reaches(hurst[d], p.h_min)
    &&& stays_under(rows[d].entropy, p.e_max)
    &&& rows[d].post is Some
    &&& rows[d].post->0 + 5 <= days[d].sess_end
}

/// What a direction of a trading day trades on: a long side enters above the
/// range and stops at its low, a short side the other way; with the daily bias,
/// the side against the day's direction enters only beyond the offset.
pub open spec fn side_of(
    days: Seq<DayMeta>,
    rows: Seq<DayRow>,
    p: BacktestParams,
    from: int,
    d: int,
    is_long: bool,
) -> Side {
    let (hi, lo) = rows[d].range->0;
    let orr = hi - lo;
    let dir = day_direction(days, rows, p, from, d);
    let against = p.bias_mode == BiasMode::DailyBias && dir == if is_long {
        -1int
    } else {
        1int
    };
    let offset = if against {
        p.lux_tper * orr
    } else {
        0
    };
    Side {
        is_long,
        entry_mode: p.entry_mode,
        level: if is_long {
            (fine(hi) + offset) as i64
        } else {
            (fine(lo) - offset) as i64
        },
        stop: if is_long {
            lo
        } else {
            hi
        },
        reach: (p.target_mult() * orr) as i64,
    }
}

/// The trade of one direction of a day, if it makes one.
pub open spec fn side_trades(
    bars: Seq<Bar>,
    days: Seq<DayMeta>,
    inst: InstCfg,
    rows: Seq<DayRow>,
    p: BacktestParams,
    from: int,
    d: int,
    is_long: bool,
) -> Seq<RawTrade> {
    let (hi, lo) = rows[d].range->0;
    match side_profit(
        bars,
        rows[d].post->0 as int,
        days[d].sess_end as int,
        side_of(days, rows, p, from, d, is_long),
        inst.point_value as int,
        p.cost_1ct as int,
    ) {
        Some(pnl) => seq![
            RawTrade {
                pnl_1ct: pnl as i64,
                risk_1ct: (hi - lo) as i64,
                dir: if is_long {
                    0
                } else {
                    1
                },
                day_idx: d as usize,
            },
        ],
        None => Seq::empty(),
    }
}

/// The trades of one day.
pub open spec fn day_trades(
    bars: Seq<Bar>,
    days: Seq<DayMeta>,
    inst: InstCfg,
    rows: Seq<DayRow>,
    p: BacktestParams,
    regimes: Seq<u8>,
    hurst: Seq<Option<i64>>,
    from: int,
    d: int,
) -> Seq<RawTrade> {
    if trades_on(days, inst, rows, p, regimes, hurst, d) {
        (if p.wants_long() {
            side_trades(bars, days, inst, rows, p, from, d, true)
        } else {
            Seq::empty()
        }) + (if p.wants_short() {
            side_trades(bars, days, inst, rows, p, from, d, false)
        } else {
            Seq::empty()
        })
    } else {
        Seq::empty()
    }
}

/// The trades of the days `from..to`, in order.
pub open spec fn span_trades(
    bars: Seq<Bar>,
    days: Seq<DayMeta>,
    inst: InstCfg,
    rows: Seq<DayRow>,
    p: BacktestParams,
    regimes: Seq<u8>,
    hurst: Seq<Option<i64>>,
    from: int,
    to: int,
) -> Seq<RawTrade>
    decreases to - from,
{
    if to <= from {
        Seq::empty()
    } else {
        span_trades(bars, days, inst, rows, p, regimes, hurst, from, to - 1) + day_trades(
            bars,
            days,
            inst,
            rows,
            p,
            regimes,
            hurst,
            from,
            to - 1,
        )
    }
}

/// Whether every session range ends within the bars.
pub open spec fn sessions_end_within(bars: Seq<Bar>, days: Seq<DayMeta>) -> bool {
    forall|d: int| 0 <= d < days.len() ==> (#[trigger] days[d]).sess_end <= bars.len()
}

/// Whether all ranges have prices that profit arithmetic admits.
pub open spec fn ranges_in_range(rows: Seq<DayRow>) -> bool {
    forall|d: int|
        0 <= d < rows.len() ==> match (#[trigger] rows[d]).range {
            Some((hi, lo)) => -MAX_PRICE <= hi <= MAX_PRICE && -MAX_PRICE <= lo <= MAX_PRICE,
            None => true,
        }
}

/// A distance of `mult` hundredths of the range, on the fine scale.
fn scale(mult: i64, orr: i64) -> (r: i64)
    requires
        -MAX_MULT <= mult <= MAX_MULT,
        -200_000_000 <= orr <= 200_000_000,
    ensures
        r == mult * orr,
        -2_000_000_000_000 <= r <= 2_000_000_000_000,
{
    proof {
        assert(-2_000_000_000_000 <= mult * orr <= 2_000_000_000_000) by (nonlinear_arith)
            requires
                -10_000 <= mult <= 10_000,
                -200_000_000 <= orr <= 200_000_000,
        ;
    }
    mult * orr
}

fn make_side(p: &BacktestParams, hi: i64, lo: i64, dir: i8, is_long: bool) -> (r: Side)
    requires
        p.in_range(),
        -MAX_PRICE <= hi <= MAX_PRICE,
        -MAX_PRICE <= lo <= MAX_PRICE,
        -200_000_000 <= hi - lo <= 200_000_000,
    ensures
        r.in_range(),
        forall|days: Seq<DayMeta>, rows: Seq<DayRow>, from: int, d: int|
            rows[d].range == Some((hi, lo)) && day_direction(days, rows, *p, from, d) == dir
                ==> r == #[trigger] side_of(days, rows, *p, from, d, is_long),
{
    let orr: i64 = hi - lo;
    let biased: bool = match p.bias_mode {
        BiasMode::NoBias => false,
        BiasMode::DailyBias => true,
    };
    let against: bool = biased && if is_long {
        dir == -1
    } else {
        dir == 1
    };
    let offset: i64 = if against {
        scale(p.lux_tper, orr)
    } else {
        0
    };
    let mult: i64 = match p.exit_mode {
        ExitMode::FixedRR => p.rr,
        ExitMode::LuxTargets => p.lux_tper,
    };
    Side {
        is_long,
        entry_mode: p.entry_mode,
        level: if is_long {
            100 * hi + offset
        } else {
            100 * lo - offset
        },
        stop: if is_long {
            lo
        } else {
            hi
        },
        reach: scale(mult, orr),
    }
}

/// Run the strategy over `day_span`, returning one-contract trades.
pub fn backtest(
    bars: &[Bar],
    days: &[DayMeta],
    inst: &InstCfg,
    cache: &DayCache,
    p: &BacktestParams,
    day_regimes: &[u8],
    hurst_prev: &[Option<i64>],
    day_span: (usize, usize),
) -> (r: Vec<RawTrade>)
    requires
        cache.wf(),
        cache.windows@.contains(p.window),
        cache.n_days == days@.len(),
        day_regimes@.len() >= days@.len(),
        p.h_min is Some ==> hurst_prev@.len() >= days@.len(),
        sessions_end_within(bars@, days@),
        bars_in_range(bars@),
        ranges_in_range(cache.rows_of(cache.index_of(p.window))),
        inst.in_range(),
        p.in_range(),
    ensures
        r@ == span_trades(
            bars@,
            days@,
            *inst,
            cache.rows_of(cache.index_of(p.window)),
            *p,
            day_regimes@,
            hurst_prev@,
            day_span.0 as int,
            if day_span.1 < days@.len() {
                day_span.1 as int
            } else {
                days@.len() as int
            },
        ),
        forall|i: int| 0 <= i < r@.len() ==> -MAX_PNL <= (#[trigger] r@[i]).pnl_1ct <= MAX_PNL,
{
    let wi: usize = cache.window_index(p.window);
    let ghost rows = cache.rows_of(wi as int);
    let want_long: bool = same_text(p.direction, "long") || same_text(p.direction, "both");
    let want_short: bool = same_text(p.direction, "short") || same_text(p.direction, "both");
    let mut trades: Vec<RawTrade> = Vec::new();
    let mut prev: Option<i64> = None;
    let from: usize = day_span.0;
    let to: usize = if day_span.1 < days.len() {
        day_span.1
    } else {
        days.len()
    };
    let mut d: usize = from;
    while d < to
        invariant
            cache.wf(),
            wi < cache.windows@.len(),
            rows == cache.rows_of(wi as int),
            rows.len() == days@.len(),
            cache.n_days == days@.len(),
            day_regimes@.len() >= days@.len(),
            p.h_min is Some ==> hurst_prev@.len() >= days@.len(),
            sessions_end_within(bars@, days@),
            bars_in_range(bars@),
            ranges_in_range(rows),
            inst.in_range(),
            p.in_range(),
            want_long == p.wants_long(),
            want_short == p.wants_short(),
            from <= d,
            to <= days@.len(),
            from < to ==> d <= to,
            from >= to ==> d == from,
            match prev {
                Some(m) => previous_double_mid(days@, rows, *p, from as int, d as int) == Some(
                    m as int,
                ),
                None => previous_double_mid(days@, rows, *p, from as int, d as int) is None,
            },
            trades@ == span_trades(
                bars@,
                days@,
                *inst,
                rows,
                *p,
                day_regimes@,
                hurst_prev@,
                from as int,
                d as int,
            ),
            forall|i: int|
                0 <= i < trades@.len() ==> -MAX_PNL <= (#[trigger] trades@[i]).pnl_1ct <= MAX_PNL,
        decreases to - d,
    {
        let ghost so_far = trades@;
        let ghost today = day_trades(
            bars@,
            days@,
            *inst,
            rows,
            *p,
            day_regimes@,
            hurst_prev@,
            from as int,
            d as int,
        );
        let row: DayRow = cache.get(wi, d);
        // A year boundary is a hard reset: the previous day's opening-range
        // midpoint does not leak across it.
        let in_years: bool = match p.year_range {
            Some((ymin, ymax)) => ymin <= days[d].year && days[d].year <= ymax,
            None => true,
        };
        let ghost mut trading = false;
        let ghost mut made = Seq::<RawTrade>::empty();
        match row.range {
            Some((hi, lo)) => {
                if in_years {
                    proof {
                        assert(rows[d as int].range == Some((hi, lo)));
                    }
                    let mid: i64 = hi + lo;
                    // Read before the midpoint advances, which it does on every
                    // day with a range, traded or not.
                    let dir: i8 = match prev {
                        Some(then) => if mid > then {
                            1
                        } else if mid < then {
                            -1
                        } else {
                            0
                        },
                        None => 0,
                    };
                    proof {
                        assert(day_direction(days@, rows, *p, from as int, d as int) == dir);
                    }
                    prev = Some(mid);
                    let orr: i64 = hi - lo;
                    let wide_enough: bool = MIN_OR_TICKS * inst.tick_size <= orr && orr
                        <= MAX_OR_TICKS * inst.tick_size;
                    let hurst_ok: bool = match p.h_min {
                        Some(floor) => match hurst_prev[d] {
                            Some(h) => h >= floor,
                            None => false,
                        },
                        None => true,
                    };
                    let entropy_ok: bool = match p.e_max {
                        Some(cap) => match row.entropy {
                            Some(e) => e <= cap,
                            None => false,
                        },
                        None => true,
                    };
                    let sess_end: usize = days[d].sess_end;
                    match row.post {
                        Some(ps) => {
                            if day_eligible(day_regimes[d], p.vol_regime_filter) && wide_enough
                                && hurst_ok && entropy_ok && ps < sess_end && sess_end - ps >= 5 {
                                proof {
                                    trading = true;
                                }
                                if want_long {
                                    let side: Side = make_side(p, hi, lo, dir, true);
                                    proof {
                                        assert(side == side_of(
                                            days@,
                                            rows,
                                            *p,
                                            from as int,
                                            d as int,
                                            true,
                                        ));
                                    }
                                    match run_side(
                                        bars,
                                        ps,
                                        sess_end,
                                        &side,
                                        orr,
                                        p.cost_1ct,
                                        inst.point_value,
                                        d,
                                    ) {
                                        Some(t) => {
                                            trades.push(t);
                                            proof {
                                                made = made.push(t);
                                            }
                                        },
                                        None => {},
                                    }
                                }
                                proof {
                                    assert(made =~= if p.wants_long() {
                                        side_trades(
                                            bars@,
                                            days@,
                                            *inst,
                                            rows,
                                            *p,
                                            from as int,
                                            d as int,
                                            true,
                                        )
                                    } else {
                                        Seq::empty()
                                    });
                                }
                                let ghost longs = made;
                                let ghost mut shorts = Seq::<RawTrade>::empty();
                                if want_short {
                                    let side: Side = make_side(p, hi, lo, dir, false);
                                    proof {
                                        assert(side == side_of(
                                            days@,
                                            rows,
                                            *p,
                                            from as int,
                                            d as int,
                                            false,
                                        ));
                                    }
                                    match run_side(
                                        bars,
                                        ps,
                                        sess_end,
                                        &side,
                                        orr,
                                        p.cost_1ct,
                                        inst.point_value,
                                        d,
                                    ) {
                                        Some(t) => {
                                            trades.push(t);
                                            proof {
                                                made = made.push(t);
                                                shorts = shorts.push(t);
                                            }
                                        },
                                        None => {},
                                    }
                                }
                                proof {
                                    assert(shorts =~= if p.wants_short() {
                                        side_trades(
                                            bars@,
                                            days@,
                                            *inst,
                                            rows,
                                            *p,
                                            from as int,
                                            d as int,
                                            false,
                                        )
                                    } else {
                                        Seq::empty()
                                    });
                                    assert(made =~= longs + shorts);
                                }
                            }
                        },
                        None => {},
                    }
                }
            },
            None => {},
        }
        proof {
            assert(trading == trades_on(
                days@,
                *inst,
                rows,
                *p,
                day_regimes@,
                hurst_prev@,
                d as int,
            ));
            assert(made =~= today);
            assert(trades@ =~= so_far + made);
        }
        d = d + 1;
    }
    trades
}

// ---------------------------------------------------------------------------
// Trades by day
// ---------------------------------------------------------------------------

/// The trades of one day, in their order.
pub open spec fn of_day(trades: Seq<RawTrade>, day: usize) -> Seq<RawTrade> {
    trades.filter(|t: RawTrade| t.day_idx == day)
}

/// Whether `groups` are the trades of each day that has any, the days ascending.
pub open spec fn grouped_by_day(groups: Seq<Vec<RawTrade>>, trades: Seq<RawTrade>) -> bool {
    &&& forall|k: int|
        0 <= k < groups.len() ==> (#[trigger] groups[k])@.len() > 0 && groups[k]@ == of_day(
            trades,
            groups[k]@[0].day_idx,
        )
    &&& forall|k: int, l: int|
        0 <= k < l < groups.len() ==> (#[trigger] groups[k])@[0].day_idx < (
        #[trigger] groups[l])@[0].day_idx
    &&& forall|i: int|
        0 <= i < trades.len() ==> holds_day(groups, (#[trigger] trades[i]).day_idx)
}

/// Whether some group is of the given day.
pub open spec fn holds_day(groups: Seq<Vec<RawTrade>>, day: usize) -> bool {
    exists|k: int| 0 <= k < groups.len() && (#[trigger] groups[k])@[0].day_idx == day
}

proof fn lemma_of_day_push(trades: Seq<RawTrade>, t: RawTrade, day: usize)
    ensures
        of_day(trades.push(t), day) == if t.day_idx == day {
            of_day(trades, day).push(t)
        } else {
            of_day(trades, day)
        },
{
    trades.lemma_filter_push(t, |t: RawTrade| t.day_idx == day);
}

proof fn lemma_of_day_members(trades: Seq<RawTrade>, day: usize)
    ensures
        forall|i: int|
            0 <= i < of_day(trades, day).len() ==> (#[trigger] of_day(trades, day)[i]).day_idx
                == day && trades.contains(of_day(trades, day)[i]),
        of_day(trades, day).len() <= trades.len(),
{
    let p = |t: RawTrade| t.day_idx == day;
    trades.lemma_filter_len(p);
    assert forall|i: int| 0 <= i < of_day(trades, day).len() implies (#[trigger] of_day(
        trades,
        day,
    )[i]).day_idx == day && trades.contains(of_day(trades, day)[i]) by {
        trades.lemma_filter_pred(p, i);
        trades.lemma_filter_contains_rev(p, of_day(trades, day)[i]);
    }
}

proof fn lemma_of_day_empty(trades: Seq<RawTrade>, day: usize)
    requires
        forall|i: int| 0 <= i < trades.len() ==> (#[trigger] trades[i]).day_idx != day,
    ensures
        of_day(trades, day).len() == 0,
{
    lemma_of_day_members(trades, day);
    if of_day(trades, day).len() > 0 {
        let t = of_day(trades, day)[0];
        assert(trades.contains(t));
    }
}

pub fn group_trades_by_day(trades: &[RawTrade]) -> (r: Vec<Vec<RawTrade>>)
    ensures
        grouped_by_day(r@, trades@),
{
    let mut groups: Vec<Vec<RawTrade>> = Vec::new();
    let mut i: usize = 0;
    while i < trades.len()
        invariant
            i <= trades@.len(),
            grouped_by_day(groups@, trades@.take(i as int)),
        decreases trades@.len() - i,
    {
        let t: RawTrade = trades[i];
        let ghost past = trades@.take(i as int);
        let ghost before = groups@;
        let mut pos: usize = groups.len();
        while pos > 0 && groups[pos - 1][0].day_idx > t.day_idx
            invariant
                pos <= groups@.len(),
                groups@ == before,
                forall|k: int| 0 <= k < groups@.len() ==> (#[trigger] groups@[k])@.len() > 0,
                forall|k: int|
                    pos <= k < groups@.len() ==> (#[trigger] groups@[k])@[0].day_idx > t.day_idx,
            decreases pos,
        {
            pos = pos - 1;
        }
        proof {
            assert(trades@.take(i + 1) == past.push(t));
            assert forall|day: usize| #[trigger] of_day(past.push(t), day) == if t.day_idx == day {
                of_day(past, day).push(t)
            } else {
                of_day(past, day)
            } by {
                lemma_of_day_push(past, t, day);
            }
            assert forall|k: int, l: int| 0 <= k < l < pos implies (
            #[trigger] before[k])@[0].day_idx < (#[trigger] before[l])@[0].day_idx by {}
        }
        if pos > 0 && groups[pos - 1][0].day_idx == t.day_idx {
            let at: usize = pos - 1;
            groups[at].push(t);
            proof {
                let now = past.push(t);
                assert(groups@[at as int]@ == before[at as int]@.push(t));
                assert forall|k: int| 0 <= k < groups@.len() implies (
                #[trigger] groups@[k])@.len() > 0 && groups@[k]@ == of_day(
                    now,
                    groups@[k]@[0].day_idx,
                ) by {
                    assert(before[k]@.len() > 0);
                    if k == at {
                        assert(groups@[k]@[0] == before[k]@[0]);
                    } else {
                        assert(groups@[k] == before[k]);
                        if k < at {
                            assert(before[k]@[0].day_idx < before[at as int]@[0].day_idx);
                        } else {
                            assert(before[at as int]@[0].day_idx < before[k]@[0].day_idx);
                        }
                    }
                }
                assert forall|k: int, l: int| 0 <= k < l < groups@.len() implies (
                #[trigger] groups@[k])@[0].day_idx < (#[trigger] groups@[l])@[0].day_idx by {
                    assert(before[k]@[0].day_idx < before[l]@[0].day_idx);
                    assert(before[k]@.len() > 0 && before[l]@.len() > 0);
                    assert(groups@[k]@[0] == before[k]@[0]);
                    assert(groups@[l]@[0] == before[l]@[0]);
                }
                assert forall|j: int| 0 <= j < now.len() implies holds_day(
                    groups@,
                    (#[trigger] now[j]).day_idx,
                ) by {
                    if j < past.len() {
                        assert(now[j] == past[j]);
                        assert(holds_day(before, past[j].day_idx));
                        let k = choose|k: int|
                            0 <= k < before.len() && (#[trigger] before[k])@[0].day_idx
                                == past[j].day_idx;
                        assert(before[k]@.len() > 0);
                        assert(groups@[k]@[0] == before[k]@[0]);
                    } else {
                        assert(before[at as int]@.len() > 0);
                        assert(groups@[at as int]@[0].day_idx == t.day_idx);
                    }
                }
            }
        } else {
            let mut fresh: Vec<RawTrade> = Vec::new();
            fresh.push(t);
            proof {
                assert forall|k: int| 0 <= k < pos implies (
                #[trigger] before[k])@[0].day_idx < t.day_idx by {
                    if k < pos - 1 {
                        assert(before[k]@[0].day_idx < before[pos - 1]@[0].day_idx);
                    }
                }
                assert forall|j: int| 0 <= j < past.len() implies (#[trigger] past[j]).day_idx
                    != t.day_idx by {
                    assert(holds_day(before, past[j].day_idx));
                    let k = choose|k: int|
                        0 <= k < before.len() && (#[trigger] before[k])@[0].day_idx
                            == past[j].day_idx;
                    if k < pos {
                        assert(before[k]@[0].day_idx < t.day_idx);
                    }
                }
                lemma_of_day_empty(past, t.day_idx);
                assert(of_day(past, t.day_idx).push(t) =~= fresh@);
            }
            groups.insert(pos, fresh);
            proof {
                let now = past.push(t);
                assert(groups@ == before.insert(pos as int, fresh));
                assert forall|k: int| 0 <= k < groups@.len() implies (
                #[trigger] groups@[k])@.len() > 0 && groups@[k]@ == of_day(
                    now,
                    groups@[k]@[0].day_idx,
                ) by {
                    if k < pos {
                        assert(groups@[k] == before[k]);
                        assert(before[k]@[0].day_idx < t.day_idx);
                    } else if k == pos {
                        assert(groups@[k] == fresh);
                    } else {
                        assert(groups@[k] == before[k - 1]);
                        assert(before[k - 1]@[0].day_idx > t.day_idx);
                    }
                }
                assert forall|k: int, l: int| 0 <= k < l < groups@.len() implies (
                #[trigger] groups@[k])@[0].day_idx < (#[trigger] groups@[l])@[0].day_idx by {
                    let bk = if k < pos {
                        k
                    } else {
                        k - 1
                    };
                    let bl = if l < pos {
                        l
                    } else {
                        l - 1
                    };
                    if k != pos && l != pos {
                        assert(groups@[k] == before[bk] && groups@[l] == before[bl]);
                    } else if k == pos {
                        assert(groups@[l] == before[bl]);
                        assert(before[bl]@[0].day_idx > t.day_idx);
                    } else {
                        assert(groups@[k] == before[bk]);
                        assert(before[bk]@[0].day_idx < t.day_idx);
                    }
                }
                assert forall|j: int| 0 <= j < now.len() implies holds_day(
                    groups@,
                    (#[trigger] now[j]).day_idx,
                ) by {
                    if j < past.len() {
                        assert(now[j] == past[j]);
                        assert(holds_day(before, past[j].day_idx));
                        let k = choose|k: int|
                            0 <= k < before.len() && (#[trigger] before[k])@[0].day_idx
                                == past[j].day_idx;
                        if k < pos {
                            assert(groups@[k] == before[k]);
                        } else {
                            assert(groups@[k + 1] == before[k]);
                        }
                    } else {
                        assert(groups@[pos as int] == fresh);
                    }
                }
            }
        }
        i = i + 1;
    }
    proof {
        assert(trades@.take(trades@.len() as int) == trades@);
    }
    groups
}

} // verus!
