//! Day-level features: volatility regime, Hurst exponent, sample entropy, and
//! the extreme-value tail threshold used to cap catastrophic losses.

use vstd::prelude::*;

use crate::backtest::{bars_in_range, sessions_fit};
use crate::num::{in_order, lemma_in_order_bounds, sorted, total};
use crate::session::{in_session, inside};
use crate::text::same_text;
use crate::types::{Bar, DayMeta, InstCfg, MAX_PNL, MAX_PRICE};

verus! {

// ---------------------------------------------------------------------------
// Volatility regime
// ---------------------------------------------------------------------------

/// Not classifiable yet (insufficient lookback).
pub const REGIME_UNKNOWN: u8 = 0;

pub const REGIME_CALM: u8 = 1;

pub const REGIME_NORMAL: u8 = 2;

pub const REGIME_ELEVATED: u8 = 3;

pub const REGIME_STRESSED: u8 = 4;

pub const REGIME_CRISIS: u8 = 5;

/// Whether a day of the given regime trades under a regime filter. A word that
/// names no filter lets every day trade.
pub open spec fn eligible(day_regime: u8, config_regime: Seq<char>) -> bool {
    if config_regime == "all"@ {
        true
    } else if config_regime == "calm"@ {
        day_regime == REGIME_CALM
    } else if config_regime == "normal"@ {
        day_regime == REGIME_NORMAL
    } else if config_regime == "elevated"@ {
        day_regime == REGIME_ELEVATED
    } else if config_regime == "stressed"@ {
        day_regime == REGIME_STRESSED
    } else if config_regime == "crisis"@ {
        day_regime == REGIME_CRISIS
    } else if config_regime == "not_high"@ {
        REGIME_CALM <= day_regime <= REGIME_ELEVATED
    } else {
        true
    }
}

pub fn day_eligible(day_regime: u8, config_regime: &str) -> (r: bool)
    ensures
        r == eligible(day_regime, config_regime@),
{
    if same_text(config_regime, "all") {
        true
    } else if same_text(config_regime, "calm") {
        day_regime == REGIME_CALM
    } else if same_text(config_regime, "normal") {
        day_regime == REGIME_NORMAL
    } else if same_text(config_regime, "elevated") {
        day_regime == REGIME_ELEVATED
    } else if same_text(config_regime, "stressed") {
        day_regime == REGIME_STRESSED
    } else if same_text(config_regime, "crisis") {
        day_regime == REGIME_CRISIS
    } else if same_text(config_regime, "not_high") {
        REGIME_CALM <= day_regime && day_regime <= REGIME_ELEVATED
    } else {
        true
    }
}

/// A day that could not be classified trades under none of the filters that
/// select regimes.
pub proof fn an_unknown_regime_trades_under_no_selection(word: Seq<char>)
    requires
        word == "calm"@ || word == "normal"@ || word == "elevated"@ || word == "stressed"@ || word
            == "crisis"@ || word == "not_high"@,
    ensures
        !eligible(REGIME_UNKNOWN, word),
        eligible(REGIME_UNKNOWN, "all"@),
{
    reveal_strlit("all");
    reveal_strlit("calm");
    reveal_strlit("normal");
    reveal_strlit("elevated");
    reveal_strlit("stressed");
    reveal_strlit("crisis");
    reveal_strlit("not_high");
    assert("all"@.len() == 3);
}

// ---------------------------------------------------------------------------
// Daily extremes and true ranges
// ---------------------------------------------------------------------------

/// High, low and last close of the bars of `s..e` that are inside the session.
pub open spec fn session_extremes(
    bars: Seq<Bar>,
    s: int,
    e: int,
    open_mins: i32,
    close_mins: i32,
) -> Option<(i64, i64, i64)>
    decreases e - s,
{
    if e <= s {
        None
    } else {
        let before = session_extremes(bars, s, e - 1, open_mins, close_mins);
        let b = bars[e - 1];
        if inside(b.time_mins, open_mins, close_mins) {
            match before {
                Some((hi, lo, _)) => Some(
                    (
                        if b.high > hi {
                            b.high
                        } else {
                            hi
                        },
                        if b.low < lo {
                            b.low
                        } else {
                            lo
                        },
                        b.close,
                    ),
                ),
                None => Some((b.high, b.low, b.close)),
            }
        } else {
            before
        }
    }
}

/// The extremes of a day's session.
pub open spec fn day_extremes(bars: Seq<Bar>, day: DayMeta, inst: InstCfg) -> Option<
    (i64, i64, i64),
> {
    session_extremes(
        bars,
        day.sess_start as int,
        day.sess_end as int,
        inst.open_mins,
        inst.close_mins,
    )
}

/// The last session close of a day, 0 where it has none.
pub open spec fn session_close(bars: Seq<Bar>, day: DayMeta, inst: InstCfg) -> i64 {
    match day_extremes(bars, day, inst) {
        Some((_, _, c)) => c,
        None => 0,
    }
}

fn extremes_of(bars: &[Bar], day: &DayMeta, inst: &InstCfg) -> (r: Option<(i64, i64, i64)>)
    requires
        day.sess_start < day.sess_end ==> day.sess_end <= bars@.len(),
        bars_in_range(bars@),
    ensures
        r == day_extremes(bars@, *day, *inst),
        r matches Some(x) ==> -MAX_PRICE <= x.0 <= MAX_PRICE && -MAX_PRICE <= x.1 <= MAX_PRICE
            && -MAX_PRICE <= x.2 <= MAX_PRICE,
{
    let s: usize = day.sess_start;
    let e: usize = day.sess_end;
    let mut r: Option<(i64, i64, i64)> = None;
    let mut i: usize = s;
    while i < e
        invariant
            s < e ==> e <= bars@.len(),
            s <= i,
            s < e ==> i <= e,
            s >= e ==> i == s,
            bars_in_range(bars@),
            r == session_extremes(
                bars@,
                s as int,
                i as int,
                inst.open_mins,
                inst.close_mins,
            ),
            r matches Some(x) ==> -MAX_PRICE <= x.0 <= MAX_PRICE && -MAX_PRICE <= x.1 <= MAX_PRICE
                && -MAX_PRICE <= x.2 <= MAX_PRICE,
        decreases e - i,
    {
        let b: Bar = bars[i];
        proof {
            assert(bars@[i as int].in_range());
        }
        if in_session(b.time_mins, inst.open_mins, inst.close_mins) {
            r = match r {
                Some((hi, lo, _)) => Some(
                    (
                        if b.high > hi {
                            b.high
                        } else {
                            hi
                        },
                        if b.low < lo {
                            b.low
                        } else {
                            lo
                        },
                        b.close,
                    ),
                ),
                None => Some((b.high, b.low, b.close)),
            };
        }
        i = i + 1;
    }
    r
}

/// Last in-session close of each day, or 0 where the day has no session bars.
pub fn precompute_daily_closes(bars: &[Bar], days: &[DayMeta], inst: &InstCfg) -> (r: Vec<i64>)
    requires
        sessions_fit(bars@, days@),
        bars_in_range(bars@),
    ensures
        r@ == Seq::new(days@.len(), |d: int| session_close(bars@, days@[d], *inst)),
{
    let mut r: Vec<i64> = Vec::new();
    let mut d: usize = 0;
    while d < days.len()
        invariant
            sessions_fit(bars@, days@),
            bars_in_range(bars@),
            d <= days@.len(),
            r@.len() == d,
            forall|k: int| 0 <= k < d ==> #[trigger] r@[k] == session_close(bars@, days@[k], *inst),
        decreases days@.len() - d,
    {
        let c: i64 = match extremes_of(bars, &days[d], inst) {
            Some((_, _, c)) => c,
            None => 0,
        };
        r.push(c);
        d = d + 1;
    }
    r
}

pub open spec fn max_of(a: int, b: int) -> int {
    if a >= b {
        a
    } else {
        b
    }
}

pub open spec fn abs_of(a: int) -> int {
    if a < 0 {
        -a
    } else {
        a
    }
}

/// The true range of day `d`: its range, widened to the close of the day before;
/// 0 where the day has no session bars.
pub open spec fn true_range(bars: Seq<Bar>, days: Seq<DayMeta>, inst: InstCfg, d: int) -> int {
    match day_extremes(bars, days[d], inst) {
        Some((hi, lo, _)) => if d == 0 {
            hi - lo
        } else {
            let prev = session_close(bars, days[d - 1], inst);
            max_of(max_of(hi - lo, abs_of(hi - prev)), abs_of(lo - prev))
        },
        None => 0,
    }
}

/// The true ranges of the days `from..to` together.
pub open spec fn true_range_sum(
    bars: Seq<Bar>,
    days: Seq<DayMeta>,
    inst: InstCfg,
    from: int,
    to: int,
) -> int
    decreases to - from,
{
    if to <= from {
        0
    } else {
        true_range_sum(bars, days, inst, from, to - 1) + true_range(bars, days, inst, to - 1)
    }
}

/// The last fourteen true ranges up to day `d` together, 0 before there are as
/// many.
pub open spec fn atr_sum(bars: Seq<Bar>, days: Seq<DayMeta>, inst: InstCfg, d: int) -> int {
    if d >= 13 {
        true_range_sum(bars, days, inst, d - 13, d + 1)
    } else {
        0
    }
}

fn wider(a: i64, b: i64) -> (r: i64)
    ensures
        r == max_of(a as int, b as int),
{
    if a >= b {
        a
    } else {
        b
    }
}

fn distance(a: i64, b: i64) -> (r: i64)
    requires
        -MAX_PRICE <= a <= MAX_PRICE,
        -MAX_PRICE <= b <= MAX_PRICE,
    ensures
        r == abs_of(a - b),
        0 <= r <= 2 * MAX_PRICE,
{
    if a < b {
        b - a
    } else {
        a - b
    }
}

fn true_ranges(bars: &[Bar], days: &[DayMeta], inst: &InstCfg) -> (r: Vec<i64>)
    requires
        sessions_fit(bars@, days@),
        bars_in_range(bars@),
    ensures
        r@.len() == days@.len(),
        forall|d: int|
            0 <= d < days@.len() ==> #[trigger] r@[d] == true_range(bars@, days@, *inst, d)
                && -2 * MAX_PRICE <= r@[d] <= 2 * MAX_PRICE,
{
    let mut r: Vec<i64> = Vec::new();
    let mut prev: i64 = 0;
    let mut d: usize = 0;
    while d < days.len()
        invariant
            sessions_fit(bars@, days@),
            bars_in_range(bars@),
            d <= days@.len(),
            r@.len() == d,
            d > 0 ==> prev == session_close(bars@, days@[d - 1], *inst),
            -MAX_PRICE <= prev <= MAX_PRICE,
            forall|k: int|
                0 <= k < d ==> #[trigger] r@[k] == true_range(bars@, days@, *inst, k) && -2
                    * MAX_PRICE <= r@[k] <= 2 * MAX_PRICE,
        decreases days@.len() - d,
    {
        let x: Option<(i64, i64, i64)> = extremes_of(bars, &days[d], inst);
        let t: i64 = match x {
            Some((hi, lo, _)) => if d == 0 {
                hi - lo
            } else {
                wider(wider(hi - lo, distance(hi, prev)), distance(lo, prev))
            },
            None => 0,
        };
        r.push(t);
        prev = match x {
            Some((_, _, c)) => c,
            None => 0,
        };
        d = d + 1;
    }
    r
}

proof fn lemma_true_range_window(
    bars: Seq<Bar>,
    days: Seq<DayMeta>,
    inst: InstCfg,
    from: int,
    to: int,
)
    requires
        from < to,
    ensures
        true_range_sum(bars, days, inst, from, to) == true_range(bars, days, inst, from)
            + true_range_sum(bars, days, inst, from + 1, to),
    decreases to - from,
{
    if from + 1 < to {
        lemma_true_range_window(bars, days, inst, from, to - 1);
    } else {
        assert(true_range_sum(bars, days, inst, from, from) == 0);
    }
}

// ---------------------------------------------------------------------------
// Volatility features
// ---------------------------------------------------------------------------

/// The volatility measures of a day, each on a scale of its own that keeps its
/// order; one above 0 is measured.
#[derive(Clone, Copy, Debug, PartialEq, Eq, Structural)]
pub struct VolFeatures {
    /// Annualised realised volatility, in trillionths.
    pub rv: i64,
    /// Fourteen times the average true range, in price units.
    pub atr14: i64,
    /// Annualised 30-day close-to-close volatility, in trillionths.
    pub vix_proxy: i64,
}

impl Default for VolFeatures {
    fn default() -> (r: Self)
        ensures
            r == (VolFeatures { rv: 0, atr14: 0, vix_proxy: 0 }),
    {
        VolFeatures { rv: 0, atr14: 0, vix_proxy: 0 }
    }
}

/// The features of day `d`: those of the day before, none for the first day.
pub open spec fn features_of(
    bars: Seq<Bar>,
    days: Seq<DayMeta>,
    inst: InstCfg,
    day_rv: Seq<i64>,
    day_vp: Seq<i64>,
    d: int,
) -> VolFeatures {
    if d == 0 {
        VolFeatures { rv: 0, atr14: 0, vix_proxy: 0 }
    } else {
        VolFeatures {
            rv: day_rv[d - 1],
            atr14: atr_sum(bars, days, inst, d - 1) as i64,
            vix_proxy: day_vp[d - 1],
        }
    }
}

/// The features of every day, from the realised volatility and the proxy of each
/// day, in trillionths: each lagged one day so that day `d` only ever sees
/// information complete before its open.
pub fn lagged_features(
    bars: &[Bar],
    days: &[DayMeta],
    inst: &InstCfg,
    day_rv: &[i64],
    day_vp: &[i64],
) -> (r: Vec<VolFeatures>)
    requires
        sessions_fit(bars@, days@),
        bars_in_range(bars@),
        day_rv@.len() == days@.len(),
        day_vp@.len() == days@.len(),
    ensures
        r@ == Seq::new(
            days@.len(),
            |d: int| features_of(bars@, days@, *inst, day_rv@, day_vp@, d),
        ),
        forall|d: int|
            1 <= d < r@.len() ==> (#[trigger] r@[d]).atr14 == atr_sum(bars@, days@, *inst, d - 1),
{
    let tr: Vec<i64> = true_ranges(bars, days, inst);
    let n: usize = days.len();
    let mut r: Vec<VolFeatures> = Vec::new();
    let mut run: i64 = 0;
    let mut d: usize = 0;
    proof {
        assert(true_range_sum(bars@, days@, *inst, 0, 0) == 0);
    }
    while d < n
        invariant
            n == days@.len(),
            day_rv@.len() == n,
            day_vp@.len() == n,
            tr@.len() == n,
            forall|k: int|
                0 <= k < n ==> #[trigger] tr@[k] == true_range(bars@, days@, *inst, k) && -2
                    * MAX_PRICE <= tr@[k] <= 2 * MAX_PRICE,
            d <= n,
            r@.len() == d,
            d <= 13 ==> run == true_range_sum(bars@, days@, *inst, 0, d as int) && -20_000_000_000
                * d <= run <= 20_000_000_000 * d,
            d > 13 ==> run == true_range_sum(bars@, days@, *inst, d - 14, d as int),
            -280_000_000_000 <= run <= 280_000_000_000,
            forall|k: int|
                0 <= k < d ==> #[trigger] r@[k] == features_of(
                    bars@,
                    days@,
                    *inst,
                    day_rv@,
                    day_vp@,
                    k,
                ),
            forall|k: int|
                1 <= k < d ==> (#[trigger] r@[k]).atr14 == atr_sum(bars@, days@, *inst, k - 1),
        decreases n - d,
    {
        if d == 0 {
            r.push(VolFeatures::default());
        } else {
            let atr14: i64 = if d >= 14 {
                run
            } else {
                0
            };
            r.push(VolFeatures { rv: day_rv[d - 1], atr14, vix_proxy: day_vp[d - 1] });
        }
        let t: i64 = tr[d];
        run = run + t;
        if d >= 14 {
            proof {
                lemma_true_range_window(bars@, days@, *inst, d - 14, d + 1);
                lemma_true_range_sum_bound(bars@, days@, *inst, tr@, d - 13, d + 1);
            }
            run = run - tr[d - 14];
        } else {
            proof {
                if d == 13 {
                    lemma_true_range_sum_bound(bars@, days@, *inst, tr@, 0, 14);
                }
            }
        }
        d = d + 1;
    }
    r
}

proof fn lemma_true_range_sum_bound(
    bars: Seq<Bar>,
    days: Seq<DayMeta>,
    inst: InstCfg,
    tr: Seq<i64>,
    from: int,
    to: int,
)
    requires
        0 <= from <= to <= tr.len(),
        forall|k: int|
            0 <= k < tr.len() ==> #[trigger] tr[k] == true_range(bars, days, inst, k) && -2
                * MAX_PRICE <= tr[k] <= 2 * MAX_PRICE,
    ensures
        -20_000_000_000 * (to - from) <= true_range_sum(bars, days, inst, from, to)
            <= 20_000_000_000 * (to - from),
    decreases to - from,
{
    if from < to {
        lemma_true_range_sum_bound(bars, days, inst, tr, from, to - 1);
        assert(tr[to - 1] == true_range(bars, days, inst, to - 1));
    }
}

/// Whether two sets of data agree on the sessions of the first `n` days.
pub open spec fn agree_before(
    bars_a: Seq<Bar>,
    days_a: Seq<DayMeta>,
    bars_b: Seq<Bar>,
    days_b: Seq<DayMeta>,
    n: int,
) -> bool {
    &&& forall|k: int| 0 <= k < n ==> #[trigger] days_a[k] == days_b[k]
    &&& forall|k: int, i: int|
        #![trigger days_a[k], bars_a[i]]
        0 <= k < n && days_a[k].sess_start <= i < days_a[k].sess_end ==> bars_a[i] == bars_b[i]
}

proof fn lemma_extremes_read_session(
    a: Seq<Bar>,
    b: Seq<Bar>,
    s: int,
    e: int,
    open_mins: i32,
    close_mins: i32,
)
    requires
        forall|i: int| s <= i < e ==> #[trigger] a[i] == b[i],
    ensures
        session_extremes(a, s, e, open_mins, close_mins) == session_extremes(
            b,
            s,
            e,
            open_mins,
            close_mins,
        ),
    decreases e - s,
{
    if s < e {
        lemma_extremes_read_session(a, b, s, e - 1, open_mins, close_mins);
        assert(a[e - 1] == b[e - 1]);
    }
}

proof fn lemma_true_ranges_read_past(
    bars_a: Seq<Bar>,
    days_a: Seq<DayMeta>,
    bars_b: Seq<Bar>,
    days_b: Seq<DayMeta>,
    inst: InstCfg,
    n: int,
    from: int,
    to: int,
)
    requires
        agree_before(bars_a, days_a, bars_b, days_b, n),
        0 <= from,
        to <= n,
    ensures
        true_range_sum(bars_a, days_a, inst, from, to) == true_range_sum(
            bars_b,
            days_b,
            inst,
            from,
            to,
        ),
    decreases to - from,
{
    if from < to {
        lemma_true_ranges_read_past(bars_a, days_a, bars_b, days_b, inst, n, from, to - 1);
        let d = to - 1;
        let day = days_a[d];
        assert(days_b[d] == day);
        lemma_extremes_read_session(
            bars_a,
            bars_b,
            day.sess_start as int,
            day.sess_end as int,
            inst.open_mins,
            inst.close_mins,
        );
        if d > 0 {
            let before = days_a[d - 1];
            assert(days_b[d - 1] == before);
            lemma_extremes_read_session(
                bars_a,
                bars_b,
                before.sess_start as int,
                before.sess_end as int,
                inst.open_mins,
                inst.close_mins,
            );
        }
    }
}

/// The volatility features of a day read no session of that day or a later one.
pub proof fn features_read_no_later_session(
    bars_a: Seq<Bar>,
    days_a: Seq<DayMeta>,
    bars_b: Seq<Bar>,
    days_b: Seq<DayMeta>,
    inst: InstCfg,
    rv_a: Seq<i64>,
    rv_b: Seq<i64>,
    vp_a: Seq<i64>,
    vp_b: Seq<i64>,
    d: int,
)
    requires
        0 <= d,
        agree_before(bars_a, days_a, bars_b, days_b, d),
        forall|k: int| 0 <= k < d ==> #[trigger] rv_a[k] == rv_b[k],
        forall|k: int| 0 <= k < d ==> #[trigger] vp_a[k] == vp_b[k],
    ensures
        features_of(bars_a, days_a, inst, rv_a, vp_a, d) == features_of(
            bars_b,
            days_b,
            inst,
            rv_b,
            vp_b,
            d,
        ),
{
    if d > 0 {
        assert(rv_a[d - 1] == rv_b[d - 1]);
        assert(vp_a[d - 1] == vp_b[d - 1]);
        if d - 1 >= 13 {
            lemma_true_ranges_read_past(
                bars_a,
                days_a,
                bars_b,
                days_b,
                inst,
                d,
                d - 1 - 13,
                d,
            );
        }
    }
}

// ---------------------------------------------------------------------------
// Regimes
// ---------------------------------------------------------------------------

/// Days that a ranking looks back on.
pub const REGIME_LOOKBACK: usize = 252;

/// Measured days that a ranking needs.
pub const REGIME_SAMPLE: usize = 50;

/// One of the three measures.
#[derive(Clone, Copy, Debug, PartialEq, Eq, Structural)]
pub enum Measure {
    Rv,
    Atr,
    Proxy,
}

/// The value of a measure.
pub open spec fn measured(f: VolFeatures, m: Measure) -> i64 {
    match m {
        Measure::Rv => f.rv,
        Measure::Atr => f.atr14,
        Measure::Proxy => f.vix_proxy,
    }
}

/// Days in `from..to` on which a measure was taken.
pub open spec fn taken(feats: Seq<VolFeatures>, m: Measure, from: int, to: int) -> int
    decreases to - from,
{
    if to <= from {
        0
    } else {
        taken(feats, m, from, to - 1) + if measured(feats[to - 1], m) > 0 {
            1int
        } else {
            0int
        }
    }
}

/// Days in `from..to` on which a measure was taken and was below `x`.
pub open spec fn taken_below(
    feats: Seq<VolFeatures>,
    m: Measure,
    from: int,
    to: int,
    x: i64,
) -> int
    decreases to - from,
{
    if to <= from {
        0
    } else {
        taken_below(feats, m, from, to - 1, x) + if 0 < measured(feats[to - 1], m) < x {
            1int
        } else {
            0int
        }
    }
}

/// The composite volatility score of day `d` as a fraction: the percentile ranks
/// of its three measures in the preceding year added up. Undefined before a full
/// lookback, with too few measured days, or where a measure of the day itself is
/// missing.
pub open spec fn composite(feats: Seq<VolFeatures>, d: int) -> Option<(int, int)> {
    let lo = d - REGIME_LOOKBACK;
    let n1 = taken(feats, Measure::Rv, lo, d);
    let n2 = taken(feats, Measure::Atr, lo, d);
    let n3 = taken(feats, Measure::Proxy, lo, d);
    let f = feats[d];
    if d < REGIME_LOOKBACK || n1 < REGIME_SAMPLE || n2 < REGIME_SAMPLE || n3 < REGIME_SAMPLE || f.rv
        <= 0 || f.atr14 <= 0 || f.vix_proxy <= 0 {
        None
    } else {
        let b1 = taken_below(feats, Measure::Rv, lo, d, f.rv);
        let b2 = taken_below(feats, Measure::Atr, lo, d, f.atr14);
        let b3 = taken_below(feats, Measure::Proxy, lo, d, f.vix_proxy);
        Some((b1 * n2 * n3 + b2 * n1 * n3 + b3 * n1 * n2, n1 * n2 * n3))
    }
}

/// Whether one score is below another, by cross-multiplication.
pub open spec fn score_below(a: (int, int), b: (int, int)) -> bool {
    a.0 * b.1 < b.0 * a.1
}

/// Days in `from..to` that have a score.
pub open spec fn scored(feats: Seq<VolFeatures>, from: int, to: int) -> int
    decreases to - from,
{
    if to <= from {
        0
    } else {
        scored(feats, from, to - 1) + if composite(feats, to - 1) is Some {
            1int
        } else {
            0int
        }
    }
}

/// Days in `from..to` with a score below `x`.
pub open spec fn scored_below(feats: Seq<VolFeatures>, from: int, to: int, x: (int, int)) -> int
    decreases to - from,
{
    if to <= from {
        0
    } else {
        scored_below(feats, from, to - 1, x) + match composite(feats, to - 1) {
            Some(c) => if score_below(c, x) {
                1int
            } else {
                0int
            },
            None => 0int,
        }
    }
}

/// The regime of a rank: the fifth of the sample that `below` of `n` falls in.
pub open spec fn regime_of_rank(below: int, n: int) -> u8 {
    if 5 * below < n {
        REGIME_CALM
    } else if 5 * below < 2 * n {
        REGIME_NORMAL
    } else if 5 * below < 3 * n {
        REGIME_ELEVATED
    } else if 5 * below < 4 * n {
        REGIME_STRESSED
    } else {
        REGIME_CRISIS
    }
}

/// The regime of day `d`: the fifth that its score falls in among the scores of
/// the preceding year.
pub open spec fn regime(feats: Seq<VolFeatures>, d: int) -> u8 {
    let lo = d - REGIME_LOOKBACK;
    if d < 2 * REGIME_LOOKBACK {
        REGIME_UNKNOWN
    } else {
        match composite(feats, d) {
            None => REGIME_UNKNOWN,
            Some(c) => {
                let n = scored(feats, lo, d);
                if n < REGIME_SAMPLE {
                    REGIME_UNKNOWN
                } else {
                    regime_of_rank(scored_below(feats, lo, d, c), n)
                }
            },
        }
    }
}

fn value_of(f: VolFeatures, m: Measure) -> (r: i64)
    ensures
        r == measured(f, m),
{
    match m {
        Measure::Rv => f.rv,
        Measure::Atr => f.atr14,
        Measure::Proxy => f.vix_proxy,
    }
}

/// How many values of a measure in `from..to` were taken, and how many of those
/// are below `x`.
fn pct_rank(feats: &[VolFeatures], m: Measure, from: usize, to: usize, x: i64) -> (r: (i64, i64))
    requires
        from <= to <= feats@.len(),
        to - from <= REGIME_LOOKBACK,
    ensures
        r.0 == taken_below(feats@, m, from as int, to as int, x),
        r.1 == taken(feats@, m, from as int, to as int),
        0 <= r.0 <= r.1 <= to - from,
{
    let mut below: i64 = 0;
    let mut n: i64 = 0;
    let mut i: usize = from;
    while i < to
        invariant
            from <= i <= to <= feats@.len(),
            to - from <= REGIME_LOOKBACK,
            below == taken_below(feats@, m, from as int, i as int, x),
            n == taken(feats@, m, from as int, i as int),
            0 <= below <= n <= i - from,
        decreases to - i,
    {
        let v: i64 = value_of(feats[i], m);
        if v > 0 {
            n = n + 1;
            if v < x {
                below = below + 1;
            }
        }
        i = i + 1;
    }
    (below, n)
}

/// A score as integers.
pub open spec fn score_ints(s: Option<(i64, i64)>) -> Option<(int, int)> {
    match s {
        Some((a, b)) => Some((a as int, b as int)),
        None => None,
    }
}

/// Scale-free composite volatility score for day `d`, using only `[d-252, d)`
/// and the day itself.
///
/// The sum of three ranks is not itself uniformly distributed: where the
/// indicators are less than perfectly correlated it concentrates around its
/// middle, so the uniformity comes from ranking it a second time in
/// `classify_all_regimes`.
fn composite_score(feats: &[VolFeatures], d: usize) -> (r: Option<(i64, i64)>)
    requires
        d < feats@.len(),
    ensures
        score_ints(r) == composite(feats@, d as int),
        r matches Some(c) ==> 0 <= c.0 <= 48_009_024 && 0 < c.1 <= 16_003_008,
{
    if d < REGIME_LOOKBACK {
        return None;
    }
    let lo: usize = d - REGIME_LOOKBACK;
    let f: VolFeatures = feats[d];
    let (b1, n1): (i64, i64) = pct_rank(feats, Measure::Rv, lo, d, f.rv);
    let (b2, n2): (i64, i64) = pct_rank(feats, Measure::Atr, lo, d, f.atr14);
    let (b3, n3): (i64, i64) = pct_rank(feats, Measure::Proxy, lo, d, f.vix_proxy);
    if n1 < REGIME_SAMPLE as i64 || n2 < REGIME_SAMPLE as i64 || n3 < REGIME_SAMPLE as i64 {
        return None;
    }
    if f.rv <= 0 || f.atr14 <= 0 || f.vix_proxy <= 0 {
        return None;
    }
    proof {
        lemma_triple(b1 as int, n2 as int, n3 as int);
        lemma_triple(b2 as int, n1 as int, n3 as int);
        lemma_triple(b3 as int, n1 as int, n2 as int);
        lemma_triple(n1 as int, n2 as int, n3 as int);
        assert(0 < n1 * n2 * n3) by (nonlinear_arith)
            requires
                0 < n1,
                0 < n2,
                0 < n3,
        ;
    }
    Some((b1 * n2 * n3 + b2 * n1 * n3 + b3 * n1 * n2, n1 * n2 * n3))
}

proof fn lemma_triple(a: int, b: int, c: int)
    requires
        0 <= a <= 252,
        0 <= b <= 252,
        0 <= c <= 252,
    ensures
        0 <= a * b <= 63_504,
        0 <= a * b * c <= 16_003_008,
{
    assert(0 <= a * b <= 63_504) by (nonlinear_arith)
        requires
            0 <= a <= 252,
            0 <= b <= 252,
    ;
    let ab = a * b;
    assert(0 <= ab * c <= 16_003_008) by (nonlinear_arith)
        requires
            0 <= ab <= 63_504,
            0 <= c <= 252,
    ;
}

fn quintile_to_regime(below: i64, n: i64) -> (r: u8)
    requires
        0 <= below <= 252,
        0 <= n <= 252,
    ensures
        r == regime_of_rank(below as int, n as int),
{
    if 5 * below < n {
        REGIME_CALM
    } else if 5 * below < 2 * n {
        REGIME_NORMAL
    } else if 5 * below < 3 * n {
        REGIME_ELEVATED
    } else if 5 * below < 4 * n {
        REGIME_STRESSED
    } else {
        REGIME_CRISIS
    }
}

/// Assign every day a volatility regime.
///
/// Ranks each day's composite volatility score against the composites of the
/// preceding year and cuts at quintiles, so each regime receives about a fifth of
/// days whatever the correlation between the three indicators. Two lookback
/// windows are needed before the first classification.
pub fn classify_all_regimes(feats: &[VolFeatures]) -> (r: Vec<u8>)
    ensures
        r@ == Seq::new(feats@.len(), |d: int| regime(feats@, d)),
{
    let n: usize = feats.len();
    let mut scores: Vec<Option<(i64, i64)>> = Vec::new();
    let mut d: usize = 0;
    while d < n
        invariant
            n == feats@.len(),
            d <= n,
            scores@.len() == d,
            forall|k: int|
                0 <= k < d ==> score_ints(#[trigger] scores@[k]) == composite(feats@, k) && (
                scores@[k] matches Some(c) ==> 0 <= c.0 <= 48_009_024 && 0 < c.1 <= 16_003_008),
        decreases n - d,
    {
        scores.push(composite_score(feats, d));
        d = d + 1;
    }
    let mut out: Vec<u8> = Vec::new();
    d = 0;
    while d < n
        invariant
            n == feats@.len(),
            d <= n,
            scores@.len() == n,
            forall|k: int|
                0 <= k < n ==> score_ints(#[trigger] scores@[k]) == composite(feats@, k) && (
                scores@[k] matches Some(c) ==> 0 <= c.0 <= 48_009_024 && 0 < c.1 <= 16_003_008),
            out@.len() == d,
            forall|k: int| 0 <= k < d ==> #[trigger] out@[k] == regime(feats@, k),
        decreases n - d,
    {
        let mut r: u8 = REGIME_UNKNOWN;
        if d >= 2 * REGIME_LOOKBACK {
            match scores[d] {
                Some((num, den)) => {
                    let lo: usize = d - REGIME_LOOKBACK;
                    let mut count: i64 = 0;
                    let mut below: i64 = 0;
                    let mut i: usize = lo;
                    while i < d
                        invariant
                            n == feats@.len(),
                            lo <= i <= d < n,
                            d - lo == REGIME_LOOKBACK,
                            scores@.len() == n,
                            0 <= num <= 48_009_024,
                            0 < den <= 16_003_008,
                            forall|k: int|
                                0 <= k < n ==> score_ints(#[trigger] scores@[k]) == composite(
                                    feats@,
                                    k,
                                ) && (scores@[k] matches Some(c) ==> 0 <= c.0 <= 48_009_024 && 0
                                    < c.1 <= 16_003_008),
                            count == scored(feats@, lo as int, i as int),
                            below == scored_below(
                                feats@,
                                lo as int,
                                i as int,
                                (num as int, den as int),
                            ),
                            0 <= below <= count <= i - lo,
                        decreases d - i,
                    {
                        proof {
                            assert(score_ints(scores@[i as int]) == composite(feats@, i as int));
                        }
                        match scores[i] {
                            Some((a, b)) => {
                                count = count + 1;
                                proof {
                                    lemma_score_product(a as int, den as int);
                                    lemma_score_product(num as int, b as int);
                                }
                                if a * den < num * b {
                                    below = below + 1;
                                }
                            },
                            None => {},
                        }
                        i = i + 1;
                    }
                    if count >= REGIME_SAMPLE as i64 {
                        r = quintile_to_regime(below, count);
                    }
                },
                None => {},
            }
        }
        proof {
            assert(score_ints(scores@[d as int]) == composite(feats@, d as int));
        }
        out.push(r);
        d = d + 1;
    }
    out
}

proof fn lemma_score_product(a: int, b: int)
    requires
        0 <= a <= 48_009_024,
        0 <= b <= 16_003_008,
    ensures
        0 <= a * b <= 1_000_000_000_000_000,
{
    assert(0 <= a * b <= 1_000_000_000_000_000) by (nonlinear_arith)
        requires
            0 <= a <= 48_009_024,
            0 <= b <= 16_003_008,
    ;
}

/// No day is classified before two full lookbacks, and a day that is classified
/// is in one of the five regimes.
pub proof fn a_regime_needs_two_lookbacks(feats: Seq<VolFeatures>, d: int)
    ensures
        d < 2 * REGIME_LOOKBACK ==> regime(feats, d) == REGIME_UNKNOWN,
        regime(feats, d) <= REGIME_CRISIS,
{
}

proof fn lemma_taken_reads_window(
    a: Seq<VolFeatures>,
    b: Seq<VolFeatures>,
    m: Measure,
    from: int,
    to: int,
    x: i64,
)
    requires
        0 <= from,
        forall|i: int| 0 <= i < to ==> #[trigger] a[i] == b[i],
    ensures
        taken(a, m, from, to) == taken(b, m, from, to),
        taken_below(a, m, from, to, x) == taken_below(b, m, from, to, x),
    decreases to - from,
{
    if from < to {
        lemma_taken_reads_window(a, b, m, from, to - 1, x);
        assert(a[to - 1] == b[to - 1]);
    }
}

pub(crate) proof fn lemma_composite_reads_past(a: Seq<VolFeatures>, b: Seq<VolFeatures>, d: int)
    requires
        0 <= d,
        forall|i: int| 0 <= i <= d ==> #[trigger] a[i] == b[i],
    ensures
        composite(a, d) == composite(b, d),
{
    if d >= REGIME_LOOKBACK {
        let lo = d - REGIME_LOOKBACK;
        assert(a[d] == b[d]);
        lemma_taken_reads_window(a, b, Measure::Rv, lo, d, a[d].rv);
        lemma_taken_reads_window(a, b, Measure::Atr, lo, d, a[d].atr14);
        lemma_taken_reads_window(a, b, Measure::Proxy, lo, d, a[d].vix_proxy);
    }
}

proof fn lemma_scored_reads_past(
    a: Seq<VolFeatures>,
    b: Seq<VolFeatures>,
    from: int,
    to: int,
    x: (int, int),
)
    requires
        0 <= from,
        forall|i: int| 0 <= i < to ==> #[trigger] a[i] == b[i],
    ensures
        scored(a, from, to) == scored(b, from, to),
        scored_below(a, from, to, x) == scored_below(b, from, to, x),
    decreases to - from,
{
    if from < to {
        lemma_scored_reads_past(a, b, from, to - 1, x);
        lemma_composite_reads_past(a, b, to - 1);
    }
}

/// A regime looks at no later day: features that agree up to a day give the day
/// the same regime.
pub proof fn a_regime_reads_no_later_day(a: Seq<VolFeatures>, b: Seq<VolFeatures>, d: int)
    requires
        0 <= d,
        forall|i: int| 0 <= i <= d ==> #[trigger] a[i] == b[i],
    ensures
        regime(a, d) == regime(b, d),
{
    lemma_composite_reads_past(a, b, d);
    if let Some(c) = composite(a, d) {
        if d >= 2 * REGIME_LOOKBACK {
            lemma_scored_reads_past(a, b, d - REGIME_LOOKBACK, d, c);
        }
    }
}

// ---------------------------------------------------------------------------
// Windows for the estimators
// ---------------------------------------------------------------------------

/// Daily closes that a Hurst estimate looks back on.
pub const HURST_WIN: usize = 100;

/// Measured closes that a Hurst estimate needs.
pub const HURST_SAMPLE: usize = 20;

/// The positive values of a sequence, in order.
pub open spec fn positive(s: Seq<i64>) -> Seq<i64> {
    s.filter(|x: i64| x > 0)
}

/// The closes that the Hurst estimate of day `d` is made from: the positive ones
/// of the hundred days strictly before it, where there are enough.
pub open spec fn hurst_sample(day_close: Seq<i64>, d: int) -> Option<Seq<i64>> {
    if d < HURST_WIN {
        None
    } else {
        let w = positive(day_close.subrange(d - HURST_WIN, d));
        if w.len() < HURST_SAMPLE {
            None
        } else {
            Some(w)
        }
    }
}

/// The closes for the Hurst estimate of a day, computed from closes strictly
/// before that day. Days without enough history have none.
pub fn hurst_window(day_close: &[i64], d: usize) -> (r: Option<Vec<i64>>)
    requires
        d <= day_close@.len(),
    ensures
        match r {
            Some(w) => hurst_sample(day_close@, d as int) == Some(w@),
            None => hurst_sample(day_close@, d as int) is None,
        },
{
    if d < HURST_WIN {
        return None;
    }
    let lo: usize = d - HURST_WIN;
    let ghost window = day_close@.subrange(lo as int, d as int);
    let ghost p = |x: i64| x > 0;
    let mut w: Vec<i64> = Vec::new();
    let mut i: usize = lo;
    proof {
        assert(window.take(0) == Seq::<i64>::empty());
        Seq::<i64>::empty().lemma_filter_len(p);
    }
    while i < d
        invariant
            lo <= i <= d <= day_close@.len(),
            window == day_close@.subrange(lo as int, d as int),
            p == (|x: i64| x > 0),
            w@ == window.take(i - lo).filter(p),
        decreases d - i,
    {
        let c: i64 = day_close[i];
        proof {
            assert(window.take(i - lo + 1) == window.take(i - lo).push(c));
            window.take(i - lo).lemma_filter_push(c, p);
        }
        if c > 0 {
            w.push(c);
        }
        i = i + 1;
    }
    proof {
        assert(window.take(d - lo) == window);
    }
    if w.len() < HURST_SAMPLE {
        None
    } else {
        Some(w)
    }
}

/// The Hurst estimate of a day reads no close of that day or a later one.
pub proof fn a_hurst_sample_reads_only_earlier_closes(a: Seq<i64>, b: Seq<i64>, d: int)
    requires
        0 <= d <= a.len(),
        d <= b.len(),
        forall|i: int| 0 <= i < d ==> #[trigger] a[i] == b[i],
    ensures
        hurst_sample(a, d) == hurst_sample(b, d),
{
    if d >= HURST_WIN {
        assert(a.subrange(d - HURST_WIN, d) =~= b.subrange(d - HURST_WIN, d));
    }
}

/// Consecutive pairs of a sequence whose values are both positive, in order.
pub open spec fn positive_pairs(s: Seq<i64>) -> Seq<(i64, i64)>
    decreases s.len(),
{
    if s.len() < 2 {
        Seq::empty()
    } else {
        let before = positive_pairs(s.drop_last());
        let pair = (s[s.len() - 2], s.last());
        if pair.0 > 0 && pair.1 > 0 {
            before.push(pair)
        } else {
            before
        }
    }
}

/// The pairs of consecutive prices that a return can be taken of.
pub fn return_pairs(prices: &[i64]) -> (r: Vec<(i64, i64)>)
    ensures
        r@ == positive_pairs(prices@),
{
    let mut r: Vec<(i64, i64)> = Vec::new();
    let mut i: usize = 1;
    proof {
        if prices@.len() >= 1 {
            assert(positive_pairs(prices@.take(1)) == Seq::<(i64, i64)>::empty());
        }
    }
    while i < prices.len()
        invariant
            1 <= i,
            prices@.len() >= 1 ==> i <= prices@.len(),
            prices@.len() == 0 ==> i == 1 && r@.len() == 0,
            prices@.len() >= 1 ==> r@ == positive_pairs(prices@.take(i as int)),
        decreases prices@.len() - i,
    {
        proof {
            assert(prices@.take(i + 1).drop_last() == prices@.take(i as int));
        }
        if prices[i - 1] > 0 && prices[i] > 0 {
            r.push((prices[i - 1], prices[i]));
        }
        i = i + 1;
    }
    proof {
        assert(prices@.take(prices@.len() as int) == prices@);
    }
    r
}

/// Closes of the bars of `s..e` that are inside the session, in order.
pub open spec fn session_close_seq(
    bars: Seq<Bar>,
    s: int,
    e: int,
    open_mins: i32,
    close_mins: i32,
) -> Seq<i64>
    decreases e - s,
{
    if e <= s {
        Seq::empty()
    } else {
        let before = session_close_seq(bars, s, e - 1, open_mins, close_mins);
        if inside(bars[e - 1].time_mins, open_mins, close_mins) {
            before.push(bars[e - 1].close)
        } else {
            before
        }
    }
}

/// The closes of a day's session, in order.
pub fn session_closes(bars: &[Bar], day: &DayMeta, inst: &InstCfg) -> (r: Vec<i64>)
    requires
        day.sess_start < day.sess_end ==> day.sess_end <= bars@.len(),
    ensures
        r@ == session_close_seq(
            bars@,
            day.sess_start as int,
            day.sess_end as int,
            inst.open_mins,
            inst.close_mins,
        ),
{
    let s: usize = day.sess_start;
    let e: usize = day.sess_end;
    let mut r: Vec<i64> = Vec::new();
    let mut i: usize = s;
    while i < e
        invariant
            s < e ==> e <= bars@.len(),
            s <= i,
            s < e ==> i <= e,
            s >= e ==> i == s,
            r@ == session_close_seq(
                bars@,
                s as int,
                i as int,
                inst.open_mins,
                inst.close_mins,
            ),
        decreases e - i,
    {
        if in_session(bars[i].time_mins, inst.open_mins, inst.close_mins) {
            r.push(bars[i].close);
        }
        i = i + 1;
    }
    r
}

/// Returns of a session that its realised volatility needs more than.
pub const RV_RETURNS: usize = 5;

/// The pairs of closes that a session's realised volatility is measured on, where
/// there are enough of them.
pub open spec fn rv_sample(closes: Seq<i64>) -> Option<Seq<(i64, i64)>> {
    if positive_pairs(closes).len() > RV_RETURNS {
        Some(positive_pairs(closes))
    } else {
        None
    }
}

/// The pairs of closes that a session's realised volatility is measured on.
pub fn rv_pairs(closes: &[i64]) -> (r: Option<Vec<(i64, i64)>>)
    ensures
        match r {
            Some(p) => rv_sample(closes@) == Some(p@),
            None => rv_sample(closes@) is None,
        },
{
    let pairs: Vec<(i64, i64)> = return_pairs(closes);
    if pairs.len() > RV_RETURNS {
        Some(pairs)
    } else {
        None
    }
}

/// Days that the close-to-close volatility looks back on.
pub const PROXY_DAYS: usize = 30;

/// The closes that the return of day `d` is taken of: its own and the day
/// before's, where both are positive.
pub open spec fn day_pair(day_close: Seq<i64>, d: int) -> Option<(i64, i64)> {
    if d > 0 && day_close[d - 1] > 0 && day_close[d] > 0 {
        Some((day_close[d - 1], day_close[d]))
    } else {
        None
    }
}

/// The returns that the close-to-close volatility of day `d` is measured on: those
/// of the days up to it, one that cannot be taken counting as none.
pub open spec fn proxy_sample(day_close: Seq<i64>, d: int) -> Option<Seq<Option<(i64, i64)>>> {
    if d < PROXY_DAYS {
        None
    } else {
        Some(
            Seq::new(
                PROXY_DAYS as nat,
                |k: int| day_pair(day_close, d - (PROXY_DAYS - 1) + k),
            ),
        )
    }
}

/// The returns that the close-to-close volatility of a day is measured on.
pub fn proxy_window(day_close: &[i64], d: usize) -> (r: Option<Vec<Option<(i64, i64)>>>)
    requires
        d < day_close@.len(),
    ensures
        match r {
            Some(w) => proxy_sample(day_close@, d as int) == Some(w@),
            None => proxy_sample(day_close@, d as int) is None,
        },
{
    if d < PROXY_DAYS {
        return None;
    }
    let ghost want = Seq::new(
        PROXY_DAYS as nat,
        |k: int| day_pair(day_close@, d - (PROXY_DAYS - 1) + k),
    );
    let first: usize = d - (PROXY_DAYS - 1);
    let mut w: Vec<Option<(i64, i64)>> = Vec::new();
    let mut k: usize = 0;
    while k < PROXY_DAYS
        invariant
            PROXY_DAYS <= d < day_close@.len(),
            first == d - (PROXY_DAYS - 1),
            want == Seq::new(
                PROXY_DAYS as nat,
                |k: int| day_pair(day_close@, d - (PROXY_DAYS - 1) + k),
            ),
            k <= PROXY_DAYS,
            w@.len() == k,
            forall|j: int| 0 <= j < k ==> #[trigger] w@[j] == want[j],
        decreases PROXY_DAYS - k,
    {
        let before: i64 = day_close[first + k - 1];
        let after: i64 = day_close[first + k];
        w.push(
            if before > 0 && after > 0 {
                Some((before, after))
            } else {
                None
            },
        );
        k = k + 1;
    }
    proof {
        assert(w@ =~= want);
    }
    Some(w)
}

/// The last session closes of the days.
pub open spec fn daily_closes(bars: Seq<Bar>, days: Seq<DayMeta>, inst: InstCfg) -> Seq<i64> {
    Seq::new(days.len(), |d: int| session_close(bars, days[d], inst))
}

/// The sample of day `k`'s realised volatility.
pub open spec fn rv_sample_of(
    bars: Seq<Bar>,
    days: Seq<DayMeta>,
    inst: InstCfg,
    k: int,
) -> Option<Seq<(i64, i64)>> {
    rv_sample(
        session_close_seq(
            bars,
            days[k].sess_start as int,
            days[k].sess_end as int,
            inst.open_mins,
            inst.close_mins,
        ),
    )
}

proof fn lemma_closes_read_session(
    a: Seq<Bar>,
    b: Seq<Bar>,
    s: int,
    e: int,
    open_mins: i32,
    close_mins: i32,
)
    requires
        forall|i: int| s <= i < e ==> #[trigger] a[i] == b[i],
    ensures
        session_close_seq(a, s, e, open_mins, close_mins) == session_close_seq(
            b,
            s,
            e,
            open_mins,
            close_mins,
        ),
    decreases e - s,
{
    if s < e {
        lemma_closes_read_session(a, b, s, e - 1, open_mins, close_mins);
        assert(a[e - 1] == b[e - 1]);
    }
}

/// The samples that the volatilities of a day are measured on read no session
/// after that day.
pub proof fn volatility_samples_read_no_later_session(
    bars_a: Seq<Bar>,
    days_a: Seq<DayMeta>,
    bars_b: Seq<Bar>,
    days_b: Seq<DayMeta>,
    inst: InstCfg,
    k: int,
)
    requires
        0 <= k < days_a.len(),
        k < days_b.len(),
        agree_before(bars_a, days_a, bars_b, days_b, k + 1),
    ensures
        rv_sample_of(bars_a, days_a, inst, k) == rv_sample_of(bars_b, days_b, inst, k),
        proxy_sample(daily_closes(bars_a, days_a, inst), k) == proxy_sample(
            daily_closes(bars_b, days_b, inst),
            k,
        ),
{
    let (ca, cb) = (daily_closes(bars_a, days_a, inst), daily_closes(bars_b, days_b, inst));
    assert forall|j: int| 0 <= j <= k implies #[trigger] ca[j] == cb[j] by {
        let day = days_a[j];
        assert(days_b[j] == day);
        lemma_extremes_read_session(
            bars_a,
            bars_b,
            day.sess_start as int,
            day.sess_end as int,
            inst.open_mins,
            inst.close_mins,
        );
    }
    let day = days_a[k];
    assert(days_b[k] == day);
    lemma_closes_read_session(
        bars_a,
        bars_b,
        day.sess_start as int,
        day.sess_end as int,
        inst.open_mins,
        inst.close_mins,
    );
    if k >= PROXY_DAYS {
        let (x, y) = (proxy_sample(ca, k)->0, proxy_sample(cb, k)->0);
        assert forall|j: int| 0 <= j < PROXY_DAYS implies #[trigger] x[j] == y[j] by {
            let d = k - (PROXY_DAYS - 1) + j;
            assert(ca[d] == cb[d]);
            if d > 0 {
                assert(ca[d - 1] == cb[d - 1]);
            }
        }
        assert(x =~= y);
    }
}

/// Whether a value is what a measurement answers to a sample; `none` where there
/// is no sample.
pub open spec fn measured_on<S, V, F: Fn(&Vec<S>) -> V>(
    measure: F,
    sample: Option<Seq<S>>,
    none: V,
    v: V,
) -> bool {
    match sample {
        Some(x) => exists|t: &Vec<S>| t@ == x && #[trigger] call_ensures(measure, (t,), v),
        None => v == none,
    }
}

/// Whether a measurement answers one thing to one sample.
pub open spec fn measures_alike<S, V, F: Fn(&Vec<S>) -> V>(measure: F) -> bool {
    forall|a: &Vec<S>, b: &Vec<S>, p: V, q: V|
        a@ == b@ && #[trigger] call_ensures(measure, (a,), p) && #[trigger] call_ensures(
            measure,
            (b,),
            q,
        ) ==> p == q
}

proof fn lemma_measured_alike<S, V, F: Fn(&Vec<S>) -> V>(
    measure: F,
    sample: Option<Seq<S>>,
    none: V,
    v: V,
    w: V,
)
    requires
        measures_alike(measure),
        measured_on(measure, sample, none, v),
        measured_on(measure, sample, none, w),
    ensures
        v == w,
{
    if sample is Some {
        let x = sample->0;
        let a = choose|t: &Vec<S>| t@ == x && #[trigger] call_ensures(measure, (t,), v);
        let b = choose|t: &Vec<S>| t@ == x && #[trigger] call_ensures(measure, (t,), w);
        assert(a@ == b@);
    }
}

/// Whether these are the volatility features of the days: those of the day before,
/// its realised volatility and its proxy as measured on its samples, 0 where it
/// has none; nothing for the first day.
pub open spec fn are_vol_features<
    F: Fn(&Vec<(i64, i64)>) -> i64,
    G: Fn(&Vec<Option<(i64, i64)>>) -> i64,
>(r: Seq<VolFeatures>, bars: Seq<Bar>, days: Seq<DayMeta>, inst: InstCfg, rv: F, vp: G) -> bool {
    let closes = daily_closes(bars, days, inst);
    &&& r.len() == days.len()
    &&& r.len() > 0 ==> r[0] == (VolFeatures { rv: 0, atr14: 0, vix_proxy: 0 })
    &&& forall|d: int|
        1 <= d < r.len() ==> {
            &&& measured_on(rv, rv_sample_of(bars, days, inst, d - 1), 0, (#[trigger] r[d]).rv)
            &&& r[d].atr14 == atr_sum(bars, days, inst, d - 1)
            &&& measured_on(vp, proxy_sample(closes, d - 1), 0, r[d].vix_proxy)
        }
}

fn realised_volatilities<F: Fn(&Vec<(i64, i64)>) -> i64>(
    bars: &[Bar],
    days: &[DayMeta],
    inst: &InstCfg,
    rv: &F,
) -> (r: Vec<i64>)
    requires
        sessions_fit(bars@, days@),
        forall|t: &Vec<(i64, i64)>| #[trigger] call_requires(*rv, (t,)),
    ensures
        r@.len() == days@.len(),
        forall|k: int|
            0 <= k < days@.len() ==> measured_on(
                *rv,
                rv_sample_of(bars@, days@, *inst, k),
                0,
                #[trigger] r@[k],
            ),
{
    let mut r: Vec<i64> = Vec::new();
    let mut d: usize = 0;
    while d < days.len()
        invariant
            sessions_fit(bars@, days@),
            forall|t: &Vec<(i64, i64)>| #[trigger] call_requires(*rv, (t,)),
            d <= days@.len(),
            r@.len() == d,
            forall|k: int|
                0 <= k < d ==> measured_on(
                    *rv,
                    rv_sample_of(bars@, days@, *inst, k),
                    0,
                    #[trigger] r@[k],
                ),
        decreases days@.len() - d,
    {
        let closes: Vec<i64> = session_closes(bars, &days[d], inst);
        let v: i64 = match rv_pairs(closes.as_slice()) {
            Some(pairs) => rv(&pairs),
            None => 0,
        };
        r.push(v);
        d = d + 1;
    }
    r
}

fn volatility_proxies<G: Fn(&Vec<Option<(i64, i64)>>) -> i64>(day_close: &Vec<i64>, vp: &G) -> (r:
    Vec<i64>)
    requires
        forall|t: &Vec<Option<(i64, i64)>>| #[trigger] call_requires(*vp, (t,)),
    ensures
        r@.len() == day_close@.len(),
        forall|k: int|
            0 <= k < day_close@.len() ==> measured_on(
                *vp,
                proxy_sample(day_close@, k),
                0,
                #[trigger] r@[k],
            ),
{
    let mut r: Vec<i64> = Vec::new();
    let mut d: usize = 0;
    while d < day_close.len()
        invariant
            forall|t: &Vec<Option<(i64, i64)>>| #[trigger] call_requires(*vp, (t,)),
            d <= day_close@.len(),
            r@.len() == d,
            forall|k: int|
                0 <= k < d ==> measured_on(
                    *vp,
                    proxy_sample(day_close@, k),
                    0,
                    #[trigger] r@[k],
                ),
        decreases day_close@.len() - d,
    {
        let v: i64 = match proxy_window(day_close.as_slice(), d) {
            Some(w) => vp(&w),
            None => 0,
        };
        r.push(v);
        d = d + 1;
    }
    r
}

/// Realised volatility, ATR and a 30-day close-to-close vol proxy, each lagged
/// one day so that day `d` only ever sees information complete before its open.
/// `rv` and `vp` measure the two volatilities, in trillionths, on the pairs of
/// closes that their returns are taken of.
pub fn compute_vol_features<
    F: Fn(&Vec<(i64, i64)>) -> i64,
    G: Fn(&Vec<Option<(i64, i64)>>) -> i64,
>(bars: &[Bar], days: &[DayMeta], inst: &InstCfg, rv: &F, vp: &G) -> (r: Vec<VolFeatures>)
    requires
        sessions_fit(bars@, days@),
        bars_in_range(bars@),
        forall|t: &Vec<(i64, i64)>| #[trigger] call_requires(*rv, (t,)),
        forall|t: &Vec<Option<(i64, i64)>>| #[trigger] call_requires(*vp, (t,)),
    ensures
        are_vol_features(r@, bars@, days@, *inst, *rv, *vp),
{
    let day_close: Vec<i64> = precompute_daily_closes(bars, days, inst);
    proof {
        assert(day_close@ =~= daily_closes(bars@, days@, *inst));
    }
    let day_rv: Vec<i64> = realised_volatilities(bars, days, inst, rv);
    let day_vp: Vec<i64> = volatility_proxies(&day_close, vp);
    let r: Vec<VolFeatures> = lagged_features(
        bars,
        days,
        inst,
        day_rv.as_slice(),
        day_vp.as_slice(),
    );
    proof {
        assert forall|d: int| 1 <= d < r@.len() implies {
            &&& measured_on(
                *rv,
                rv_sample_of(bars@, days@, *inst, d - 1),
                0,
                (#[trigger] r@[d]).rv,
            )
            &&& r@[d].atr14 == atr_sum(bars@, days@, *inst, d - 1)
            &&& measured_on(*vp, proxy_sample(day_close@, d - 1), 0, r@[d].vix_proxy)
        } by {
            assert(r@[d].rv == day_rv@[d - 1]);
            assert(r@[d].vix_proxy == day_vp@[d - 1]);
        }
    }
    r
}

/// The volatility features of the days up to `d` depend on the sessions before
/// `d` alone, however the two volatilities are measured on their samples, as long
/// as one sample is measured one way.
pub proof fn features_depend_on_earlier_sessions_alone<
    F: Fn(&Vec<(i64, i64)>) -> i64,
    G: Fn(&Vec<Option<(i64, i64)>>) -> i64,
>(
    bars_a: Seq<Bar>,
    days_a: Seq<DayMeta>,
    bars_b: Seq<Bar>,
    days_b: Seq<DayMeta>,
    inst: InstCfg,
    rv: F,
    vp: G,
    a: Seq<VolFeatures>,
    b: Seq<VolFeatures>,
    d: int,
)
    requires
        0 <= d < days_a.len(),
        d < days_b.len(),
        agree_before(bars_a, days_a, bars_b, days_b, d),
        are_vol_features(a, bars_a, days_a, inst, rv, vp),
        are_vol_features(b, bars_b, days_b, inst, rv, vp),
        measures_alike(rv),
        measures_alike(vp),
    ensures
        a.take(d + 1) == b.take(d + 1),
{
    assert forall|j: int| 0 <= j <= d implies #[trigger] a[j] == b[j] by {
        if j > 0 {
            let k = j - 1;
            volatility_samples_read_no_later_session(bars_a, days_a, bars_b, days_b, inst, k);
            let (x, y) = (a[j], b[j]);
            lemma_measured_alike(rv, rv_sample_of(bars_a, days_a, inst, k), 0, x.rv, y.rv);
            lemma_measured_alike(
                vp,
                proxy_sample(daily_closes(bars_a, days_a, inst), k),
                0,
                x.vix_proxy,
                y.vix_proxy,
            );
            if k >= 13 {
                lemma_true_ranges_read_past(bars_a, days_a, bars_b, days_b, inst, j, k - 13, j);
            }
        }
    }
    assert(a.take(d + 1) =~= b.take(d + 1));
}

/// Whether these are the Hurst exponents known before each day, as estimated on
/// the closes before it; none where there are too few.
pub open spec fn are_hurst_estimates<F: Fn(&Vec<i64>) -> Option<i64>>(
    r: Seq<Option<i64>>,
    day_close: Seq<i64>,
    estimate: F,
) -> bool {
    &&& r.len() == day_close.len()
    &&& forall|d: int|
        0 <= d < r.len() ==> measured_on(
            estimate,
            hurst_sample(day_close, d),
            None,
            #[trigger] r[d],
        )
}

/// Hurst for each day, in trillionths, from closes strictly before that day.
/// `estimate` answers for the closes of one window; a day without an estimate has
/// none.
pub fn precompute_hurst_prev<F: Fn(&Vec<i64>) -> Option<i64>>(
    day_close: &[i64],
    estimate: &F,
) -> (r: Vec<Option<i64>>)
    requires
        forall|t: &Vec<i64>| #[trigger] call_requires(*estimate, (t,)),
    ensures
        are_hurst_estimates(r@, day_close@, *estimate),
{
    let mut r: Vec<Option<i64>> = Vec::new();
    let mut d: usize = 0;
    while d < day_close.len()
        invariant
            forall|t: &Vec<i64>| #[trigger] call_requires(*estimate, (t,)),
            d <= day_close@.len(),
            r@.len() == d,
            forall|k: int|
                0 <= k < d ==> measured_on(
                    *estimate,
                    hurst_sample(day_close@, k),
                    None,
                    #[trigger] r@[k],
                ),
        decreases day_close@.len() - d,
    {
        let h: Option<i64> = match hurst_window(day_close, d) {
            Some(w) => estimate(&w),
            None => None,
        };
        r.push(h);
        d = d + 1;
    }
    r
}

/// The Hurst exponents known before the days up to `d` depend on the closes before
/// `d` alone, as long as one sample is estimated one way.
pub proof fn hurst_estimates_read_only_earlier_closes<F: Fn(&Vec<i64>) -> Option<i64>>(
    x: Seq<i64>,
    y: Seq<i64>,
    estimate: F,
    a: Seq<Option<i64>>,
    b: Seq<Option<i64>>,
    d: int,
)
    requires
        0 <= d < x.len(),
        d < y.len(),
        forall|k: int| 0 <= k < d ==> #[trigger] x[k] == y[k],
        are_hurst_estimates(a, x, estimate),
        are_hurst_estimates(b, y, estimate),
        measures_alike(estimate),
    ensures
        a.take(d + 1) == b.take(d + 1),
{
    assert forall|j: int| 0 <= j <= d implies #[trigger] a[j] == b[j] by {
        a_hurst_sample_reads_only_earlier_closes(x, y, j);
        lemma_measured_alike(estimate, hurst_sample(x, j), None, a[j], b[j]);
    }
    assert(a.take(d + 1) =~= b.take(d + 1));
}

// ---------------------------------------------------------------------------
// Sample entropy
// ---------------------------------------------------------------------------

/// The length of the shorter templates.
pub const TEMPLATE_LEN: usize = 2;

/// Most values that an entropy sample may have.
pub const MAX_ENTROPY_LEN: usize = 100_000;

/// Largest return of an entropy sample, in trillionths.
pub const MAX_RETURN: i64 = 10_000_000_000_000;

/// Closes that an entropy sample needs.
pub const ENTROPY_CLOSES: usize = 5;

/// Returns that an entropy sample needs.
pub const ENTROPY_RETURNS: usize = 4;

/// The pairs of closes that the returns of an entropy sample are taken of, where
/// there are enough of both.
pub open spec fn entropy_sample(closes: Seq<i64>) -> Option<Seq<(i64, i64)>> {
    if closes.len() < ENTROPY_CLOSES || positive_pairs(closes).len() < ENTROPY_RETURNS {
        None
    } else {
        Some(positive_pairs(closes))
    }
}

/// The pairs of closes that the returns of an entropy sample are taken of.
pub fn entropy_pairs(closes: &[i64]) -> (r: Option<Vec<(i64, i64)>>)
    ensures
        match r {
            Some(p) => entropy_sample(closes@) == Some(p@),
            None => entropy_sample(closes@) is None,
        },
{
    if closes.len() < ENTROPY_CLOSES {
        return None;
    }
    let pairs: Vec<(i64, i64)> = return_pairs(closes);
    if pairs.len() < ENTROPY_RETURNS {
        None
    } else {
        Some(pairs)
    }
}

/// The variance of a sample times the square of its length.
pub open spec fn scaled_variance(s: Seq<i64>) -> int {
    let sum = total(s.map_values(|x: i64| x as int));
    s.len() * total(s.map_values(|x: i64| x * x)) - sum * sum
}

/// Whether two values are within a fifth of the sample's standard deviation of
/// each other: 25 times the square of their distance is at most the variance.
pub open spec fn near_at(s: Seq<i64>, i: int, j: int) -> bool {
    25 * s.len() * s.len() * ((s[i] - s[j]) * (s[i] - s[j])) <= scaled_variance(s)
}

/// Whether the templates of length `tl` at `i` and `j` match: each of their
/// values is near the other's.
pub open spec fn templates_match(s: Seq<i64>, i: int, j: int, tl: int) -> bool {
    forall|k: int| 0 <= k < tl ==> #[trigger] near_at(s, i + k, j + k)
}

/// Matches of the template at `i` with the templates in `from..upper`.
pub open spec fn matches_of(s: Seq<i64>, i: int, from: int, upper: int, tl: int) -> int
    decreases upper - from,
{
    if upper <= from {
        0
    } else {
        matches_of(s, i, from, upper - 1, tl) + if templates_match(s, i, upper - 1, tl) {
            1int
        } else {
            0int
        }
    }
}

/// Pairs of matching templates whose first is before `n`.
pub open spec fn matching_pairs(s: Seq<i64>, n: int, upper: int, tl: int) -> int
    decreases n,
{
    if n <= 0 {
        0
    } else {
        matching_pairs(s, n - 1, upper, tl) + matches_of(s, n - 1, n, upper, tl)
    }
}

/// Pairs of matching templates of length m and of length m+1, both over the same
/// positions so that the second over the first is a proper conditional
/// probability. Sample entropy is the logarithm of the first over the second.
/// There is none where the sample is too short, hardly varies (a tolerance below
/// 100 trillionths), or has no match.
pub open spec fn entropy_of(s: Seq<i64>) -> Option<(int, int)> {
    let upper = s.len() - TEMPLATE_LEN;
    let b = matching_pairs(s, upper, upper, TEMPLATE_LEN as int);
    let a = matching_pairs(s, upper, upper, TEMPLATE_LEN + 1);
    if s.len() < TEMPLATE_LEN + 2 || scaled_variance(s) < 250_000 * s.len() * s.len() || b == 0 || a == 0 {
        None
    } else {
        Some((b, a))
    }
}

/// Returns small and few enough for exact variances.
pub open spec fn small_returns(s: Seq<i64>) -> bool {
    &&& s.len() <= MAX_ENTROPY_LEN
    &&& forall|i: int| 0 <= i < s.len() ==> -MAX_RETURN <= #[trigger] s[i] <= MAX_RETURN
}

fn variance_of(s: &Vec<i64>) -> (r: i128)
    requires
        small_returns(s@),
    ensures
        r == scaled_variance(s@),
{
    let ghost plain = s@.map_values(|x: i64| x as int);
    let ghost squares = s@.map_values(|x: i64| x * x);
    let mut sum: i128 = 0;
    let mut square_sum: i128 = 0;
    let mut i: usize = 0;
    proof {
        assert(plain.take(0) =~= Seq::<int>::empty());
        assert(squares.take(0) =~= Seq::<int>::empty());
    }
    while i < s.len()
        invariant
            small_returns(s@),
            plain == s@.map_values(|x: i64| x as int),
            squares == s@.map_values(|x: i64| x * x),
            i <= s@.len(),
            sum == total(plain.take(i as int)),
            square_sum == total(squares.take(i as int)),
            -10_000_000_000_000 * i <= sum <= 10_000_000_000_000 * i,
            0 <= square_sum <= 100_000_000_000_000_000_000_000_000 * i,
        decreases s@.len() - i,
    {
        let x: i128 = s[i] as i128;
        proof {
            assert(plain.take(i + 1).drop_last() =~= plain.take(i as int));
            assert(squares.take(i + 1).drop_last() =~= squares.take(i as int));
            assert(-10_000_000_000_000 <= s@[i as int] <= 10_000_000_000_000);
            assert(0 <= x * x <= 100_000_000_000_000_000_000_000_000) by (nonlinear_arith)
                requires
                    -10_000_000_000_000 <= x <= 10_000_000_000_000,
            ;
        }
        sum = sum + x;
        square_sum = square_sum + x * x;
        i = i + 1;
    }
    let n: i128 = s.len() as i128;
    proof {
        assert(plain.take(s@.len() as int) =~= plain);
        assert(squares.take(s@.len() as int) =~= squares);
        assert(0 <= n * square_sum <= 1_000_000_000_000_000_000_000_000_000_000_000_000)
            by (nonlinear_arith)
            requires
                0 <= n <= 100_000,
                0 <= square_sum <= 10_000_000_000_000_000_000_000_000_000_000,
        ;
        assert(0 <= sum * sum <= 1_000_000_000_000_000_000_000_000_000_000_000_000)
            by (nonlinear_arith)
            requires
                -1_000_000_000_000_000_000 <= sum <= 1_000_000_000_000_000_000,
        ;
    }
    n * square_sum - sum * sum
}

fn is_near(s: &Vec<i64>, v: i128, i: usize, j: usize) -> (r: bool)
    requires
        small_returns(s@),
        v == scaled_variance(s@),
        i < s@.len(),
        j < s@.len(),
    ensures
        r == near_at(s@, i as int, j as int),
{
    let n: i128 = s.len() as i128;
    let d: i128 = s[i] as i128 - s[j] as i128;
    proof {
        assert(0 <= 25 * n * n <= 250_000_000_000) by (nonlinear_arith)
            requires
                0 <= n <= 100_000,
        ;
        assert(0 <= d * d <= 400_000_000_000_000_000_000_000_000) by (nonlinear_arith)
            requires
                -20_000_000_000_000 <= d <= 20_000_000_000_000,
        ;
    }
    let scale: i128 = 25 * n * n;
    let square: i128 = d * d;
    proof {
        assert(0 <= scale * square <= 100_000_000_000_000_000_000_000_000_000_000_000_000)
            by (nonlinear_arith)
            requires
                0 <= scale <= 250_000_000_000,
                0 <= square <= 400_000_000_000_000_000_000_000_000,
        ;
    }
    scale * square <= v
}

/// Count the pairs of matching templates of length `tl` among the first `upper`
/// positions.
fn template_matches(s: &Vec<i64>, v: i128, upper: usize, tl: usize) -> (r: u64)
    requires
        small_returns(s@),
        v == scaled_variance(s@),
        upper + tl <= s@.len() + 1,
    ensures
        r == matching_pairs(s@, upper as int, upper as int, tl as int),
{
    let mut c: u64 = 0;
    let mut i: usize = 0;
    while i < upper
        invariant
            small_returns(s@),
            v == scaled_variance(s@),
            upper + tl <= s@.len() + 1,
            i <= upper,
            c == matching_pairs(s@, i as int, upper as int, tl as int),
            c <= i * 0x8000_0000,
        decreases upper - i,
    {
        let ghost c0 = c;
        let mut j: usize = i + 1;
        while j < upper
            invariant
                small_returns(s@),
                v == scaled_variance(s@),
                upper + tl <= s@.len() + 1,
                i < j <= upper,
                c0 <= i * 0x8000_0000,
                c == c0 + matches_of(s@, i as int, i + 1, j as int, tl as int),
                c <= c0 + (j - i),
            decreases upper - j,
        {
            let mut ok: bool = true;
            let mut k: usize = 0;
            while k < tl && ok
                invariant
                    small_returns(s@),
                    v == scaled_variance(s@),
                    upper + tl <= s@.len() + 1,
                    i < j < upper,
                    k <= tl,
                    ok ==> forall|x: int| 0 <= x < k ==> #[trigger] near_at(s@, i + x, j + x),
                    !ok ==> !templates_match(s@, i as int, j as int, tl as int),
                decreases tl - k + if ok {
                    1int
                } else {
                    0int
                },
            {
                if is_near(s, v, i + k, j + k) {
                    k = k + 1;
                } else {
                    proof {
                        assert(!near_at(s@, i + k as int, j + k as int));
                    }
                    ok = false;
                }
            }
            if ok {
                c = c + 1;
            }
            j = j + 1;
        }
        i = i + 1;
    }
    c
}

/// The match counts that the sample entropy of returns in trillionths is taken
/// of.
pub fn entropy_counts(s: &Vec<i64>) -> (r: Option<(u64, u64)>)
    requires
        small_returns(s@),
    ensures
        match r {
            Some((b, a)) => entropy_of(s@) == Some((b as int, a as int)),
            None => entropy_of(s@) is None,
        },
{
    let n: usize = s.len();
    if n < TEMPLATE_LEN + 2 {
        return None;
    }
    let v: i128 = variance_of(s);
    let len: i128 = n as i128;
    proof {
        assert(0 <= 250_000 * len * len <= 2_500_000_000_000_000) by (nonlinear_arith)
            requires
                0 <= len <= 100_000,
        ;
    }
    if v < 250_000 * len * len {
        return None;
    }
    let upper: usize = n - TEMPLATE_LEN;
    let b: u64 = template_matches(s, v, upper, TEMPLATE_LEN);
    let a: u64 = template_matches(s, v, upper, TEMPLATE_LEN + 1);
    if b == 0 || a == 0 {
        None
    } else {
        Some((b, a))
    }
}

proof fn lemma_matches_shrink(s: Seq<i64>, i: int, from: int, upper: int, tl: int)
    requires
        0 <= tl,
    ensures
        0 <= matches_of(s, i, from, upper, tl + 1) <= matches_of(s, i, from, upper, tl),
    decreases upper - from,
{
    if from < upper {
        lemma_matches_shrink(s, i, from, upper - 1, tl);
        if templates_match(s, i, upper - 1, tl + 1) {
            assert forall|k: int| 0 <= k < tl implies #[trigger] near_at(
                s,
                i + k,
                upper - 1 + k,
            ) by {}
        }
    }
}

/// Longer templates match no more often: over the same positions, the count for
/// length m+1 never exceeds the count for length m.
pub proof fn longer_templates_match_no_more_often(s: Seq<i64>, n: int, upper: int, tl: int)
    requires
        0 <= tl,
    ensures
        0 <= matching_pairs(s, n, upper, tl + 1) <= matching_pairs(s, n, upper, tl),
    decreases n,
{
    if n > 0 {
        longer_templates_match_no_more_often(s, n - 1, upper, tl);
        lemma_matches_shrink(s, n - 1, n, upper, tl);
    }
}

/// Sample entropy is never negative: the ratio that it is the logarithm of is at
/// least one.
pub proof fn sample_entropy_is_never_negative(s: Seq<i64>)
    ensures
        entropy_of(s) matches Some((b, a)) ==> 0 < a <= b,
{
    let upper = s.len() - TEMPLATE_LEN;
    longer_templates_match_no_more_often(s, upper, upper, TEMPLATE_LEN as int);
}

// ---------------------------------------------------------------------------
// Extreme value tail
// ---------------------------------------------------------------------------

/// Losses that a tail estimate needs.
pub const TAIL_SAMPLE: usize = 20;

/// Losses beyond the 90th percentile that a fit needs.
pub const TAIL_EXCEEDANCES: usize = 5;

/// What the tail of a sample of losses gives a fit to work on.
#[derive(Clone, Debug)]
pub enum TailFit {
    /// Too little data: there is no tail limit.
    Off,
    /// The limit is known without a fit.
    At(i128),
    /// The 90th percentile, and by how much the losses beyond it exceed it.
    Fit(i128, Vec<i128>),
}

/// The 90th percentile of a sample.
pub open spec fn tail_start(losses: Seq<i128>) -> i128 {
    in_order(losses)[losses.len() as int * 9 / 10]
}

/// The losses beyond the 90th percentile, ascending, less the percentile.
pub open spec fn tail_excess(losses: Seq<i128>) -> Seq<i128> {
    let u = tail_start(losses);
    in_order(losses).filter(|x: i128| x > u).map_values(|x: i128| (x - u) as i128)
}

/// Whether all values of a sequence are the same.
pub open spec fn all_equal(s: Seq<i128>) -> bool {
    forall|i: int| 0 <= i < s.len() ==> #[trigger] s[i] == s[0]
}

impl TailFit {
    /// Whether this is the tail of the given losses: none where there are too few,
    /// the largest loss where too few exceed the percentile, the percentile itself
    /// where the excesses do not vary, and else the excesses to fit.
    pub open spec fn is_tail_of(self, losses: Seq<i128>) -> bool {
        if losses.len() < TAIL_SAMPLE {
            self is Off
        } else if tail_excess(losses).len() < TAIL_EXCEEDANCES {
            self == TailFit::At(in_order(losses).last())
        } else if all_equal(tail_excess(losses)) {
            self == TailFit::At(tail_start(losses))
        } else {
            match self {
                TailFit::Fit(u, e) => u == tail_start(losses) && e@ == tail_excess(losses),
                _ => false,
            }
        }
    }

    /// Whether the tail starts at a loss that a limit can be compared with.
    pub open spec fn starts_positive(self) -> bool {
        match self {
            TailFit::Off => true,
            TailFit::At(x) => 0 <= x <= MAX_PNL,
            TailFit::Fit(u, _) => 0 <= u <= MAX_PNL,
        }
    }

    /// The tail limit, given the quantile that a fit came to. A fit never limits
    /// below the percentile it starts from.
    pub open spec fn limit(self, q: i128) -> Option<i128> {
        match self {
            TailFit::Off => None,
            TailFit::At(x) => Some(x),
            TailFit::Fit(u, _) => Some(
                if q > u {
                    q
                } else {
                    u
                },
            ),
        }
    }

    /// The tail limit, given the quantile that a fit came to.
    pub fn threshold(&self, q: i128) -> (r: Option<i128>)
        ensures
            r == self.limit(q),
    {
        match self {
            TailFit::Off => None,
            TailFit::At(x) => Some(*x),
            TailFit::Fit(u, _) => Some(
                if q > *u {
                    q
                } else {
                    *u
                },
            ),
        }
    }
}

/// Prepare the tail of a sample of losses for a generalised Pareto fit to the
/// exceedances over the empirical 90th percentile.
pub fn evt_tail(losses_abs: &Vec<i128>) -> (r: TailFit)
    requires
        forall|i: int|
            0 <= i < losses_abs@.len() ==> -MAX_PNL <= #[trigger] losses_abs@[i] <= MAX_PNL,
        losses_abs@.len() <= usize::MAX / 9,
    ensures
        r.is_tail_of(losses_abs@),
        (forall|i: int| 0 <= i < losses_abs@.len() ==> 0 <= #[trigger] losses_abs@[i])
            ==> r.starts_positive(),
{
    let n: usize = losses_abs.len();
    if n < TAIL_SAMPLE {
        return TailFit::Off;
    }
    let s: Vec<i128> = sorted(losses_abs);
    proof {
        lemma_in_order_bounds(losses_abs@, -MAX_PNL as int, MAX_PNL as int);
        if forall|i: int| 0 <= i < losses_abs@.len() ==> 0 <= #[trigger] losses_abs@[i] {
            lemma_in_order_bounds(losses_abs@, 0, MAX_PNL as int);
        }
    }
    let at: usize = n * 9 / 10;
    let u: i128 = s[at];
    let ghost p = |x: i128| x > u;
    let ghost f = |x: i128| (x - u) as i128;
    let mut exc: Vec<i128> = Vec::new();
    let mut i: usize = 0;
    proof {
        assert(s@.take(0) == Seq::<i128>::empty());
        Seq::<i128>::empty().lemma_filter_len(p);
        assert(exc@ == s@.take(0).filter(p).map_values(f));
    }
    while i < n
        invariant
            i <= n,
            n == s@.len(),
            -MAX_PNL <= u <= MAX_PNL,
            forall|k: int| 0 <= k < s@.len() ==> -MAX_PNL <= #[trigger] s@[k] <= MAX_PNL,
            p == (|x: i128| x > u),
            f == (|x: i128| (x - u) as i128),
            exc@ == s@.take(i as int).filter(p).map_values(f),
        decreases n - i,
    {
        let x: i128 = s[i];
        proof {
            assert(s@.take(i + 1) == s@.take(i as int).push(x));
            s@.take(i as int).lemma_filter_push(x, p);
        }
        if x > u {
            let ghost before = s@.take(i as int).filter(p);
            exc.push(x - u);
            proof {
                assert(before.push(x).map_values(f) =~= before.map_values(f).push((x - u) as i128));
            }
        }
        i = i + 1;
    }
    proof {
        assert(s@.take(n as int) == s@);
        assert(exc@ == tail_excess(losses_abs@));
    }
    if exc.len() < TAIL_EXCEEDANCES {
        return TailFit::At(s[n - 1]);
    }
    let mut j: usize = 1;
    let mut same: bool = true;
    while j < exc.len() && same
        invariant
            1 <= j <= exc@.len(),
            same ==> forall|k: int| 0 <= k < j ==> #[trigger] exc@[k] == exc@[0],
            !same ==> !all_equal(exc@),
        decreases exc@.len() - j + if same {
            1int
        } else {
            0int
        },
    {
        if exc[j] != exc[0] {
            same = false;
        } else {
            j = j + 1;
        }
    }
    if same {
        TailFit::At(u)
    } else {
        TailFit::Fit(u, exc)
    }
}

/// The tail limit of a sample is never below its 90th percentile, whatever the
/// fit comes to.
pub proof fn a_tail_limit_is_beyond_the_body(losses: Seq<i128>, fit: TailFit, q: i128)
    requires
        fit.is_tail_of(losses),
        losses.len() >= TAIL_SAMPLE,
    ensures
        fit.limit(q) is Some,
        fit.limit(q)->0 >= tail_start(losses),
{
    let leq = |x: i128, y: i128| x <= y;
    losses.lemma_sort_by_ensures(leq);
    let s = in_order(losses);
    broadcast use vstd::seq_lib::group_to_multiset_ensures;

    assert(s.to_multiset().len() == losses.to_multiset().len());
    assert(s.len() == losses.len());
    let at = losses.len() as int * 9 / 10;
    if at < s.len() - 1 {
        assert(leq(s[at], s[s.len() - 1]));
    }
}

} // verus!
