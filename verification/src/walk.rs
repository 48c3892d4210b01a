//! The walk-forward evaluation of one grid cell.
//!
//! Each candidate test year is preceded by a training period that is split into
//! an inner training and an inner validation part. A fold whose training shows
//! too little, or whose edge does not survive the inner validation, is dropped;
//! the others are simulated on every account product.

use std::collections::HashMap;

use vstd::prelude::*;
use vstd::string::StringExecFns;

use crate::backtest::{
    backtest, bars_in_range, covering, day_trades, group_trades_by_day, grouped_by_day, holds_day,
    of_day, ranges_in_range, sessions_end_within, span_for_years, span_trades, spans_years,
    year_range_span, year_spans, BacktestParams, DayCache, DayRow, MAX_COST, MAX_MULT,
};
use crate::backtest_laws::a_day_makes_at_most_two_trades;
use crate::engine::Cell;
use crate::ev::{
    breakdown, evaluate, is_months, is_pass_rate, is_value, EvBreakdown, EvParams, MAX_PARALLEL,
};
use crate::features::{evt_tail, TailFit};
use crate::mc::{
    challenge_of, config_seed, days_fit, funded_of, mc_challenge, mc_funded, mixed, seed_words,
    summable, ChallengeResult, Conditions, FundedDist, McConfig, McConfigError, MAX_SIMS,
    TRADING_DAYS_PER_MONTH,
};
use crate::num::{count_where, ints, total, Fraction, Ratio, MILLION};
use crate::parallel::parallel_map;
use crate::seed_laws::one_changed_word_changes_the_seed;
use crate::stats::{mean_of, present, profits, realized_stats, RealizedStats};
use crate::text::views;
use crate::types::{
    variant_text, Account, Bar, BiasMode, DayMeta, EntryMode, ExitMode, InstCfg, RawTrade, MAX_PNL,
    N_RISK_GEOS,
};

verus! {

// ---------------------------------------------------------------------------
// Inputs
// ---------------------------------------------------------------------------

/// Most days of data that the exact comparisons admit.
pub const MAX_DAYS: usize = 20_000_000;

/// Furthest year, from year zero, that the walk admits.
pub const MAX_YEAR: i32 = 700_000_000;

/// Longest funded phase, in trading days, that the cost model admits.
pub const MAX_FUNDED_DAYS: usize = 2_147_483_647;

/// A shrinkage cutoff at or below this, in millionths, disables the inner-fold
/// filter entirely, also for folds whose inner-train expectancy is not positive.
pub const SHRINKAGE_DISABLED: i64 = -90_000_000;

/// One instrument's data, with everything a cell is evaluated against.
pub struct Market<'a> {
    pub sym: &'a str,
    pub bars: &'a Vec<Bar>,
    pub days: &'a Vec<DayMeta>,
    pub inst: InstCfg,
    pub cache: &'a DayCache,
    /// The day span of each calendar year.
    pub spans: HashMap<i32, (usize, usize)>,
    /// The volatility regime of each day.
    pub regimes: &'a Vec<u8>,
    /// The Hurst exponent known before each day, in trillionths.
    pub hurst: &'a Vec<Option<i64>>,
    /// Round-turn cost in micro-dollars.
    pub cost_1ct: i64,
}

/// Whether all precomputed ranges have prices that profit arithmetic admits.
pub open spec fn cache_in_range(cache: DayCache) -> bool {
    forall|wi: int|
        0 <= wi < cache.windows@.len() ==> ranges_in_range(#[trigger] cache.rows_of(wi))
}

impl<'a> Market<'a> {
    /// Whether a set of data can be evaluated: every day has its session within
    /// the bars, its regime, its Hurst exponent and its precomputed rows, and
    /// prices and costs are small enough for exact arithmetic.
    pub open spec fn fits(
        bars: Seq<Bar>,
        days: Seq<DayMeta>,
        inst: InstCfg,
        cache: DayCache,
        regimes: Seq<u8>,
        hurst: Seq<Option<i64>>,
        cost_1ct: i64,
    ) -> bool {
        &&& days.len() <= MAX_DAYS
        &&& cache.n_days == days.len()
        &&& regimes.len() >= days.len()
        &&& hurst.len() >= days.len()
        &&& sessions_end_within(bars, days)
        &&& bars_in_range(bars)
        &&& cache_in_range(cache)
        &&& inst.in_range()
        &&& -MAX_COST <= cost_1ct <= MAX_COST
    }

    pub open spec fn wf(self) -> bool {
        &&& self.cache.wf()
        &&& spans_years(self.spans@, self.days@)
        &&& Self::fits(
            self.bars@,
            self.days@,
            self.inst,
            *self.cache,
            self.regimes@,
            self.hurst@,
            self.cost_1ct,
        )
    }

    /// Bring the data of an instrument together, if it can be evaluated.
    pub fn new(
        sym: &'a str,
        bars: &'a Vec<Bar>,
        days: &'a Vec<DayMeta>,
        inst: InstCfg,
        cache: &'a DayCache,
        regimes: &'a Vec<u8>,
        hurst: &'a Vec<Option<i64>>,
        cost_1ct: i64,
    ) -> (r: Option<Market<'a>>)
        requires
            cache.wf(),
        ensures
            r is Some <==> Self::fits(
                bars@,
                days@,
                inst,
                *cache,
                regimes@,
                hurst@,
                cost_1ct,
            ),
            r matches Some(m) ==> {
                &&& m.wf()
                &&& m.sym == sym
                &&& m.bars == bars
                &&& m.days == days
                &&& m.inst == inst
                &&& m.cache == cache
                &&& m.regimes == regimes
                &&& m.hurst == hurst
                &&& m.cost_1ct == cost_1ct
            },
    {
        let n: usize = days.len();
        if n > MAX_DAYS || cache.n_days != n || regimes.len() < n || hurst.len() < n {
            return None;
        }
        if !(0 < inst.tick_size && inst.tick_size <= 1_000_000 && 0 <= inst.point_value
            && inst.point_value <= 10_000) {
            return None;
        }
        if !(-MAX_COST <= cost_1ct && cost_1ct <= MAX_COST) {
            return None;
        }
        if !(sessions_are_within(bars, days) && prices_are_small(bars) && ranges_are_small(cache)) {
            return None;
        }
        Some(
            Market {
                sym,
                bars,
                days,
                inst,
                cache,
                spans: year_spans(days.as_slice()),
                regimes,
                hurst,
                cost_1ct,
            },
        )
    }
}

fn sessions_are_within(bars: &Vec<Bar>, days: &Vec<DayMeta>) -> (r: bool)
    ensures
        r == sessions_end_within(bars@, days@),
{
    let mut d: usize = 0;
    while d < days.len()
        invariant
            d <= days@.len(),
            forall|k: int| 0 <= k < d ==> (#[trigger] days@[k]).sess_end <= bars@.len(),
        decreases days@.len() - d,
    {
        if days[d].sess_end > bars.len() {
            return false;
        }
        d = d + 1;
    }
    true
}

fn prices_are_small(bars: &Vec<Bar>) -> (r: bool)
    ensures
        r == bars_in_range(bars@),
{
    let mut i: usize = 0;
    while i < bars.len()
        invariant
            i <= bars@.len(),
            forall|k: int| 0 <= k < i ==> (#[trigger] bars@[k]).in_range(),
        decreases bars@.len() - i,
    {
        if !price_is_small(bars[i].high) || !price_is_small(bars[i].low) || !price_is_small(
            bars[i].close,
        ) {
            proof {
                assert(!bars@[i as int].in_range());
            }
            return false;
        }
        i = i + 1;
    }
    true
}

fn price_is_small(p: i64) -> (r: bool)
    ensures
        r <==> -10_000_000_000 <= p <= 10_000_000_000,
{
    -10_000_000_000 <= p && p <= 10_000_000_000
}

fn ranges_are_small(cache: &DayCache) -> (r: bool)
    requires
        cache.wf(),
    ensures
        r == cache_in_range(*cache),
{
    let mut wi: usize = 0;
    while wi < cache.windows.len()
        invariant
            cache.wf(),
            wi <= cache.windows@.len(),
            forall|k: int| 0 <= k < wi ==> ranges_in_range(#[trigger] cache.rows_of(k)),
        decreases cache.windows@.len() - wi,
    {
        let ghost rows = cache.rows_of(wi as int);
        let mut d: usize = 0;
        while d < cache.rows[wi].len()
            invariant
                cache.wf(),
                wi < cache.windows@.len(),
                rows == cache.rows_of(wi as int),
                d <= rows.len(),
                forall|k: int|
                    0 <= k < d ==> match (#[trigger] rows[k]).range {
                        Some((hi, lo)) => -10_000_000_000 <= hi <= 10_000_000_000
                            && -10_000_000_000 <= lo <= 10_000_000_000,
                        None => true,
                    },
            decreases rows.len() - d,
        {
            match cache.rows[wi][d].range {
                Some((hi, lo)) => {
                    if !price_is_small(hi) || !price_is_small(lo) {
                        proof {
                            assert(rows[d as int].range == Some((hi, lo)));
                            assert(!ranges_in_range(cache.rows_of(wi as int)));
                        }
                        return false;
                    }
                },
                None => {},
            }
            d = d + 1;
        }
        wi = wi + 1;
    }
    true
}

/// The settings of a run that a cell's evaluation depends on.
#[derive(Clone, Copy, Debug)]
pub struct RunConfig {
    pub outer_train_years: i32,
    pub inner_train_years: i32,
    /// Smallest inner validation expectancy, as millionths of the inner training
    /// expectancy, that keeps a fold.
    pub shrinkage_cutoff: i64,
    /// The simulators' settings. An evaluation length of 0 stands for the
    /// product's own window.
    pub mc: McConfig,
    /// Evaluation length when the product is untimed.
    pub eval_untimed_cap: usize,
    /// The funded simulation runs only when an evaluation pass rate exceeds this,
    /// in millionths.
    pub mc_funded_min_pr: i64,
    pub ev: EvParams,
    /// Pair every evaluation geometry with every funded one, not only with itself.
    pub split_risk_geo: bool,
    pub rng_seed: u64,
}

/// Why a run cannot start.
#[derive(Clone, Copy, Debug, PartialEq, Eq, Structural)]
pub enum RunConfigError {
    /// A setting that no simulation can run with.
    Simulation(McConfigError),
    /// The inner training period is not shorter than the outer one.
    InnerYears,
    /// The payout haircut is not a fraction of one.
    Haircut,
    /// A setting is beyond what exact arithmetic admits.
    Limit,
}

impl RunConfig {
    /// The simulators' settings with an evaluation length in place: the override,
    /// else the product's own window, else the cap for untimed products.
    pub open spec fn mc_for(self, sessions: Option<int>) -> McConfig {
        McConfig {
            eval_max_days: if self.mc.eval_max_days > 0 {
                self.mc.eval_max_days
            } else {
                match sessions {
                    Some(n) => n as usize,
                    None => self.eval_untimed_cap,
                }
            },
            ..self.mc
        }
    }

    /// Whether all settings are within what exact arithmetic admits.
    pub open spec fn within_limits(self) -> bool {
        &&& -MAX_YEAR <= self.outer_train_years <= MAX_YEAR
        &&& -MAX_YEAR <= self.inner_train_years <= MAX_YEAR
        &&& self.mc.n_challenge_sims <= MAX_SIMS
        &&& self.mc.n_funded_sims <= MAX_SIMS
        &&& self.mc.eval_max_days <= i32::MAX
        &&& self.mc.funded_max_days <= MAX_FUNDED_DAYS
        &&& self.eval_untimed_cap <= i32::MAX
        &&& self.ev.parallel_accounts <= MAX_PARALLEL
    }

    /// The first thing that keeps a run from starting, if there is one.
    pub open spec fn fault(self) -> Option<RunConfigError> {
        match self.mc_for(None).fault() {
            Some(e) => Some(RunConfigError::Simulation(e)),
            None => if self.inner_train_years >= self.outer_train_years {
                Some(RunConfigError::InnerYears)
            } else if !(0 <= self.ev.payout_haircut <= MILLION) {
                Some(RunConfigError::Haircut)
            } else if !self.within_limits() {
                Some(RunConfigError::Limit)
            } else {
                None
            },
        }
    }

    /// Reject settings that no run can start with.
    pub fn validate(&self) -> (r: Result<(), RunConfigError>)
        ensures
            match r {
                Ok(_) => self.fault() is None,
                Err(e) => self.fault() == Some(e),
            },
    {
        let mc: McConfig = McConfig {
            n_challenge_sims: self.mc.n_challenge_sims,
            n_funded_sims: self.mc.n_funded_sims,
            eval_max_days: if self.mc.eval_max_days > 0 {
                self.mc.eval_max_days
            } else {
                self.eval_untimed_cap
            },
            funded_max_days: self.mc.funded_max_days,
            block_days: self.mc.block_days,
            dll_is_breach: self.mc.dll_is_breach,
        };
        match mc.validate() {
            Err(e) => {
                return Err(RunConfigError::Simulation(e));
            },
            Ok(_) => {},
        }
        if self.inner_train_years >= self.outer_train_years {
            return Err(RunConfigError::InnerYears);
        }
        if !(0 <= self.ev.payout_haircut && self.ev.payout_haircut <= MILLION) {
            return Err(RunConfigError::Haircut);
        }
        if !(-MAX_YEAR <= self.outer_train_years && self.outer_train_years <= MAX_YEAR && -MAX_YEAR
            <= self.inner_train_years && self.inner_train_years <= MAX_YEAR
            && self.mc.n_challenge_sims <= MAX_SIMS && self.mc.n_funded_sims <= MAX_SIMS
            && self.mc.eval_max_days <= i32::MAX as usize && self.mc.funded_max_days
            <= MAX_FUNDED_DAYS && self.eval_untimed_cap <= i32::MAX as usize
            && self.ev.parallel_accounts <= MAX_PARALLEL) {
            return Err(RunConfigError::Limit);
        }
        Ok(())
    }

    /// The simulators' settings for an account product.
    pub fn mc_for_account(&self, ax: &Account) -> (r: McConfig)
        ensures
            r == self.mc_for(ax.sessions_allowed()),
    {
        let eval_max_days: usize = if self.mc.eval_max_days > 0 {
            self.mc.eval_max_days
        } else {
            match ax.eval_trading_days() {
                Some(n) => n,
                None => self.eval_untimed_cap,
            }
        };
        McConfig {
            n_challenge_sims: self.mc.n_challenge_sims,
            n_funded_sims: self.mc.n_funded_sims,
            eval_max_days,
            funded_max_days: self.mc.funded_max_days,
            block_days: self.mc.block_days,
            dll_is_breach: self.mc.dll_is_breach,
        }
    }
}

// ---------------------------------------------------------------------------
// Trades of a cell
// ---------------------------------------------------------------------------

/// Trillionths in one hundredth.
pub const FEATURE_STEP: i64 = 10_000_000_000;

/// A feature threshold in trillionths, given in hundredths; 0 is no filter.
pub open spec fn feature_limit(hundredths: i64) -> Option<i64> {
    if hundredths > 0 {
        Some((hundredths * FEATURE_STEP) as i64)
    } else {
        None
    }
}

impl Cell {
    /// Multiples and thresholds small enough for exact arithmetic.
    pub open spec fn in_range(self) -> bool {
        &&& -MAX_MULT <= self.rr <= MAX_MULT
        &&& -MAX_MULT <= self.lux <= MAX_MULT
        &&& -MAX_MULT <= self.hmin <= MAX_MULT
        &&& -MAX_MULT <= self.emax <= MAX_MULT
    }

    /// Whether a cell can be evaluated on a market: its opening range is
    /// precomputed, and its multiples are small enough for exact arithmetic.
    pub open spec fn runs_on(self, m: Market) -> bool {
        &&& m.cache.windows@.contains(self.window)
        &&& self.in_range()
    }

    /// Whether the cell can be evaluated on a market.
    pub fn can_run_on(&self, m: &Market) -> (r: bool)
        requires
            m.wf(),
        ensures
            r == self.runs_on(*m),
    {
        let known: bool = match m.cache.find_window(self.window) {
            Some(_) => true,
            None => false,
        };
        known && -MAX_MULT <= self.rr && self.rr <= MAX_MULT && -MAX_MULT <= self.lux && self.lux
            <= MAX_MULT && -MAX_MULT <= self.hmin && self.hmin <= MAX_MULT && -MAX_MULT
            <= self.emax && self.emax <= MAX_MULT
    }
}

/// The backtest of a cell over the years `first..=last`.
pub open spec fn cell_params(m: Market, c: Cell, first: int, last: int) -> BacktestParams<'static> {
    BacktestParams {
        window: c.window,
        rr: c.rr,
        direction: c.dir,
        cost_1ct: m.cost_1ct,
        h_min: feature_limit(c.hmin),
        e_max: feature_limit(c.emax),
        year_range: Some((first as i32, last as i32)),
        entry_mode: c.variant.0,
        bias_mode: c.variant.1,
        exit_mode: c.variant.2,
        lux_tper: c.lux,
        vol_regime_filter: c.regime,
    }
}

/// The trades of a cell in the years `first..=last`.
pub open spec fn cell_trades(m: Market, c: Cell, first: int, last: int) -> Seq<RawTrade> {
    let span = year_range_span(m.spans@, first, last);
    span_trades(
        m.bars@,
        m.days@,
        m.inst,
        m.cache.rows_of(m.cache.index_of(c.window)),
        cell_params(m, c, first, last),
        m.regimes@,
        m.hurst@,
        span.0 as int,
        if span.1 < m.days@.len() {
            span.1 as int
        } else {
            m.days@.len() as int
        },
    )
}

/// The days of data in the years `first..=last`.
pub open spec fn days_in(m: Market, first: int, last: int) -> int {
    let span = year_range_span(m.spans@, first, last);
    if span.0 < span.1 {
        span.1 - span.0
    } else {
        0
    }
}

/// Whether trades are of days that exist, at most two a day, with profits that
/// the simulators admit.
pub open spec fn plausible(trades: Seq<RawTrade>, n_days: int) -> bool {
    &&& trades.len() <= 2 * n_days
    &&& forall|i: int|
        0 <= i < trades.len() ==> -MAX_PNL <= (#[trigger] trades[i]).pnl_1ct <= MAX_PNL
            && trades[i].day_idx < n_days
    &&& forall|day: usize| (#[trigger] of_day(trades, day)).len() <= 2
}

pub(crate) proof fn lemma_span_members(
    bars: Seq<Bar>,
    days: Seq<DayMeta>,
    inst: InstCfg,
    rows: Seq<DayRow>,
    p: BacktestParams,
    regimes: Seq<u8>,
    hurst: Seq<Option<i64>>,
    from: int,
    to: int,
)
    requires
        0 <= from,
        to <= usize::MAX,
    ensures
        ({
            let trades = span_trades(bars, days, inst, rows, p, regimes, hurst, from, to);
            &&& trades.len() <= 2 * (if from < to {
                to - from
            } else {
                0
            })
            &&& forall|i: int| 0 <= i < trades.len() ==> from <= (#[trigger] trades[i]).day_idx < to
        }),
    decreases to - from,
{
    if from < to {
        lemma_span_members(bars, days, inst, rows, p, regimes, hurst, from, to - 1);
        let today = day_trades(bars, days, inst, rows, p, regimes, hurst, from, to - 1);
        assert(today.len() <= 2);
    }
}

pub(crate) proof fn lemma_cover_bound(m: Market, first: int, last: int)
    requires
        m.wf(),
    ensures
        covering(m.spans@, first, last) matches Some((lo, hi)) ==> lo < hi <= m.days@.len(),
    decreases last - first + 1,
{
    if first <= last {
        lemma_cover_bound(m, first, last - 1);
        let y = last as i32;
        if m.spans@.contains_key(y) {
            let (a, b) = m.spans@[y];
            assert(a < b <= m.days@.len());
        }
    }
}

fn trades_in(m: &Market, c: &Cell, first: i32, last: i32) -> (r: Vec<RawTrade>)
    requires
        m.wf(),
        c.runs_on(*m),
    ensures
        r@ == cell_trades(*m, *c, first as int, last as int),
        plausible(r@, m.days@.len() as int),
        r@.len() <= 2 * days_in(*m, first as int, last as int),
{
    let p: BacktestParams = BacktestParams {
        window: c.window,
        rr: c.rr,
        direction: c.dir,
        cost_1ct: m.cost_1ct,
        h_min: if c.hmin > 0 {
            Some(c.hmin * FEATURE_STEP)
        } else {
            None
        },
        e_max: if c.emax > 0 {
            Some(c.emax * FEATURE_STEP)
        } else {
            None
        },
        year_range: Some((first, last)),
        entry_mode: c.variant.0,
        bias_mode: c.variant.1,
        exit_mode: c.variant.2,
        lux_tper: c.lux,
        vol_regime_filter: c.regime,
    };
    let span: (usize, usize) = span_for_years(&m.spans, first, last);
    let ghost wi = m.cache.index_of(c.window);
    proof {
        assert(m.cache.windows@[wi] == c.window);
        assert(ranges_in_range(m.cache.rows_of(wi)));
        assert(p == cell_params(*m, *c, first as int, last as int));
    }
    let r: Vec<RawTrade> = backtest(
        m.bars.as_slice(),
        m.days.as_slice(),
        &m.inst,
        m.cache,
        &p,
        m.regimes.as_slice(),
        m.hurst.as_slice(),
        span,
    );
    proof {
        let to = span.1 as int;
        lemma_cover_bound(*m, first as int, last as int);
        lemma_span_members(
            m.bars@,
            m.days@,
            m.inst,
            m.cache.rows_of(wi),
            p,
            m.regimes@,
            m.hurst@,
            span.0 as int,
            to,
        );
        assert forall|day: usize| (#[trigger] of_day(r@, day)).len() <= 2 by {
            a_day_makes_at_most_two_trades(
                m.bars@,
                m.days@,
                m.inst,
                m.cache.rows_of(wi),
                p,
                m.regimes@,
                m.hurst@,
                span.0 as int,
                to,
                day,
            );
        }
    }
    r
}

fn span_days(m: &Market, first: i32, last: i32) -> (r: usize)
    requires
        m.wf(),
    ensures
        r == days_in(*m, first as int, last as int),
        r <= m.days@.len(),
{
    let span: (usize, usize) = span_for_years(&m.spans, first, last);
    proof {
        lemma_cover_bound(*m, first as int, last as int);
    }
    span.1.saturating_sub(span.0)
}

// ---------------------------------------------------------------------------
// Folds
// ---------------------------------------------------------------------------

/// Days that a test year needs.
pub const MIN_TEST_DAYS: usize = 20;

/// Trades that an inner training period needs.
pub const MIN_INNER_TRADES: usize = 30;

/// Trades that a training period needs.
pub const MIN_OUTER_TRADES: usize = 50;

/// First and last year of the training period of a test year.
pub open spec fn outer_years(cfg: RunConfig, test_year: int) -> (int, int) {
    (test_year - cfg.outer_train_years, test_year - 1)
}

/// First and last year of the inner training period.
pub open spec fn inner_years(cfg: RunConfig, test_year: int) -> (int, int) {
    let first = test_year - cfg.outer_train_years;
    (first, first + cfg.inner_train_years - 1)
}

/// First and last year of the inner validation period.
pub open spec fn validation_years(cfg: RunConfig, test_year: int) -> (int, int) {
    (inner_years(cfg, test_year).1 + 1, test_year - 1)
}

/// A count of days, at least one.
pub open spec fn at_least_a_day(n: int) -> int {
    if n < 1 {
        1
    } else {
        n
    }
}

/// Inner validation expectancy over inner training expectancy, each a total
/// profit over a number of days. Undefined where the training profit is not
/// positive.
pub open spec fn shrinkage(
    train_total: int,
    train_days: int,
    val_total: int,
    val_days: int,
) -> Option<Fraction> {
    if train_total > 0 {
        Some(
            Fraction { num: (val_total * train_days) as i128, den: (train_total * val_days) as i128 },
        )
    } else {
        None
    }
}

/// Whether a fold's edge survives the inner validation. An undefined shrinkage
/// does not, unless the filter is disabled.
pub open spec fn survives(shrink: Option<Fraction>, cutoff: int) -> bool {
    cutoff <= SHRINKAGE_DISABLED || match shrink {
        Some(f) => f.num * MILLION >= cutoff * f.den,
        None => false,
    }
}

/// The shrinkage of a fold.
pub open spec fn fold_shrinkage(m: Market, c: Cell, cfg: RunConfig, test_year: int) -> Option<
    Fraction,
> {
    let inner = inner_years(cfg, test_year);
    let val = validation_years(cfg, test_year);
    shrinkage(
        total(profits(cell_trades(m, c, inner.0, inner.1))),
        at_least_a_day(days_in(m, inner.0, inner.1)),
        total(profits(cell_trades(m, c, val.0, val.1))),
        at_least_a_day(days_in(m, val.0, val.1)),
    )
}

/// Whether a test year is evaluated: it has enough days and at least one trade,
/// its training periods have enough trades, and the edge survives the inner
/// validation.
pub open spec fn fold_kept(m: Market, c: Cell, cfg: RunConfig, test_year: int) -> bool {
    let outer = outer_years(cfg, test_year);
    let inner = inner_years(cfg, test_year);
    let val = validation_years(cfg, test_year);
    &&& days_in(m, test_year, test_year) >= MIN_TEST_DAYS
    &&& cell_trades(m, c, inner.0, inner.1).len() >= MIN_INNER_TRADES
    &&& cell_trades(m, c, val.0, val.1).len() > 0
    &&& survives(fold_shrinkage(m, c, cfg, test_year), cfg.shrinkage_cutoff as int)
    &&& cell_trades(m, c, outer.0, outer.1).len() >= MIN_OUTER_TRADES
    &&& cell_trades(m, c, test_year, test_year).len() > 0
}

/// The sizes of the losses among trades, in order.
pub open spec fn losses_of(trades: Seq<RawTrade>) -> Seq<i128>
    decreases trades.len(),
{
    if trades.len() == 0 {
        Seq::empty()
    } else {
        let before = losses_of(trades.drop_last());
        if trades.last().pnl_1ct < 0 {
            before.push((-trades.last().pnl_1ct) as i128)
        } else {
            before
        }
    }
}

/// The trades of one direction.
pub open spec fn in_direction(dir: u8) -> spec_fn(RawTrade) -> bool {
    |t: RawTrade| t.dir == dir
}

/// The winning trades of one direction.
pub open spec fn wins_in_direction(dir: u8) -> spec_fn(RawTrade) -> bool {
    |t: RawTrade| t.dir == dir && t.pnl_1ct > 0
}

/// Whether `r` is the share of winning trades of one direction, one half where
/// there are none of it.
pub open spec fn is_win_rate(r: Ratio, trades: Seq<RawTrade>, dir: u8) -> bool {
    if count_where(trades, in_direction(dir)) == 0 {
        r.num == 1 && r.den == 2
    } else {
        r.num == count_where(trades, wins_in_direction(dir)) && r.den == count_where(
            trades,
            in_direction(dir),
        )
    }
}

/// The Hurst exponents known on the days of trades.
pub open spec fn hurst_sample(trades: Seq<RawTrade>, hurst: Seq<Option<i64>>) -> Seq<Option<i128>> {
    trades.map_values(
        |t: RawTrade|
            match hurst[t.day_idx as int] {
                Some(h) => Some(h as i128),
                None => None,
            },
    )
}

/// One evaluated test year of a cell, before any simulation.
pub struct Fold {
    pub test_year: i32,
    pub test_days: usize,
    pub inner_train_ev: Fraction,
    pub inner_val_ev: Fraction,
    pub shrinkage_ratio: Option<Fraction>,
    /// The training period's trades.
    pub train: Vec<RawTrade>,
    pub train_by_day: Vec<Vec<RawTrade>>,
    /// The test year's trades.
    pub test: Vec<RawTrade>,
    pub realized: RealizedStats,
    /// Mean Hurst exponent on the days traded, in trillionths.
    pub avg_hurst_used: Option<Fraction>,
    pub long_wr: Ratio,
    pub short_wr: Ratio,
    /// The tail of the training period's losses.
    pub tail: TailFit,
}

impl Fold {
    /// Whether this is the fold of a cell with a test year.
    pub open spec fn is_of(self, m: Market, c: Cell, cfg: RunConfig, test_year: int) -> bool {
        let outer = outer_years(cfg, test_year);
        let inner = inner_years(cfg, test_year);
        let val = validation_years(cfg, test_year);
        &&& self.test_year == test_year
        &&& self.test_days == days_in(m, test_year, test_year)
        &&& self.inner_train_ev.num == 21 * total(profits(cell_trades(m, c, inner.0, inner.1)))
        &&& self.inner_train_ev.den == at_least_a_day(days_in(m, inner.0, inner.1))
        &&& self.inner_val_ev.num == 21 * total(profits(cell_trades(m, c, val.0, val.1)))
        &&& self.inner_val_ev.den == at_least_a_day(days_in(m, val.0, val.1))
        &&& self.shrinkage_ratio == fold_shrinkage(m, c, cfg, test_year)
        &&& self.train@ == cell_trades(m, c, outer.0, outer.1)
        &&& grouped_by_day(self.train_by_day@, self.train@)
        &&& self.test@ == cell_trades(m, c, test_year, test_year)
        &&& self.realized.describes(self.test@, self.test_days)
        &&& match self.avg_hurst_used {
            Some(h) => h.num == total(ints(present(hurst_sample(self.test@, m.hurst@)))) && h.den
                == present(hurst_sample(self.test@, m.hurst@)).len() && h.den > 0,
            None => present(hurst_sample(self.test@, m.hurst@)).len() == 0,
        }
        &&& is_win_rate(self.long_wr, self.train@, 0)
        &&& is_win_rate(self.short_wr, self.train@, 1)
        &&& self.tail.is_tail_of(losses_of(self.train@))
    }

    /// Whether the simulators and the reports can work on this fold.
    pub open spec fn wf(self, n_days: int) -> bool {
        &&& plausible(self.train@, n_days)
        &&& plausible(self.test@, n_days)
        &&& summable(self.train_by_day@)
        &&& days_fit(self.train_by_day@)
        &&& self.test_days > 0
        &&& -MAX_YEAR <= self.test_year <= MAX_YEAR
        &&& self.realized.in_range()
        &&& self.tail.starts_positive()
    }
}

fn losses_in(trades: &Vec<RawTrade>, n_days: usize) -> (r: Vec<i128>)
    requires
        plausible(trades@, n_days as int),
    ensures
        r@ == losses_of(trades@),
        r@.len() <= trades@.len(),
        forall|i: int| 0 <= i < r@.len() ==> 0 < #[trigger] r@[i] <= MAX_PNL,
{
    let mut r: Vec<i128> = Vec::new();
    let mut i: usize = 0;
    while i < trades.len()
        invariant
            plausible(trades@, n_days as int),
            i <= trades@.len(),
            r@ == losses_of(trades@.take(i as int)),
            r@.len() <= i,
            forall|k: int| 0 <= k < r@.len() ==> 0 < #[trigger] r@[k] <= MAX_PNL,
        decreases trades@.len() - i,
    {
        proof {
            assert(trades@.take(i + 1).drop_last() == trades@.take(i as int));
        }
        let x: i64 = trades[i].pnl_1ct;
        if x < 0 {
            r.push(-(x as i128));
        }
        i = i + 1;
    }
    proof {
        assert(trades@.take(trades@.len() as int) == trades@);
    }
    r
}

fn win_rate(trades: &Vec<RawTrade>, dir: u8, n_days: usize) -> (r: Ratio)
    requires
        plausible(trades@, n_days as int),
        n_days <= MAX_DAYS,
    ensures
        is_win_rate(r, trades@, dir),
        r.wf(),
{
    let mut n: i64 = 0;
    let mut won: i64 = 0;
    let mut i: usize = 0;
    while i < trades.len()
        invariant
            i <= trades@.len() <= 40_000_000,
            n == count_where(trades@.take(i as int), in_direction(dir)),
            won == count_where(trades@.take(i as int), wins_in_direction(dir)),
            0 <= n <= i,
            0 <= won <= i,
        decreases trades@.len() - i,
    {
        proof {
            assert(trades@.take(i + 1).drop_last() == trades@.take(i as int));
        }
        if trades[i].dir == dir {
            n = n + 1;
            if trades[i].pnl_1ct > 0 {
                won = won + 1;
            }
        }
        i = i + 1;
    }
    proof {
        assert(trades@.take(trades@.len() as int) == trades@);
    }
    if n == 0 {
        Ratio { num: 1, den: 2 }
    } else {
        Ratio { num: won, den: n }
    }
}

fn mean_hurst(trades: &Vec<RawTrade>, hurst: &Vec<Option<i64>>, n_days: usize) -> (r: Option<
    Fraction,
>)
    requires
        plausible(trades@, n_days as int),
        n_days <= hurst@.len(),
        n_days <= MAX_DAYS,
    ensures
        match r {
            Some(h) => h.num == total(ints(present(hurst_sample(trades@, hurst@)))) && h.den
                == present(hurst_sample(trades@, hurst@)).len() && h.den > 0,
            None => present(hurst_sample(trades@, hurst@)).len() == 0,
        },
{
    let mut v: Vec<Option<i128>> = Vec::new();
    let mut i: usize = 0;
    while i < trades.len()
        invariant
            plausible(trades@, n_days as int),
            n_days <= hurst@.len(),
            i <= trades@.len(),
            v@ == hurst_sample(trades@, hurst@).take(i as int),
        decreases trades@.len() - i,
    {
        let known: Option<i128> = match hurst[trades[i].day_idx] {
            Some(h) => Some(h as i128),
            None => None,
        };
        proof {
            let all = hurst_sample(trades@, hurst@);
            assert(all.take(i + 1) == all.take(i as int).push(all[i as int]));
        }
        v.push(known);
        i = i + 1;
    }
    proof {
        let all = hurst_sample(trades@, hurst@);
        assert(all.take(trades@.len() as int) == all);
        lemma_present_are_i64(trades@, hurst@, all.len() as int);
    }
    mean_of(v.as_slice())
}

proof fn lemma_present_are_i64(trades: Seq<RawTrade>, hurst: Seq<Option<i64>>, n: int)
    requires
        0 <= n <= trades.len(),
    ensures
        forall|i: int|
            0 <= i < present(hurst_sample(trades, hurst).take(n)).len() ==> i64::MIN
                <= #[trigger] present(hurst_sample(trades, hurst).take(n))[i] <= i64::MAX,
    decreases n,
{
    let all = hurst_sample(trades, hurst);
    if n > 0 {
        lemma_present_are_i64(trades, hurst, n - 1);
        assert(all.take(n).drop_last() == all.take(n - 1));
        let known = hurst[trades[n - 1].day_idx as int];
        assert(all.take(n).last() == match known {
            Some(h) => Some(h as i128),
            None => None,
        });
        let before = present(all.take(n - 1));
        assert(present(all.take(n)) == match known {
            Some(h) => before.push(h as i128),
            None => before,
        });
    }
}

proof fn lemma_groups_fit(groups: Seq<Vec<RawTrade>>, trades: Seq<RawTrade>, n_days: int)
    requires
        plausible(trades, n_days),
        grouped_by_day(groups, trades),
    ensures
        summable(groups),
        days_fit(groups),
{
    assert forall|d: int, i: int|
        #![trigger groups[d]@[i]]
        0 <= d < groups.len() && 0 <= i < groups[d]@.len() implies -MAX_PNL
        <= groups[d]@[i].pnl_1ct <= MAX_PNL by {
        let day = groups[d]@[0].day_idx;
        let f = |t: RawTrade| t.day_idx == day;
        assert(groups[d]@ == of_day(trades, day));
        trades.lemma_filter_contains_rev(f, groups[d]@[i]);
        let at = choose|at: int| 0 <= at < trades.len() && trades[at] == groups[d]@[i];
        assert(trades[at] == groups[d]@[i]);
    }
    assert forall|d: int| 0 <= d < groups.len() implies (#[trigger] groups[d])@.len() <= 1_000 by {
        assert(of_day(trades, groups[d]@[0].day_idx).len() <= 2);
    }
}

/// The fold of a cell with a test year, or `None` where the year is dropped.
pub fn plan_fold(m: &Market, c: &Cell, cfg: &RunConfig, test_year: i32) -> (r: Option<Fold>)
    requires
        m.wf(),
        c.runs_on(*m),
        cfg.within_limits(),
        -MAX_YEAR <= test_year <= MAX_YEAR,
    ensures
        match r {
            Some(f) => fold_kept(*m, *c, *cfg, test_year as int) && f.is_of(
                *m,
                *c,
                *cfg,
                test_year as int,
            ) && f.wf(m.days@.len() as int),
            None => !fold_kept(*m, *c, *cfg, test_year as int),
        },
{
    let n_days: usize = m.days.len();
    let first: i32 = test_year - cfg.outer_train_years;
    let inner_last: i32 = first + cfg.inner_train_years - 1;
    let test_days: usize = span_days(m, test_year, test_year);
    if test_days < MIN_TEST_DAYS {
        return None;
    }
    let itr: Vec<RawTrade> = trades_in(m, c, first, inner_last);
    if itr.len() < MIN_INNER_TRADES {
        return None;
    }
    let itr_span: usize = span_days(m, first, inner_last);
    let itr_days: usize = if itr_span < 1 {
        1
    } else {
        itr_span
    };
    let itr_stats: RealizedStats = realized_stats(itr.as_slice(), itr_days);
    let iva: Vec<RawTrade> = trades_in(m, c, inner_last + 1, test_year - 1);
    if iva.len() == 0 {
        return None;
    }
    let iva_span: usize = span_days(m, inner_last + 1, test_year - 1);
    let iva_days: usize = if iva_span < 1 {
        1
    } else {
        iva_span
    };
    let iva_stats: RealizedStats = realized_stats(iva.as_slice(), iva_days);
    let shrink: Option<Fraction> = shrink_of(
        itr_stats.total_pnl_1ct,
        itr_days,
        iva_stats.total_pnl_1ct,
        iva_days,
    );
    if !survives_cutoff(&shrink, cfg.shrinkage_cutoff) {
        return None;
    }
    let train: Vec<RawTrade> = trades_in(m, c, first, test_year - 1);
    if train.len() < MIN_OUTER_TRADES {
        return None;
    }
    let test: Vec<RawTrade> = trades_in(m, c, test_year, test_year);
    if test.len() == 0 {
        return None;
    }
    let realized: RealizedStats = realized_stats(test.as_slice(), test_days);
    let avg_hurst_used: Option<Fraction> = mean_hurst(&test, m.hurst, n_days);
    let long_wr: Ratio = win_rate(&train, 0, n_days);
    let short_wr: Ratio = win_rate(&train, 1, n_days);
    let losses: Vec<i128> = losses_in(&train, n_days);
    let tail: TailFit = evt_tail(&losses);
    let train_by_day: Vec<Vec<RawTrade>> = group_trades_by_day(train.as_slice());
    proof {
        lemma_groups_fit(train_by_day@, train@, n_days as int);
    }
    Some(
        Fold {
            test_year,
            test_days,
            inner_train_ev: itr_stats.monthly_ev_1ct,
            inner_val_ev: iva_stats.monthly_ev_1ct,
            shrinkage_ratio: shrink,
            train,
            train_by_day,
            test,
            realized,
            avg_hurst_used,
            long_wr,
            short_wr,
            tail,
        },
    )
}

/// The most that a total of profits comes to.
pub open spec fn is_period_total(x: int) -> bool {
    -4_000_000_000_000_000_000_000_000 <= x <= 4_000_000_000_000_000_000_000_000
}

fn shrink_of(train_total: i128, train_days: usize, val_total: i128, val_days: usize) -> (r: Option<
    Fraction,
>)
    requires
        is_period_total(train_total as int),
        is_period_total(val_total as int),
        1 <= train_days <= MAX_DAYS,
        1 <= val_days <= MAX_DAYS,
    ensures
        r == shrinkage(train_total as int, train_days as int, val_total as int, val_days as int),
        r matches Some(f) ==> {
            &&& 0 < f.den <= 80_000_000_000_000_000_000_000_000_000_000
            &&& -80_000_000_000_000_000_000_000_000_000_000 <= f.num
                <= 80_000_000_000_000_000_000_000_000_000_000
        },
{
    if train_total > 0 {
        proof {
            let t = train_days as int;
            let v = val_days as int;
            assert(-4_000_000_000_000_000_000_000_000 * 20_000_000 <= val_total * t
                <= 4_000_000_000_000_000_000_000_000 * 20_000_000) by (nonlinear_arith)
                requires
                    -4_000_000_000_000_000_000_000_000 <= val_total <= 4_000_000_000_000_000_000_000_000,
                    1 <= t <= 20_000_000,
            ;
            assert(0 < train_total * v <= 4_000_000_000_000_000_000_000_000 * 20_000_000)
                by (nonlinear_arith)
                requires
                    0 < train_total <= 4_000_000_000_000_000_000_000_000,
                    1 <= v <= 20_000_000,
            ;
        }
        Some(
            Fraction { num: val_total * train_days as i128, den: train_total * val_days as i128 },
        )
    } else {
        None
    }
}

/// A fraction is at least a whole number exactly when its whole part is.
proof fn lemma_at_least(x: int, d: int, c: int)
    requires
        d > 0,
    ensures
        x / d >= c <==> x >= c * d,
{
    vstd::arithmetic::div_mod::lemma_fundamental_div_mod(x, d);
    let (q, r) = (x / d, x % d);
    assert(q >= c <==> x >= c * d) by (nonlinear_arith)
        requires
            x == d * q + r,
            0 <= r < d,
    ;
}

fn survives_cutoff(shrink: &Option<Fraction>, cutoff: i64) -> (r: bool)
    requires
        shrink matches Some(f) ==> {
            &&& 0 < f.den <= 80_000_000_000_000_000_000_000_000_000_000
            &&& -80_000_000_000_000_000_000_000_000_000_000 <= f.num
                <= 80_000_000_000_000_000_000_000_000_000_000
        },
    ensures
        r == survives(*shrink, cutoff as int),
{
    if cutoff <= SHRINKAGE_DISABLED {
        return true;
    }
    match shrink {
        Some(f) => {
            let least: i128 = cutoff as i128;
            let num: i128 = f.num * 1_000_000;
            let den: i128 = f.den;
            // Products with the cutoff may not fit; quotients do.
            if num >= 0 {
                proof {
                    lemma_at_least(num as int, den as int, least as int);
                }
                num / den >= least
            } else {
                proof {
                    lemma_at_least(-1 - num, den as int, -least);
                    assert((-least) * den == -(least * den)) by (nonlinear_arith);
                }
                (-1 - num) / den < -least
            }
        },
        None => false,
    }
}

// ---------------------------------------------------------------------------
// Records
// ---------------------------------------------------------------------------

/// One fold of a cell on one account product, with one geometry for each phase.
#[derive(Debug)]
pub struct FoldRecord {
    pub instrument: String,
    pub cell: Cell,
    /// Risk geometry of the evaluation.
    pub rg_eval: usize,
    /// Risk geometry of the funded phase.
    pub rg_funded: usize,
    pub account: String,
    pub test_year: i32,
    pub total_period_days: usize,
    pub inner_train_ev: Fraction,
    pub inner_val_ev: Fraction,
    pub shrinkage_ratio: Option<Fraction>,
    pub realized: RealizedStats,
    pub avg_hurst_used: Option<Fraction>,
    pub challenge: ChallengeResult,
    pub funded: FundedDist,
    pub ev: EvBreakdown,
}

/// Entry, bias and exit of a variant as one text.
pub fn variant_name(v: (EntryMode, BiasMode, ExitMode)) -> (r: String)
    ensures
        r@ == variant_text(v),
{
    let mut s: String = v.0.as_str().to_owned();
    s.append("/");
    s.append(v.1.as_str());
    s.append("/");
    s.append(v.2.as_str());
    s
}

/// Which phase a seed is for.
pub const EVAL_PHASE: i64 = 1;

pub const FUNDED_PHASE: i64 = 2;

/// The seed of one phase of one fold on one account product: everything that
/// distinguishes the configuration is mixed in.
pub open spec fn fold_seed(
    m: Market,
    c: Cell,
    cfg: RunConfig,
    ax: Account,
    test_year: int,
    rg: usize,
    phase: i64,
) -> u64 {
    mixed(
        cfg.rng_seed,
        seed_words(
            seq![m.sym@, variant_text(c.variant), c.fmode@, c.regime@, c.dir@, ax.key@],
            seq![
                (10 * c.lux) as i64,
                (10 * c.rr) as i64,
                (10 * c.hmin) as i64,
                (10 * c.emax) as i64,
            ],
            seq![c.window as i64, test_year as i64, rg as i64, phase],
        ),
    )
}

fn seed_for(
    m: &Market,
    c: &Cell,
    cfg: &RunConfig,
    ax: &Account,
    test_year: i32,
    rg: usize,
    phase: i64,
) -> (r: u64)
    requires
        c.runs_on(*m),
    ensures
        r == fold_seed(*m, *c, *cfg, *ax, test_year as int, rg, phase),
{
    let variant: String = variant_name(c.variant);
    let parts: Vec<&str> = vec![
        m.sym,
        variant.as_str(),
        c.fmode,
        c.regime,
        c.dir,
        ax.key.as_str(),
    ];
    let nums: Vec<i64> = vec![10 * c.lux, 10 * c.rr, 10 * c.hmin, 10 * c.emax];
    let ints: Vec<i64> = vec![c.window as i64, test_year as i64, rg as i64, phase];
    proof {
        assert(views(parts@) =~= seq![
            m.sym@,
            variant_text(c.variant),
            c.fmode@,
            c.regime@,
            c.dir@,
            ax.key@,
        ]);
    }
    config_seed(cfg.rng_seed, parts.as_slice(), nums.as_slice(), ints.as_slice())
}

/// A tail limit that losses are compared with. No loss is beyond the largest one
/// that the engine admits.
pub open spec fn kill_level(limit: Option<i128>) -> Option<i64> {
    match limit {
        Some(x) => Some(
            if x > MAX_PNL {
                MAX_PNL
            } else {
                x as i64
            },
        ),
        None => None,
    }
}

/// What a phase of a fold is simulated under.
pub open spec fn phase_conditions(
    m: Market,
    fold: Fold,
    cfg: RunConfig,
    kill: Option<i64>,
    rg: usize,
    max_days: int,
) -> Conditions {
    Conditions {
        rg,
        pv: m.inst.point_value,
        long_wr: fold.long_wr,
        short_wr: fold.short_wr,
        evt_kill: kill,
        dll_is_breach: cfg.mc.dll_is_breach,
        max_days: max_days as i32,
    }
}

/// The evaluation phase of a fold on an account product.
pub open spec fn fold_challenge(
    m: Market,
    c: Cell,
    cfg: RunConfig,
    fold: Fold,
    kill: Option<i64>,
    ax: Account,
    rg: usize,
) -> ChallengeResult {
    challenge_of(
        fold.train_by_day@,
        ax,
        phase_conditions(
            m,
            fold,
            cfg,
            kill,
            rg,
            cfg.mc_for(ax.sessions_allowed()).eval_max_days as int,
        ),
        cfg.mc.block_days as int,
        fold_seed(m, c, cfg, ax, fold.test_year as int, rg, EVAL_PHASE),
        cfg.mc.n_challenge_sims as int,
    )
}

/// Whether the funded phase is worth simulating: some evaluation pass rate
/// exceeds the least that counts.
pub open spec fn worth_funding(
    m: Market,
    c: Cell,
    cfg: RunConfig,
    fold: Fold,
    kill: Option<i64>,
    ax: Account,
    rg_evals: Seq<usize>,
) -> bool {
    cfg.mc_funded_min_pr < 0 || exists|i: int|
        0 <= i < rg_evals.len() && fold_challenge(
            m,
            c,
            cfg,
            fold,
            kill,
            ax,
            #[trigger] rg_evals[i],
        ).pass_rate.above(cfg.mc_funded_min_pr as int, MILLION as int)
}

/// The funded phase of a fold on an account product.
pub open spec fn fold_funded(
    m: Market,
    c: Cell,
    cfg: RunConfig,
    fold: Fold,
    kill: Option<i64>,
    ax: Account,
    rg_evals: Seq<usize>,
    rg: usize,
) -> FundedDist {
    if worth_funding(m, c, cfg, fold, kill, ax, rg_evals) {
        funded_of(
            fold.train_by_day@,
            ax,
            phase_conditions(m, fold, cfg, kill, rg, cfg.mc.funded_max_days as int),
            cfg.mc.block_days as int,
            fold_seed(m, c, cfg, ax, fold.test_year as int, rg, FUNDED_PHASE),
            cfg.mc.n_funded_sims as int,
        )
    } else {
        FundedDist::nothing()
    }
}

/// The months of platform fees of a funded phase: the mean days held over the
/// days of a month, at least one.
pub open spec fn months_of(f: FundedDist) -> Ratio {
    let den = TRADING_DAYS_PER_MONTH * f.mean_days_held.den;
    Ratio {
        num: if f.mean_days_held.num >= den {
            f.mean_days_held.num
        } else {
            den as i64
        },
        den: den as i64,
    }
}

/// What a pair of phase results on an account product is worth.
pub open spec fn pair_value(
    ax: Account,
    ch: ChallengeResult,
    f: FundedDist,
    p: EvParams,
) -> EvBreakdown {
    breakdown(ax, ch.pass_rate, f.mean_ext, f.p_ext_zero, months_of(f), p)
}

/// The pairs of positions that the `e`-th evaluation geometry makes with the
/// first `f` funded ones.
pub open spec fn pairs_with(
    rg_evals: Seq<usize>,
    rg_fundeds: Seq<usize>,
    split: bool,
    e: int,
    f: int,
) -> Seq<(int, int)>
    decreases f,
{
    if f <= 0 {
        Seq::empty()
    } else {
        let before = pairs_with(rg_evals, rg_fundeds, split, e, f - 1);
        if split || rg_evals[e] == rg_fundeds[f - 1] {
            before.push((e, f - 1))
        } else {
            before
        }
    }
}

/// The pairs of positions of the first `e` evaluation geometries with the funded
/// ones: all of them, or those of equal geometries.
pub open spec fn geometry_pairs(
    rg_evals: Seq<usize>,
    rg_fundeds: Seq<usize>,
    split: bool,
    e: int,
) -> Seq<(int, int)>
    decreases e,
{
    if e <= 0 {
        Seq::empty()
    } else {
        geometry_pairs(rg_evals, rg_fundeds, split, e - 1) + pairs_with(
            rg_evals,
            rg_fundeds,
            split,
            e - 1,
            rg_fundeds.len() as int,
        )
    }
}

impl FoldRecord {
    /// Whether this is the record of a fold on an account product, with one
    /// geometry for each phase.
    pub open spec fn is_of(
        self,
        m: Market,
        c: Cell,
        cfg: RunConfig,
        fold: Fold,
        kill: Option<i64>,
        ax: Account,
        rg_evals: Seq<usize>,
        rg_eval: usize,
        rg_funded: usize,
    ) -> bool {
        &&& self.instrument@ == m.sym@
        &&& self.cell == c
        &&& self.rg_eval == rg_eval
        &&& self.rg_funded == rg_funded
        &&& self.account@ == ax.key@
        &&& self.test_year == fold.test_year
        &&& self.total_period_days == fold.test_days
        &&& self.inner_train_ev == fold.inner_train_ev
        &&& self.inner_val_ev == fold.inner_val_ev
        &&& self.shrinkage_ratio == fold.shrinkage_ratio
        &&& self.realized == fold.realized
        &&& self.avg_hurst_used == fold.avg_hurst_used
        &&& self.challenge == fold_challenge(m, c, cfg, fold, kill, ax, rg_eval)
        &&& self.funded == fold_funded(m, c, cfg, fold, kill, ax, rg_evals, rg_funded)
        &&& self.ev == pair_value(ax, self.challenge, self.funded, cfg.ev)
    }

    /// Rates and amounts that reports can average.
    pub open spec fn in_range(self) -> bool {
        &&& self.total_period_days > 0
        &&& self.cell.in_range()
        &&& self.rg_eval < N_RISK_GEOS
        &&& self.rg_funded < N_RISK_GEOS
        &&& self.realized.in_range()
        &&& is_pass_rate(self.ev.pass_rate)
        &&& is_value(self.ev.ev_per_attempt)
        &&& is_value(self.ev.legacy_error)
        &&& self.funded.in_range()
    }
}

/// Whether all are risk geometries.
pub open spec fn are_geometries(rgs: Seq<usize>) -> bool {
    forall|i: int| 0 <= i < rgs.len() ==> (#[trigger] rgs[i]) < N_RISK_GEOS
}

/// Whether records are those of a fold on one account product, in the order of
/// the evaluation geometries and then of the funded ones.
pub open spec fn are_account_records(
    records: Seq<FoldRecord>,
    m: Market,
    c: Cell,
    cfg: RunConfig,
    fold: Fold,
    kill: Option<i64>,
    ax: Account,
    rg_evals: Seq<usize>,
    rg_fundeds: Seq<usize>,
) -> bool {
    let pairs = geometry_pairs(rg_evals, rg_fundeds, cfg.split_risk_geo, rg_evals.len() as int);
    &&& records.len() == pairs.len()
    &&& forall|i: int|
        0 <= i < records.len() ==> (#[trigger] records[i]).is_of(
            m,
            c,
            cfg,
            fold,
            kill,
            ax,
            rg_evals,
            rg_evals[pairs[i].0],
            rg_fundeds[pairs[i].1],
        ) && records[i].in_range()
}

fn months_for(f: &FundedDist, funded_max_days: usize) -> (r: Ratio)
    requires
        f.in_range(),
        funded_max_days <= MAX_FUNDED_DAYS,
        f.mean_days_held.num <= funded_max_days * f.mean_days_held.den,
    ensures
        r == months_of(*f),
        is_months(r),
{
    let months: Ratio = f.months_held();
    proof {
        let d = f.mean_days_held.den as int;
        let n = funded_max_days as int;
        assert(n * d <= 2_147_483_647 * d) by (nonlinear_arith)
            requires
                n <= 2_147_483_647,
                d > 0,
        ;
    }
    months
}

fn challenges(
    m: &Market,
    c: &Cell,
    cfg: &RunConfig,
    fold: &Fold,
    kill: Option<i64>,
    ax: &Account,
    rg_evals: &Vec<usize>,
) -> (r: Vec<ChallengeResult>)
    requires
        m.wf(),
        c.runs_on(*m),
        cfg.fault() is None,
        fold.wf(m.days@.len() as int),
        ax.in_range(),
        kill matches Some(k) ==> 0 <= k <= MAX_PNL,
    ensures
        r@.len() == rg_evals@.len(),
        forall|i: int|
            0 <= i < r@.len() ==> #[trigger] r@[i] == fold_challenge(
                *m,
                *c,
                *cfg,
                *fold,
                kill,
                *ax,
                rg_evals@[i],
            ),
        forall|i: int|
            0 <= i < r@.len() ==> is_pass_rate((#[trigger] r@[i]).pass_rate),
{
    let mc: McConfig = cfg.mc_for_account(ax);
    proof {
        let d = ax.eval_calendar_days as int;
        if d > 0 {
            assert(0 <= (2 * 2100 * d + 3044) / 6088 <= d) by (nonlinear_arith)
                requires
                    0 < d,
            ;
            assert(ax.sessions_allowed() == Some((2 * 2100 * d + 3044) / 6088));
        }
        assert(mc.eval_max_days <= i32::MAX);
    }
    let mut r: Vec<ChallengeResult> = Vec::new();
    let mut i: usize = 0;
    while i < rg_evals.len()
        invariant
            m.wf(),
            c.runs_on(*m),
            cfg.fault() is None,
            fold.wf(m.days@.len() as int),
            ax.in_range(),
            kill matches Some(k) ==> 0 <= k <= MAX_PNL,
            mc == cfg.mc_for(ax.sessions_allowed()),
            mc.eval_max_days <= i32::MAX,
            i <= rg_evals@.len(),
            r@.len() == i,
            forall|k: int|
                0 <= k < i ==> #[trigger] r@[k] == fold_challenge(
                    *m,
                    *c,
                    *cfg,
                    *fold,
                    kill,
                    *ax,
                    rg_evals@[k],
                ),
            forall|k: int|
                0 <= k < i ==> is_pass_rate((#[trigger] r@[k]).pass_rate),
        decreases rg_evals@.len() - i,
    {
        let rg: usize = rg_evals[i];
        let seed: u64 = seed_for(m, c, cfg, ax, fold.test_year, rg, EVAL_PHASE);
        let one: ChallengeResult = mc_challenge(
            fold.train_by_day.as_slice(),
            ax,
            rg,
            &mc,
            m.inst.point_value,
            fold.long_wr,
            fold.short_wr,
            kill,
            seed,
        );
        r.push(one);
        i = i + 1;
    }
    r
}

fn some_rate_above(results: &Vec<ChallengeResult>, least: i64) -> (r: bool)
    requires
        forall|i: int| 0 <= i < results@.len() ==> (#[trigger] results@[i]).pass_rate.den > 0,
    ensures
        r <==> exists|i: int|
            0 <= i < results@.len() && (#[trigger] results@[i]).pass_rate.above(
                least as int,
                MILLION as int,
            ),
{
    let mut i: usize = 0;
    while i < results.len()
        invariant
            i <= results@.len(),
            forall|k: int|
                0 <= k < results@.len() ==> (#[trigger] results@[k]).pass_rate.den > 0,
            forall|k: int|
                0 <= k < i ==> !(#[trigger] results@[k]).pass_rate.above(
                    least as int,
                    MILLION as int,
                ),
        decreases results@.len() - i,
    {
        if results[i].pass_rate.is_above(least, MILLION) {
            return true;
        }
        i = i + 1;
    }
    false
}


fn fundings(
    m: &Market,
    c: &Cell,
    cfg: &RunConfig,
    fold: &Fold,
    kill: Option<i64>,
    ax: &Account,
    run: bool,
    rg_evals: &Vec<usize>,
    rg_fundeds: &Vec<usize>,
) -> (r: Vec<FundedDist>)
    requires
        m.wf(),
        c.runs_on(*m),
        cfg.fault() is None,
        fold.wf(m.days@.len() as int),
        ax.in_range(),
        kill matches Some(k) ==> 0 <= k <= MAX_PNL,
        run == worth_funding(*m, *c, *cfg, *fold, kill, *ax, rg_evals@),
    ensures
        r@.len() == rg_fundeds@.len(),
        forall|i: int|
            0 <= i < r@.len() ==> #[trigger] r@[i] == fold_funded(
                *m,
                *c,
                *cfg,
                *fold,
                kill,
                *ax,
                rg_evals@,
                rg_fundeds@[i],
            ),
        forall|i: int|
            0 <= i < r@.len() ==> (#[trigger] r@[i]).in_range() && r@[i].mean_days_held.num
                <= cfg.mc.funded_max_days * r@[i].mean_days_held.den,
{
    let mut r: Vec<FundedDist> = Vec::new();
    let mut i: usize = 0;
    while i < rg_fundeds.len()
        invariant
            m.wf(),
            c.runs_on(*m),
            cfg.fault() is None,
            fold.wf(m.days@.len() as int),
            ax.in_range(),
            kill matches Some(k) ==> 0 <= k <= MAX_PNL,
            run == worth_funding(*m, *c, *cfg, *fold, kill, *ax, rg_evals@),
            i <= rg_fundeds@.len(),
            r@.len() == i,
            forall|k: int|
                0 <= k < i ==> #[trigger] r@[k] == fold_funded(
                    *m,
                    *c,
                    *cfg,
                    *fold,
                    kill,
                    *ax,
                    rg_evals@,
                    rg_fundeds@[k],
                ),
            forall|k: int|
                0 <= k < i ==> (#[trigger] r@[k]).in_range() && r@[k].mean_days_held.num
                    <= cfg.mc.funded_max_days * r@[k].mean_days_held.den,
        decreases rg_fundeds@.len() - i,
    {
        let rg: usize = rg_fundeds[i];
        let one: FundedDist = if run {
            let seed: u64 = seed_for(m, c, cfg, ax, fold.test_year, rg, FUNDED_PHASE);
            mc_funded(
                fold.train_by_day.as_slice(),
                ax,
                rg,
                &cfg.mc,
                m.inst.point_value,
                fold.long_wr,
                fold.short_wr,
                kill,
                seed,
            )
        } else {
            FundedDist::default()
        };
        r.push(one);
        i = i + 1;
    }
    r
}

/// The records of a fold on one account product.
///
/// The evaluation result depends only on the evaluation geometry and the funded
/// result only on the funded one, so each is simulated once and the pairs are
/// formed from the results.
pub fn account_records(
    m: &Market,
    c: &Cell,
    cfg: &RunConfig,
    fold: &Fold,
    kill: Option<i64>,
    ax: &Account,
    rg_evals: &Vec<usize>,
    rg_fundeds: &Vec<usize>,
) -> (r: Vec<FoldRecord>)
    requires
        m.wf(),
        c.runs_on(*m),
        cfg.fault() is None,
        fold.wf(m.days@.len() as int),
        ax.in_range(),
        kill matches Some(k) ==> 0 <= k <= MAX_PNL,
        are_geometries(rg_evals@),
        are_geometries(rg_fundeds@),
    ensures
        are_account_records(
            r@,
            *m,
            *c,
            *cfg,
            *fold,
            kill,
            *ax,
            rg_evals@,
            rg_fundeds@,
        ),
{
    let chal: Vec<ChallengeResult> = challenges(m, c, cfg, fold, kill, ax, rg_evals);
    let run: bool = cfg.mc_funded_min_pr < 0 || some_rate_above(&chal, cfg.mc_funded_min_pr);
    proof {
        let least = cfg.mc_funded_min_pr as int;
        if exists|i: int|
            0 <= i < chal@.len() && (#[trigger] chal@[i]).pass_rate.above(least, MILLION as int) {
            let i = choose|i: int|
                0 <= i < chal@.len() && (#[trigger] chal@[i]).pass_rate.above(
                    least,
                    MILLION as int,
                );
            assert(fold_challenge(
                *m,
                *c,
                *cfg,
                *fold,
                kill,
                *ax,
                rg_evals@[i],
            ).pass_rate.above(least, MILLION as int));
        }
        if exists|i: int|
            0 <= i < rg_evals@.len() && fold_challenge(
                *m,
                *c,
                *cfg,
                *fold,
                kill,
                *ax,
                #[trigger] rg_evals@[i],
            ).pass_rate.above(least, MILLION as int) {
            let i = choose|i: int|
                0 <= i < rg_evals@.len() && fold_challenge(
                    *m,
                    *c,
                    *cfg,
                    *fold,
                    kill,
                    *ax,
                    #[trigger] rg_evals@[i],
                ).pass_rate.above(least, MILLION as int);
            assert(chal@[i].pass_rate.above(least, MILLION as int));
        }
    }
    let funded: Vec<FundedDist> = fundings(m, c, cfg, fold, kill, ax, run, rg_evals, rg_fundeds);
    let mut out: Vec<FoldRecord> = Vec::new();
    let split: bool = cfg.split_risk_geo;
    let mut e: usize = 0;
    while e < rg_evals.len()
        invariant
            cfg.fault() is None,
            fold.wf(m.days@.len() as int),
            ax.in_range(),
            c.in_range(),
            are_geometries(rg_evals@),
            are_geometries(rg_fundeds@),
            split == cfg.split_risk_geo,
            chal@.len() == rg_evals@.len(),
            funded@.len() == rg_fundeds@.len(),
            forall|i: int|
                0 <= i < chal@.len() ==> #[trigger] chal@[i] == fold_challenge(
                    *m,
                    *c,
                    *cfg,
                    *fold,
                    kill,
                    *ax,
                    rg_evals@[i],
                ),
            forall|i: int|
                0 <= i < chal@.len() ==> is_pass_rate((#[trigger] chal@[i]).pass_rate),
            forall|i: int|
                0 <= i < funded@.len() ==> #[trigger] funded@[i] == fold_funded(
                    *m,
                    *c,
                    *cfg,
                    *fold,
                    kill,
                    *ax,
                    rg_evals@,
                    rg_fundeds@[i],
                ),
            forall|i: int|
                0 <= i < funded@.len() ==> (#[trigger] funded@[i]).in_range()
                    && funded@[i].mean_days_held.num <= cfg.mc.funded_max_days
                    * funded@[i].mean_days_held.den,
            e <= rg_evals@.len(),
            out@.len() == geometry_pairs(rg_evals@, rg_fundeds@, split, e as int).len(),
            forall|i: int|
                0 <= i < out@.len() ==> ({
                    let at = geometry_pairs(rg_evals@, rg_fundeds@, split, e as int)[i];
                    (#[trigger] out@[i]).in_range() && out@[i].is_of(
                        *m,
                        *c,
                        *cfg,
                        *fold,
                        kill,
                        *ax,
                        rg_evals@,
                        rg_evals@[at.0],
                        rg_fundeds@[at.1],
                    )
                }),
        decreases rg_evals@.len() - e,
    {
        let ghost done = geometry_pairs(rg_evals@, rg_fundeds@, split, e as int);
        let mut f: usize = 0;
        while f < rg_fundeds.len()
            invariant
                cfg.fault() is None,
                fold.wf(m.days@.len() as int),
                ax.in_range(),
                c.in_range(),
                are_geometries(rg_evals@),
                are_geometries(rg_fundeds@),
                split == cfg.split_risk_geo,
                chal@.len() == rg_evals@.len(),
                funded@.len() == rg_fundeds@.len(),
                forall|i: int|
                    0 <= i < chal@.len() ==> #[trigger] chal@[i] == fold_challenge(
                        *m,
                        *c,
                        *cfg,
                        *fold,
                        kill,
                        *ax,
                        rg_evals@[i],
                    ),
                forall|i: int|
                    0 <= i < chal@.len() ==> is_pass_rate((#[trigger] chal@[i]).pass_rate),
                forall|i: int|
                    0 <= i < funded@.len() ==> #[trigger] funded@[i] == fold_funded(
                        *m,
                        *c,
                        *cfg,
                        *fold,
                        kill,
                        *ax,
                        rg_evals@,
                        rg_fundeds@[i],
                    ),
                forall|i: int|
                    0 <= i < funded@.len() ==> (#[trigger] funded@[i]).in_range()
                        && funded@[i].mean_days_held.num <= cfg.mc.funded_max_days
                        * funded@[i].mean_days_held.den,
                e < rg_evals@.len(),
                f <= rg_fundeds@.len(),
                done == geometry_pairs(rg_evals@, rg_fundeds@, split, e as int),
                out@.len() == (done + pairs_with(
                    rg_evals@,
                    rg_fundeds@,
                    split,
                    e as int,
                    f as int,
                )).len(),
                forall|i: int|
                    0 <= i < out@.len() ==> ({
                        let at = (done + pairs_with(
                            rg_evals@,
                            rg_fundeds@,
                            split,
                            e as int,
                            f as int,
                        ))[i];
                        (#[trigger] out@[i]).in_range() && out@[i].is_of(
                            *m,
                            *c,
                            *cfg,
                            *fold,
                            kill,
                            *ax,
                            rg_evals@,
                            rg_evals@[at.0],
                            rg_fundeds@[at.1],
                        )
                    }),
            decreases rg_fundeds@.len() - f,
        {
            let ghost so_far = done + pairs_with(
                rg_evals@,
                rg_fundeds@,
                split,
                e as int,
                f as int,
            );
            if split || rg_evals[e] == rg_fundeds[f] {
                let ch: ChallengeResult = chal[e];
                let fd: FundedDist = funded[f];
                let months: Ratio = months_for(&fd, cfg.mc.funded_max_days);
                let ev: EvBreakdown = evaluate(
                    ax,
                    ch.pass_rate,
                    fd.mean_ext,
                    fd.p_ext_zero,
                    months,
                    &cfg.ev,
                );
                let record: FoldRecord = FoldRecord {
                    instrument: m.sym.to_owned(),
                    cell: *c,
                    rg_eval: rg_evals[e],
                    rg_funded: rg_fundeds[f],
                    account: ax.key.clone(),
                    test_year: fold.test_year,
                    total_period_days: fold.test_days,
                    inner_train_ev: fold.inner_train_ev,
                    inner_val_ev: fold.inner_val_ev,
                    shrinkage_ratio: fold.shrinkage_ratio,
                    realized: fold.realized,
                    avg_hurst_used: fold.avg_hurst_used,
                    challenge: ch,
                    funded: fd,
                    ev,
                };
                proof {
                    assert(record.is_of(
                        *m,
                        *c,
                        *cfg,
                        *fold,
                        kill,
                        *ax,
                        rg_evals@,
                        rg_evals@[e as int],
                        rg_fundeds@[f as int],
                    ));
                    assert(record.in_range());
                    assert(done + pairs_with(rg_evals@, rg_fundeds@, split, e as int, f + 1)
                        =~= so_far.push((e as int, f as int)));
                }
                out.push(record);
            }
            f = f + 1;
        }
        e = e + 1;
    }
    out
}

// ---------------------------------------------------------------------------
// Daily results
// ---------------------------------------------------------------------------

/// Out-of-sample profit of a cell on one day, for joining against external daily
/// features.
#[derive(Debug)]
pub struct DailyPnlRow {
    pub date_code: u32,
    pub instrument: String,
    pub cell: Cell,
    pub test_year: i32,
    pub n_trades_day: usize,
    /// In micro-dollars.
    pub daily_pnl_1ct: i128,
}

impl DailyPnlRow {
    /// Whether this is the row of a fold's trades on a day.
    pub open spec fn is_of(self, m: Market, c: Cell, fold: Fold, day: usize) -> bool {
        &&& self.date_code == m.days@[day as int].date_code
        &&& self.instrument@ == m.sym@
        &&& self.cell == c
        &&& self.test_year == fold.test_year
        &&& self.n_trades_day == of_day(fold.test@, day).len()
        &&& self.daily_pnl_1ct == total(profits(of_day(fold.test@, day)))
    }
}

/// The days among the first `n` on which trades were made.
pub open spec fn days_with_trades(trades: Seq<RawTrade>, n: int) -> Seq<usize>
    decreases n,
{
    if n <= 0 {
        Seq::empty()
    } else {
        let before = days_with_trades(trades, n - 1);
        let day = (n - 1) as usize;
        if of_day(trades, day).len() > 0 {
            before.push(day)
        } else {
            before
        }
    }
}

/// Whether rows are those of a fold, one for each day with trades, in order.
pub open spec fn are_daily_rows(rows: Seq<DailyPnlRow>, m: Market, c: Cell, fold: Fold) -> bool {
    let traded = days_with_trades(fold.test@, m.days@.len() as int);
    &&& rows.len() == traded.len()
    &&& forall|i: int|
        0 <= i < rows.len() ==> (#[trigger] rows[i]).is_of(m, c, fold, traded[i])
}

fn profit_of(trades: &Vec<RawTrade>) -> (r: i128)
    requires
        trades@.len() <= 2,
    ensures
        r == total(profits(trades@)),
{
    let mut sum: i128 = 0;
    let mut i: usize = 0;
    while i < trades.len()
        invariant
            i <= trades@.len() <= 2,
            sum == total(profits(trades@).take(i as int)),
            -0x8000_0000_0000_0000 * i <= sum <= 0x8000_0000_0000_0000 * i,
        decreases trades@.len() - i,
    {
        proof {
            let s = profits(trades@);
            assert(s.take(i + 1).drop_last() == s.take(i as int));
        }
        sum = sum + trades[i].pnl_1ct as i128;
        i = i + 1;
    }
    proof {
        assert(profits(trades@).take(trades@.len() as int) == profits(trades@));
    }
    sum
}

proof fn lemma_day_has_no_group(
    groups: Seq<Vec<RawTrade>>,
    trades: Seq<RawTrade>,
    at: int,
    day: usize,
)
    requires
        grouped_by_day(groups, trades),
        0 <= at <= groups.len(),
        forall|k: int| 0 <= k < at ==> (#[trigger] groups[k])@[0].day_idx < day,
        at < groups.len() ==> groups[at]@[0].day_idx > day,
    ensures
        of_day(trades, day).len() == 0,
{
    if of_day(trades, day).len() > 0 {
        let f = |t: RawTrade| t.day_idx == day;
        let t = of_day(trades, day)[0];
        trades.lemma_filter_pred(f, 0);
        trades.lemma_filter_contains_rev(f, t);
        let i = choose|i: int| 0 <= i < trades.len() && trades[i] == t;
        assert(holds_day(groups, trades[i].day_idx));
        let k = choose|k: int| 0 <= k < groups.len() && (#[trigger] groups[k])@[0].day_idx == day;
        if k > at {
            assert(groups[at]@[0].day_idx < groups[k]@[0].day_idx);
        }
    }
}

/// The daily rows of a fold.
pub fn daily_rows(m: &Market, c: &Cell, fold: &Fold) -> (r: Vec<DailyPnlRow>)
    requires
        m.wf(),
        fold.wf(m.days@.len() as int),
    ensures
        are_daily_rows(r@, *m, *c, *fold),
{
    let groups: Vec<Vec<RawTrade>> = group_trades_by_day(fold.test.as_slice());
    let n: usize = m.days.len();
    let ghost trades = fold.test@;
    let mut out: Vec<DailyPnlRow> = Vec::new();
    let mut g: usize = 0;
    let mut d: usize = 0;
    while d < n
        invariant
            m.wf(),
            fold.wf(m.days@.len() as int),
            n == m.days@.len(),
            trades == fold.test@,
            grouped_by_day(groups@, trades),
            d <= n,
            g <= groups@.len(),
            forall|k: int| 0 <= k < g ==> (#[trigger] groups@[k])@[0].day_idx < d,
            g < groups@.len() ==> groups@[g as int]@[0].day_idx >= d,
            out@.len() == days_with_trades(trades, d as int).len(),
            forall|i: int|
                0 <= i < out@.len() ==> (#[trigger] out@[i]).is_of(
                    *m,
                    *c,
                    *fold,
                    days_with_trades(trades, d as int)[i],
                ),
        decreases n - d,
    {
        if g < groups.len() && groups[g][0].day_idx == d {
            proof {
                assert(groups@[g as int]@ == of_day(trades, d));
            }
            let row: DailyPnlRow = DailyPnlRow {
                date_code: m.days[d].date_code,
                instrument: m.sym.to_owned(),
                cell: *c,
                test_year: fold.test_year,
                n_trades_day: groups[g].len(),
                daily_pnl_1ct: profit_of(&groups[g]),
            };
            proof {
                assert(row.is_of(*m, *c, *fold, d));
                if g + 1 < groups@.len() {
                    assert(groups@[g as int]@[0].day_idx < groups@[g + 1]@[0].day_idx);
                }
            }
            out.push(row);
            g = g + 1;
        } else {
            proof {
                lemma_day_has_no_group(groups@, trades, g as int, d);
            }
        }
        d = d + 1;
    }
    out
}

// ---------------------------------------------------------------------------
// Evaluation
// ---------------------------------------------------------------------------

/// What one evaluated test year of a cell comes to.
pub struct FoldOutcome {
    pub fold: Fold,
    /// The loss beyond which a trade counts as a tail event.
    pub tail_limit: Option<i64>,
    /// The records of each account product.
    pub records: Vec<Vec<FoldRecord>>,
    pub daily: Vec<DailyPnlRow>,
}

impl FoldOutcome {
    /// Whether this is what a fold comes to under its tail limit.
    pub open spec fn follows(
        self,
        m: Market,
        c: Cell,
        cfg: RunConfig,
        accounts: Seq<Account>,
        rg_evals: Seq<usize>,
        rg_fundeds: Seq<usize>,
    ) -> bool {
        &&& self.records@.len() == accounts.len()
        &&& forall|a: int|
            0 <= a < accounts.len() ==> are_account_records(
                (#[trigger] self.records@[a])@,
                m,
                c,
                cfg,
                self.fold,
                self.tail_limit,
                accounts[a],
                rg_evals,
                rg_fundeds,
            )
        &&& are_daily_rows(self.daily@, m, c, self.fold)
    }
}

/// The loss beyond which a trade counts as a tail event, given the quantile that
/// a fit of the tail came to.
pub fn kill_for(tail: &TailFit, q: i128) -> (r: Option<i64>)
    requires
        tail.starts_positive(),
    ensures
        r == kill_level(tail.limit(q)),
        r matches Some(k) ==> 0 <= k <= MAX_PNL,
{
    match tail.threshold(q) {
        Some(x) => Some(
            if x > MAX_PNL as i128 {
                MAX_PNL
            } else {
                x as i64
            },
        ),
        None => None,
    }
}

/// Simulate a fold on every account product, given the quantile that a fit of
/// its tail came to.
pub fn fold_outcome(
    m: &Market,
    c: &Cell,
    cfg: &RunConfig,
    fold: Fold,
    q: i128,
    accounts: &Vec<Account>,
    rg_evals: &Vec<usize>,
    rg_fundeds: &Vec<usize>,
) -> (r: FoldOutcome)
    requires
        m.wf(),
        c.runs_on(*m),
        cfg.fault() is None,
        fold.wf(m.days@.len() as int),
        forall|a: int| 0 <= a < accounts@.len() ==> (#[trigger] accounts@[a]).in_range(),
        are_geometries(rg_evals@),
        are_geometries(rg_fundeds@),
    ensures
        r.fold == fold,
        r.tail_limit == kill_level(fold.tail.limit(q)),
        r.follows(*m, *c, *cfg, accounts@, rg_evals@, rg_fundeds@),
{
    let tail_limit: Option<i64> = kill_for(&fold.tail, q);
    let mut records: Vec<Vec<FoldRecord>> = Vec::new();
    let mut a: usize = 0;
    while a < accounts.len()
        invariant
            m.wf(),
            c.runs_on(*m),
            cfg.fault() is None,
            fold.wf(m.days@.len() as int),
            tail_limit matches Some(k) ==> 0 <= k <= MAX_PNL,
            are_geometries(rg_evals@),
            are_geometries(rg_fundeds@),
            forall|k: int| 0 <= k < accounts@.len() ==> (#[trigger] accounts@[k]).in_range(),
            a <= accounts@.len(),
            records@.len() == a,
            forall|k: int|
                0 <= k < a ==> are_account_records(
                    (#[trigger] records@[k])@,
                    *m,
                    *c,
                    *cfg,
                    fold,
                    tail_limit,
                    accounts@[k],
                    rg_evals@,
                    rg_fundeds@,
                ),
        decreases accounts@.len() - a,
    {
        let of_account: Vec<FoldRecord> = account_records(
            m,
            c,
            cfg,
            &fold,
            tail_limit,
            &accounts[a],
            rg_evals,
            rg_fundeds,
        );
        records.push(of_account);
        a = a + 1;
    }
    let daily: Vec<DailyPnlRow> = daily_rows(m, c, &fold);
    FoldOutcome { fold, tail_limit, records, daily }
}

/// Whether an outcome's tail limit comes from what a fit of its tail answered.
pub open spec fn limit_was_fitted<F: Fn(&TailFit) -> i128>(fit: F, o: FoldOutcome) -> bool {
    exists|q: i128| #[trigger]
        call_ensures(fit, (&o.fold.tail,), q) && o.tail_limit == kill_level(o.fold.tail.limit(q))
}

/// The first test year of data that starts with `min_year`.
pub open spec fn first_test_year(cfg: RunConfig, min_year: int) -> int {
    min_year + cfg.outer_train_years
}

/// Whether outcomes are the evaluation of a cell on data from `min_year` to
/// `max_year`: one for each test year that is kept, the years ascending.
pub open spec fn is_evaluation<F: Fn(&TailFit) -> i128>(
    r: Seq<FoldOutcome>,
    m: Market,
    c: Cell,
    cfg: RunConfig,
    min_year: int,
    max_year: int,
    accounts: Seq<Account>,
    rg_evals: Seq<usize>,
    rg_fundeds: Seq<usize>,
    fit: F,
) -> bool {
    let first = first_test_year(cfg, min_year);
    &&& forall|y: i32|
        first <= y <= max_year ==> (#[trigger] fold_kept(m, c, cfg, y as int) <==> exists|i: int|
            0 <= i < r.len() && (#[trigger] r[i]).fold.test_year == y)
    &&& forall|i: int, j: int|
        0 <= i < j < r.len() ==> (#[trigger] r[i]).fold.test_year < (
        #[trigger] r[j]).fold.test_year
    &&& forall|i: int|
        0 <= i < r.len() ==> {
            let y = (#[trigger] r[i]).fold.test_year;
            &&& first <= y <= max_year
            &&& r[i].fold.is_of(m, c, cfg, y as int)
            &&& limit_was_fitted(fit, r[i])
            &&& r[i].follows(m, c, cfg, accounts, rg_evals, rg_fundeds)
        }
}

/// Evaluate a cell on every test year that the data from `min_year` to `max_year`
/// has a full training period for, fitting the tail of each fold's training
/// losses with `fit`.
pub fn evaluate_cell<F: Fn(&TailFit) -> i128>(
    m: &Market,
    c: &Cell,
    cfg: &RunConfig,
    min_year: i32,
    max_year: i32,
    accounts: &Vec<Account>,
    rg_evals: &Vec<usize>,
    rg_fundeds: &Vec<usize>,
    fit: &F,
) -> (r: Vec<FoldOutcome>)
    requires
        m.wf(),
        c.runs_on(*m),
        cfg.fault() is None,
        -MAX_YEAR <= first_test_year(*cfg, min_year as int) <= i32::MAX,
        max_year <= MAX_YEAR,
        forall|a: int| 0 <= a < accounts@.len() ==> (#[trigger] accounts@[a]).in_range(),
        are_geometries(rg_evals@),
        are_geometries(rg_fundeds@),
        forall|t: &TailFit| #[trigger] call_requires(*fit, (t,)),
    ensures
        is_evaluation(
            r@,
            *m,
            *c,
            *cfg,
            min_year as int,
            max_year as int,
            accounts@,
            rg_evals@,
            rg_fundeds@,
            *fit,
        ),
{
    let mut out: Vec<FoldOutcome> = Vec::new();
    let first_year: i32 = min_year + cfg.outer_train_years;
    let mut y: i32 = first_year;
    while y <= max_year
        invariant
            m.wf(),
            c.runs_on(*m),
            cfg.fault() is None,
            -MAX_YEAR <= first_year <= y,
            max_year <= MAX_YEAR,
            y <= max_year + 1 || y == first_year,
            forall|a: int| 0 <= a < accounts@.len() ==> (#[trigger] accounts@[a]).in_range(),
            are_geometries(rg_evals@),
            are_geometries(rg_fundeds@),
            forall|t: &TailFit| #[trigger] call_requires(*fit, (t,)),
            forall|z: i32|
                first_year <= z < y ==> (#[trigger] fold_kept(*m, *c, *cfg, z as int)
                    <==> exists|i: int|
                    0 <= i < out@.len() && (#[trigger] out@[i]).fold.test_year == z),
            forall|i: int, j: int|
                0 <= i < j < out@.len() ==> (#[trigger] out@[i]).fold.test_year < (
                #[trigger] out@[j]).fold.test_year,
            forall|i: int|
                0 <= i < out@.len() ==> {
                    let z = (#[trigger] out@[i]).fold.test_year;
                    &&& first_year <= z < y
                    &&& out@[i].fold.is_of(*m, *c, *cfg, z as int)
                    &&& limit_was_fitted(*fit, out@[i])
                    &&& out@[i].follows(*m, *c, *cfg, accounts@, rg_evals@, rg_fundeds@)
                },
        decreases max_year - y + 1,
    {
        let ghost before = out@;
        match plan_fold(m, c, cfg, y) {
            Some(fold) => {
                let q: i128 = fit(&fold.tail);
                let outcome: FoldOutcome = fold_outcome(
                    m,
                    c,
                    cfg,
                    fold,
                    q,
                    accounts,
                    rg_evals,
                    rg_fundeds,
                );
                proof {
                    assert(call_ensures(*fit, (&outcome.fold.tail,), q));
                    assert(limit_was_fitted(*fit, outcome));
                }
                out.push(outcome);
                proof {
                    assert(out@[before.len() as int].fold.test_year == y);
                    assert forall|z: i32| first_year <= z < y + 1 implies (#[trigger] fold_kept(
                        *m,
                        *c,
                        *cfg,
                        z as int,
                    ) <==> exists|i: int|
                        0 <= i < out@.len() && (#[trigger] out@[i]).fold.test_year == z) by {
                        if z < y {
                            if fold_kept(*m, *c, *cfg, z as int) {
                                let i = choose|i: int|
                                    0 <= i < before.len() && (#[trigger] before[i]).fold.test_year
                                        == z;
                                assert(out@[i] == before[i]);
                            }
                            if exists|i: int|
                                0 <= i < out@.len() && (#[trigger] out@[i]).fold.test_year == z {
                                let i = choose|i: int|
                                    0 <= i < out@.len() && (#[trigger] out@[i]).fold.test_year
                                        == z;
                                assert(before[i] == out@[i]);
                            }
                        }
                    }
                }
            },
            None => {},
        }
        y = y + 1;
    }
    out
}

/// Evaluate cells in parallel.
pub fn evaluate_cells<F: Fn(&TailFit) -> i128 + Sync + Send>(
    m: &Market,
    cells: &Vec<Cell>,
    cfg: &RunConfig,
    min_year: i32,
    max_year: i32,
    accounts: &Vec<Account>,
    rg_evals: &Vec<usize>,
    rg_fundeds: &Vec<usize>,
    fit: &F,
) -> (r: Vec<Vec<FoldOutcome>>)
    requires
        m.wf(),
        forall|i: int| 0 <= i < cells@.len() ==> (#[trigger] cells@[i]).runs_on(*m),
        cfg.fault() is None,
        -MAX_YEAR <= first_test_year(*cfg, min_year as int) <= i32::MAX,
        max_year <= MAX_YEAR,
        forall|a: int| 0 <= a < accounts@.len() ==> (#[trigger] accounts@[a]).in_range(),
        are_geometries(rg_evals@),
        are_geometries(rg_fundeds@),
        forall|t: &TailFit| #[trigger] call_requires(*fit, (t,)),
    ensures
        r@.len() == cells@.len(),
        forall|i: int|
            0 <= i < r@.len() ==> is_evaluation(
                (#[trigger] r@[i])@,
                *m,
                cells@[i],
                *cfg,
                min_year as int,
                max_year as int,
                accounts@,
                rg_evals@,
                rg_fundeds@,
                *fit,
            ),
{
    let one = |i: usize| -> (o: Vec<FoldOutcome>)
        requires
            i < cells@.len(),
        ensures
            is_evaluation(
                o@,
                *m,
                cells@[i as int],
                *cfg,
                min_year as int,
                max_year as int,
                accounts@,
                rg_evals@,
                rg_fundeds@,
                *fit,
            ),
        {
            evaluate_cell(
                m,
                &cells[i],
                cfg,
                min_year,
                max_year,
                accounts,
                rg_evals,
                rg_fundeds,
                fit,
            )
        };
    let r: Vec<Vec<FoldOutcome>> = parallel_map(cells.len(), one);
    proof {
        assert forall|i: int| 0 <= i < r@.len() implies is_evaluation(
            (#[trigger] r@[i])@,
            *m,
            cells@[i],
            *cfg,
            min_year as int,
            max_year as int,
            accounts@,
            rg_evals@,
            rg_fundeds@,
            *fit,
        ) by {
            let k = i as usize;
            assert(call_ensures(one, (k,), r@[k as int]));
        }
    }
    r
}

/// Vectors one after the other.
pub open spec fn joined<T>(s: Seq<Vec<T>>) -> Seq<T>
    decreases s.len(),
{
    if s.len() == 0 {
        Seq::empty()
    } else {
        joined(s.drop_last()) + s.last()@
    }
}

/// The records of outcomes, one after the other.
pub open spec fn records_of(s: Seq<FoldOutcome>) -> Seq<FoldRecord>
    decreases s.len(),
{
    if s.len() == 0 {
        Seq::empty()
    } else {
        records_of(s.drop_last()) + joined(s.last().records@)
    }
}

/// The daily rows of outcomes, one after the other.
pub open spec fn rows_of(s: Seq<FoldOutcome>) -> Seq<DailyPnlRow>
    decreases s.len(),
{
    if s.len() == 0 {
        Seq::empty()
    } else {
        rows_of(s.drop_last()) + s.last().daily@
    }
}

fn join<T>(v: Vec<Vec<T>>) -> (r: Vec<T>)
    ensures
        r@ == joined(v@),
{
    let mut r: Vec<T> = Vec::new();
    let ghost all = v@;
    proof {
        assert(all.take(0) =~= Seq::<Vec<T>>::empty());
    }
    for x in it: v
        invariant
            it.seq() == all,
            r@ == joined(all.take(it.index() as int)),
    {
        let mut x: Vec<T> = x;
        proof {
            let k = it.index() as int;
            assert(all.take(k + 1).drop_last() =~= all.take(k));
        }
        r.append(&mut x);
    }
    proof {
        assert(all.take(all.len() as int) =~= all);
    }
    r
}

/// Everything that the evaluated cells report, in the order of the cells, the
/// test years and the account products: the records and the daily rows.
pub fn collect_outcomes(results: Vec<Vec<FoldOutcome>>) -> (r: (Vec<FoldRecord>, Vec<DailyPnlRow>))
    ensures
        r.0@ == records_of(joined(results@)),
        r.1@ == rows_of(joined(results@)),
{
    let all: Vec<FoldOutcome> = join(results);
    let ghost outcomes = all@;
    let mut folds: Vec<FoldRecord> = Vec::new();
    let mut rows: Vec<DailyPnlRow> = Vec::new();
    proof {
        assert(outcomes.take(0) =~= Seq::<FoldOutcome>::empty());
    }
    for o in it: all
        invariant
            it.seq() == outcomes,
            folds@ == records_of(outcomes.take(it.index() as int)),
            rows@ == rows_of(outcomes.take(it.index() as int)),
    {
        let FoldOutcome { fold: _, tail_limit: _, records, daily } = o;
        let mut mine: Vec<FoldRecord> = join(records);
        let mut days: Vec<DailyPnlRow> = daily;
        proof {
            let k = it.index() as int;
            assert(outcomes.take(k + 1).drop_last() =~= outcomes.take(k));
        }
        folds.append(&mut mine);
        rows.append(&mut days);
    }
    proof {
        assert(outcomes.take(outcomes.len() as int) =~= outcomes);
    }
    (folds, rows)
}

/// The earliest and the latest year of days.
pub fn year_bounds(days: &Vec<DayMeta>) -> (r: Option<(i32, i32)>)
    ensures
        r is None <==> days@.len() == 0,
        r matches Some((lo, hi)) ==> {
            &&& forall|d: int| 0 <= d < days@.len() ==> lo <= (#[trigger] days@[d]).year <= hi
            &&& exists|d: int| 0 <= d < days@.len() && (#[trigger] days@[d]).year == lo
            &&& exists|d: int| 0 <= d < days@.len() && (#[trigger] days@[d]).year == hi
        },
{
    if days.len() == 0 {
        return None;
    }
    let mut lo: i32 = days[0].year;
    let mut hi: i32 = days[0].year;
    let mut d: usize = 1;
    while d < days.len()
        invariant
            1 <= d <= days@.len(),
            forall|k: int| 0 <= k < d ==> lo <= (#[trigger] days@[k]).year <= hi,
            exists|k: int| 0 <= k < d && (#[trigger] days@[k]).year == lo,
            exists|k: int| 0 <= k < d && (#[trigger] days@[k]).year == hi,
        decreases days@.len() - d,
    {
        let y: i32 = days[d].year;
        if y < lo {
            lo = y;
        }
        if y > hi {
            hi = y;
        }
        d = d + 1;
    }
    Some((lo, hi))
}

// ---------------------------------------------------------------------------
// Laws
// ---------------------------------------------------------------------------

proof fn lemma_span_years(
    bars: Seq<Bar>,
    days: Seq<DayMeta>,
    inst: InstCfg,
    rows: Seq<DayRow>,
    p: BacktestParams,
    regimes: Seq<u8>,
    hurst: Seq<Option<i64>>,
    from: int,
    to: int,
    i: int,
)
    requires
        0 <= from,
        to <= usize::MAX,
        0 <= i < span_trades(bars, days, inst, rows, p, regimes, hurst, from, to).len(),
    ensures
        p.year_fits(
            days[span_trades(
                bars,
                days,
                inst,
                rows,
                p,
                regimes,
                hurst,
                from,
                to,
            )[i].day_idx as int].year,
        ),
    decreases to - from,
{
    if from < to {
        let before = span_trades(bars, days, inst, rows, p, regimes, hurst, from, to - 1);
        if i < before.len() {
            lemma_span_years(bars, days, inst, rows, p, regimes, hurst, from, to - 1, i);
        }
    }
}

proof fn lemma_cell_trade_year(m: Market, c: Cell, first: int, last: int, i: int)
    requires
        m.wf(),
        i32::MIN <= first,
        last <= i32::MAX,
        first <= i32::MAX,
        i32::MIN <= last,
        0 <= i < cell_trades(m, c, first, last).len(),
    ensures
        first <= m.days@[cell_trades(m, c, first, last)[i].day_idx as int].year <= last,
{
    let span = year_range_span(m.spans@, first, last);
    lemma_span_years(
        m.bars@,
        m.days@,
        m.inst,
        m.cache.rows_of(m.cache.index_of(c.window)),
        cell_params(m, c, first, last),
        m.regimes@,
        m.hurst@,
        span.0 as int,
        if span.1 < m.days@.len() {
            span.1 as int
        } else {
            m.days@.len() as int
        },
        i,
    );
}

/// A fold trains only on years before its test year: no trade of the training
/// period is of the test year or later, and every test trade is of the test year.
pub proof fn a_fold_trains_only_on_earlier_years(
    m: Market,
    c: Cell,
    cfg: RunConfig,
    fold: Fold,
    test_year: int,
    i: int,
)
    requires
        m.wf(),
        cfg.within_limits(),
        -MAX_YEAR <= test_year <= MAX_YEAR,
        fold.is_of(m, c, cfg, test_year),
    ensures
        0 <= i < fold.train@.len() ==> m.days@[fold.train@[i].day_idx as int].year < test_year,
        0 <= i < fold.test@.len() ==> m.days@[fold.test@[i].day_idx as int].year == test_year,
{
    let outer = outer_years(cfg, test_year);
    if 0 <= i < fold.train@.len() {
        lemma_cell_trade_year(m, c, outer.0, outer.1, i);
    }
    if 0 <= i < fold.test@.len() {
        lemma_cell_trade_year(m, c, test_year, test_year, i);
    }
}

/// The inner validation period follows the inner training period, and together
/// they are the training period.
pub proof fn the_inner_periods_split_the_training_period(
    cfg: RunConfig,
    test_year: int,
    year: int,
)
    requires
        0 <= cfg.inner_train_years < cfg.outer_train_years,
    ensures
        ({
            let (o0, o1) = outer_years(cfg, test_year);
            let (i0, i1) = inner_years(cfg, test_year);
            let (v0, v1) = validation_years(cfg, test_year);
            &&& i1 < v0
            &&& v0 <= v1
            &&& o0 <= year <= o1 <==> (i0 <= year <= i1 || v0 <= year <= v1)
        }),
{
}

/// A fold whose inner training shows no profit is dropped, unless the filter is
/// disabled.
pub proof fn a_fold_without_an_edge_is_dropped(m: Market, c: Cell, cfg: RunConfig, test_year: int)
    requires
        cfg.shrinkage_cutoff > SHRINKAGE_DISABLED,
        ({
            let inner = inner_years(cfg, test_year);
            total(profits(cell_trades(m, c, inner.0, inner.1))) <= 0
        }),
    ensures
        !fold_kept(m, c, cfg, test_year),
{
}

/// The evaluation and the funded phase of a fold are simulated from different
/// seeds.
pub proof fn the_two_phases_have_different_seeds(
    m: Market,
    c: Cell,
    cfg: RunConfig,
    ax: Account,
    test_year: int,
    rg: usize,
)
    ensures
        fold_seed(m, c, cfg, ax, test_year, rg, EVAL_PHASE) != fold_seed(
            m,
            c,
            cfg,
            ax,
            test_year,
            rg,
            FUNDED_PHASE,
        ),
{
    let parts = seq![m.sym@, variant_text(c.variant), c.fmode@, c.regime@, c.dir@, ax.key@];
    let nums = seq![
        (10 * c.lux) as i64,
        (10 * c.rr) as i64,
        (10 * c.hmin) as i64,
        (10 * c.emax) as i64,
    ];
    let a = seed_words(parts, nums, seq![c.window as i64, test_year as i64, rg as i64, EVAL_PHASE]);
    let b = seed_words(
        parts,
        nums,
        seq![c.window as i64, test_year as i64, rg as i64, FUNDED_PHASE],
    );
    one_changed_word_changes_the_seed(cfg.rng_seed, a, b, a.len() - 1);
}

proof fn lemma_pairs_with_equal(
    rg_evals: Seq<usize>,
    rg_fundeds: Seq<usize>,
    e: int,
    f: int,
    i: int,
)
    requires
        0 <= i < pairs_with(rg_evals, rg_fundeds, false, e, f).len(),
    ensures
        ({
            let at = pairs_with(rg_evals, rg_fundeds, false, e, f)[i];
            rg_evals[at.0] == rg_fundeds[at.1]
        }),
    decreases f,
{
    if f > 0 {
        let before = pairs_with(rg_evals, rg_fundeds, false, e, f - 1);
        if i < before.len() {
            lemma_pairs_with_equal(rg_evals, rg_fundeds, e, f - 1, i);
        }
    }
}

proof fn lemma_pairs_equal(rg_evals: Seq<usize>, rg_fundeds: Seq<usize>, e: int, i: int)
    requires
        0 <= i < geometry_pairs(rg_evals, rg_fundeds, false, e).len(),
    ensures
        ({
            let at = geometry_pairs(rg_evals, rg_fundeds, false, e)[i];
            rg_evals[at.0] == rg_fundeds[at.1]
        }),
    decreases e,
{
    if e > 0 {
        let before = geometry_pairs(rg_evals, rg_fundeds, false, e - 1);
        if i < before.len() {
            lemma_pairs_equal(rg_evals, rg_fundeds, e - 1, i);
        } else {
            lemma_pairs_with_equal(
                rg_evals,
                rg_fundeds,
                e - 1,
                rg_fundeds.len() as int,
                i - before.len(),
            );
        }
    }
}

/// Unless the geometries of the two phases are swept independently, every record
/// has one geometry for both.
pub proof fn unsplit_phases_share_one_geometry(
    records: Seq<FoldRecord>,
    m: Market,
    c: Cell,
    cfg: RunConfig,
    fold: Fold,
    kill: Option<i64>,
    ax: Account,
    rg_evals: Seq<usize>,
    rg_fundeds: Seq<usize>,
    i: int,
)
    requires
        are_account_records(records, m, c, cfg, fold, kill, ax, rg_evals, rg_fundeds),
        !cfg.split_risk_geo,
        0 <= i < records.len(),
    ensures
        records[i].rg_eval == records[i].rg_funded,
{
    lemma_pairs_equal(rg_evals, rg_fundeds, rg_evals.len() as int, i);
}

} // verus!
