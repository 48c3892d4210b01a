//! What a cell's trades, rows and records are taken from.

use vstd::prelude::*;

use crate::backtest::{
    a_year_span_holds_exactly_its_years, chronological, day_row, of_day, side_profit,
    year_range_span, Side,
};
use crate::engine::Cell;
use crate::ev::breakdown;
use crate::features::eligible;
use crate::mc::{challenge_of, funded_of, Conditions};
use crate::num::{total, Ratio};
use crate::stats::profits;
use crate::trade_laws::{
    every_trade_follows_the_rules, opens_with, the_opening_range_spans_its_bars,
    trading_begins_after_the_opening_minutes,
};
use crate::types::{Account, Bar, BiasMode, DayMeta, ExitMode, InstCfg, RawTrade};
use crate::walk::{
    are_account_records, are_daily_rows, cell_params, cell_trades, days_in, days_with_trades,
    first_test_year, fold_challenge, fold_seed, geometry_pairs, hurst_sample, is_win_rate, joined,
    lemma_cover_bound, losses_of, months_of, outer_years, pairs_with, phase_conditions, records_of,
    rows_of, DailyPnlRow, Fold, FoldOutcome, FoldRecord, Market, RunConfig, EVAL_PHASE,
    FUNDED_PHASE,
};

verus! {

// ---------------------------------------------------------------------------
// Days
// ---------------------------------------------------------------------------

/// The row of a day is read from the bars of its session: the highest high and the
/// lowest low of the first minutes, and where the bars after them begin.
pub proof fn a_row_is_read_from_its_session(bars: Seq<Bar>, day: DayMeta, inst: InstCfg, w: i32)
    ensures
        ({
            let row = day_row(bars, day, inst, w);
            let (s, e) = (day.sess_start as int, day.sess_end as int);
            let om = inst.open_mins as int;
            &&& match row.range {
                Some((hi, lo)) => {
                    &&& forall|i: int|
                        s <= i < e && opens_with(#[trigger] bars[i], om, w as int) ==> lo
                            <= bars[i].low && bars[i].high <= hi
                    &&& exists|i: int|
                        s <= i < e && opens_with(#[trigger] bars[i], om, w as int) && bars[i].high
                            == hi
                    &&& exists|i: int|
                        s <= i < e && opens_with(#[trigger] bars[i], om, w as int) && bars[i].low
                            == lo
                },
                None => forall|i: int|
                    s <= i < e ==> !opens_with(#[trigger] bars[i], om, w as int),
            }
            &&& match row.post {
                Some(k) => {
                    &&& s <= k < e
                    &&& !opens_with(bars[k as int], om, w as int)
                    &&& forall|i: int|
                        s <= i < k ==> opens_with(#[trigger] bars[i], om, w as int)
                },
                None => forall|i: int| s <= i < e ==> opens_with(#[trigger] bars[i], om, w as int),
            }
        }),
{
    let (s, e) = (day.sess_start as int, day.sess_end as int);
    the_opening_range_spans_its_bars(bars, s, e, inst.open_mins as int, w as int);
    trading_begins_after_the_opening_minutes(bars, s, e, inst.open_mins as int, w as int);
}

proof fn lemma_interval(s: Seq<DayMeta>, p: spec_fn(DayMeta) -> bool, lo: int, hi: int, n: int)
    requires
        0 <= lo,
        0 <= n <= s.len(),
        forall|d: int| 0 <= d < s.len() ==> (p(#[trigger] s[d]) <==> lo <= d < hi),
    ensures
        s.take(n).filter(p).len() == if n <= lo || hi <= lo {
            0
        } else if n <= hi {
            n - lo
        } else {
            hi - lo
        },
    decreases n,
{
    reveal(Seq::filter);
    if n > 0 {
        lemma_interval(s, p, lo, hi, n - 1);
        assert(s.take(n).drop_last() =~= s.take(n - 1));
        assert(s.take(n).last() == s[n - 1]);
    }
}

/// The days of a period are the days of data whose years it holds.
pub proof fn a_period_counts_the_days_of_its_years(m: Market, first: i32, last: i32)
    requires
        m.wf(),
        chronological(m.days@),
    ensures
        days_in(m, first as int, last as int) == m.days@.filter(
            |d: DayMeta| first <= d.year <= last,
        ).len(),
{
    let p = |d: DayMeta| first <= d.year <= last;
    let s = m.days@;
    let (lo, hi) = year_range_span(m.spans@, first as int, last as int);
    lemma_cover_bound(m, first as int, last as int);
    assert forall|d: int| 0 <= d < s.len() implies (p(#[trigger] s[d]) <==> lo <= d < hi) by {
        a_year_span_holds_exactly_its_years(m.spans@, s, first, last, d);
    }
    lemma_interval(s, p, lo as int, hi as int, s.len() as int);
    assert(s.take(s.len() as int) =~= s);
}

// ---------------------------------------------------------------------------
// Trades
// ---------------------------------------------------------------------------

/// Every trade of a cell is of a year that was asked for and of a regime, a Hurst
/// exponent and an entropy that the cell admits, in a direction of the cell; it
/// makes, after the market's cost, what its side makes on the cell's window, with
/// the cell's entry, bias and target.
pub proof fn a_cell_trades_by_its_own_settings(
    m: Market,
    c: Cell,
    first: i32,
    last: i32,
    k: int,
) -> (r: (int, Side))
    requires
        m.wf(),
        c.runs_on(m),
        0 <= k < cell_trades(m, c, first as int, last as int).len(),
    ensures
        ({
            let (wi, side) = r;
            let t = cell_trades(m, c, first as int, last as int)[k];
            let d = t.day_idx as int;
            let row = m.cache.rows@[wi]@[d];
            let (hi, lo) = row.range->0;
            &&& 0 <= wi < m.cache.windows@.len()
            &&& m.cache.windows@[wi] == c.window
            &&& 0 <= d < m.days@.len()
            &&& first <= m.days@[d].year <= last
            &&& eligible(m.regimes@[d], c.regime@)
            &&& c.hmin > 0 ==> m.hurst@[d] is Some && m.hurst@[d]->0 >= c.hmin * 10_000_000_000
            &&& c.emax > 0 ==> row.entropy is Some && row.entropy->0 <= c.emax * 10_000_000_000
            &&& row.range is Some
            &&& 4 * m.inst.tick_size <= hi - lo <= 200 * m.inst.tick_size
            &&& t.risk_1ct == hi - lo
            &&& side.is_long <==> t.dir == 0
            &&& side.is_long ==> c.dir@ == "long"@ || c.dir@ == "both"@
            &&& !side.is_long ==> c.dir@ == "short"@ || c.dir@ == "both"@
            &&& side.entry_mode == c.variant.0
            &&& c.variant.1 == BiasMode::NoBias ==> side.level == 100 * if side.is_long {
                hi
            } else {
                lo
            }
            &&& side.stop == if side.is_long {
                lo
            } else {
                hi
            }
            &&& side.reach == (match c.variant.2 {
                ExitMode::FixedRR => c.rr,
                ExitMode::LuxTargets => c.lux,
            }) * (hi - lo)
            &&& side_profit(
                m.bars@,
                row.post->0 as int,
                m.days@[d].sess_end as int,
                side,
                m.inst.point_value as int,
                m.cost_1ct as int,
            ) == Some(t.pnl_1ct as int)
        }),
{
    let wi = m.cache.index_of(c.window);
    assert(m.cache.windows@[wi] == c.window);
    let rows = m.cache.rows_of(wi);
    assert(m.cache.rows@[wi]@.len() == m.days@.len());
    let p = cell_params(m, c, first as int, last as int);
    let span = year_range_span(m.spans@, first as int, last as int);
    let to = if span.1 < m.days@.len() {
        span.1 as int
    } else {
        m.days@.len() as int
    };
    let side = every_trade_follows_the_rules(
        m.bars@,
        m.days@,
        m.inst,
        rows,
        p,
        m.regimes@,
        m.hurst@,
        span.0 as int,
        to,
        k,
    );
    (wi, side)
}

/// The losses among trades are the trades that lost, each by what it lost, in
/// order.
pub proof fn losses_are_what_the_losers_lost(trades: Seq<RawTrade>)
    ensures
        losses_of(trades) == trades.filter(|t: RawTrade| t.pnl_1ct < 0).map_values(
            |t: RawTrade| (-t.pnl_1ct) as i128,
        ),
    decreases trades.len(),
{
    reveal(Seq::filter);
    let p = |t: RawTrade| t.pnl_1ct < 0;
    let f = |t: RawTrade| (-t.pnl_1ct) as i128;
    if trades.len() == 0 {
        assert(trades.filter(p).map_values(f) =~= Seq::<i128>::empty());
    } else {
        let past = trades.drop_last();
        let t = trades.last();
        losses_are_what_the_losers_lost(past);
        if p(t) {
            assert(trades.filter(p) == past.filter(p).push(t));
            assert(trades.filter(p).map_values(f) =~= past.filter(p).map_values(f).push(f(t)));
        } else {
            assert(trades.filter(p) == past.filter(p));
        }
    }
}

/// A trade counts with the Hurst exponent of its own day.
pub proof fn a_trade_counts_with_its_own_day(
    trades: Seq<RawTrade>,
    hurst: Seq<Option<i64>>,
    i: int,
)
    requires
        0 <= i < trades.len(),
    ensures
        ({
            let h = hurst_sample(trades, hurst)[i];
            let own = hurst[trades[i].day_idx as int];
            &&& hurst_sample(trades, hurst).len() == trades.len()
            &&& h is Some <==> own is Some
            &&& h is Some ==> h->0 == own->0
        }),
{
}

// ---------------------------------------------------------------------------
// Daily rows
// ---------------------------------------------------------------------------

proof fn lemma_split_days(trades: Seq<RawTrade>, n: int)
    requires
        0 <= n < usize::MAX,
    ensures
        ({
            let upto = trades.filter(|t: RawTrade| t.day_idx < n + 1);
            let past = trades.filter(|t: RawTrade| t.day_idx < n);
            let day = of_day(trades, n as usize);
            &&& total(profits(upto)) == total(profits(past)) + total(profits(day))
            &&& upto.len() == past.len() + day.len()
        }),
    decreases trades.len(),
{
    reveal(Seq::filter);
    let a = |t: RawTrade| t.day_idx < n + 1;
    let b = |t: RawTrade| t.day_idx < n;
    let c = |t: RawTrade| t.day_idx == n as usize;
    if trades.len() > 0 {
        let past = trades.drop_last();
        let t = trades.last();
        lemma_split_days(past, n);
        lemma_profits_push(past.filter(a), t);
        lemma_profits_push(past.filter(b), t);
        lemma_profits_push(past.filter(c), t);
        assert(a(t) == (b(t) || c(t)));
        assert(!(b(t) && c(t)));
    }
}

proof fn lemma_profits_push(s: Seq<RawTrade>, t: RawTrade)
    ensures
        total(profits(s.push(t))) == total(profits(s)) + t.pnl_1ct,
{
    assert(profits(s.push(t)).drop_last() =~= profits(s));
}

/// The profits of a fold's test year on the given days.
spec fn day_profits(trades: Seq<RawTrade>, days: Seq<usize>) -> Seq<int> {
    days.map_values(|d: usize| total(profits(of_day(trades, d))))
}

spec fn day_counts(trades: Seq<RawTrade>, days: Seq<usize>) -> Seq<int> {
    days.map_values(|d: usize| of_day(trades, d).len() as int)
}

proof fn lemma_daily_total(trades: Seq<RawTrade>, n: int)
    requires
        0 <= n <= usize::MAX,
    ensures
        ({
            let days = days_with_trades(trades, n);
            let upto = trades.filter(|t: RawTrade| t.day_idx < n);
            &&& total(day_profits(trades, days)) == total(profits(upto))
            &&& total(day_counts(trades, days)) == upto.len()
        }),
    decreases n,
{
    let days = days_with_trades(trades, n);
    if n == 0 {
        lemma_nothing_before(trades);
        assert(day_profits(trades, days) =~= Seq::<int>::empty());
        assert(day_counts(trades, days) =~= Seq::<int>::empty());
    } else {
        lemma_daily_total(trades, n - 1);
        lemma_split_days(trades, n - 1);
        let past = days_with_trades(trades, n - 1);
        let day = of_day(trades, (n - 1) as usize);
        assert((|t: RawTrade| t.day_idx < n) =~= (|t: RawTrade| t.day_idx < (n - 1) + 1));
        if day.len() > 0 {
            assert(day_profits(trades, days).drop_last() =~= day_profits(trades, past));
            assert(day_counts(trades, days).drop_last() =~= day_counts(trades, past));
        } else {
            assert(profits(day) =~= Seq::<int>::empty());
        }
    }
}

proof fn lemma_nothing_before(trades: Seq<RawTrade>)
    ensures
        trades.filter(|t: RawTrade| t.day_idx < 0).len() == 0,
        profits(trades.filter(|t: RawTrade| t.day_idx < 0)) == Seq::<int>::empty(),
    decreases trades.len(),
{
    reveal(Seq::filter);
    if trades.len() > 0 {
        lemma_nothing_before(trades.drop_last());
    }
    assert(profits(trades.filter(|t: RawTrade| t.day_idx < 0)) =~= Seq::<int>::empty());
}

proof fn lemma_all_before(trades: Seq<RawTrade>, n: int)
    requires
        forall|i: int| 0 <= i < trades.len() ==> (#[trigger] trades[i]).day_idx < n,
    ensures
        trades.filter(|t: RawTrade| t.day_idx < n) == trades,
    decreases trades.len(),
{
    reveal(Seq::filter);
    let p = |t: RawTrade| t.day_idx < n;
    if trades.len() > 0 {
        lemma_all_before(trades.drop_last(), n);
        assert(trades[trades.len() - 1].day_idx < n);
        assert(trades.filter(p) =~= trades);
    } else {
        assert(trades.filter(p) =~= trades);
    }
}

/// The daily rows of a fold leave nothing out: together they make what the test
/// year made, on as many trades.
pub proof fn daily_rows_add_up_to_the_test_year(
    rows: Seq<DailyPnlRow>,
    m: Market,
    c: Cell,
    fold: Fold,
)
    requires
        are_daily_rows(rows, m, c, fold),
        m.days@.len() <= usize::MAX,
        forall|i: int|
            0 <= i < fold.test@.len() ==> (#[trigger] fold.test@[i]).day_idx < m.days@.len(),
    ensures
        total(rows.map_values(|r: DailyPnlRow| r.daily_pnl_1ct as int)) == total(
            fold.test@.map_values(|t: RawTrade| t.pnl_1ct as int),
        ),
        total(rows.map_values(|r: DailyPnlRow| r.n_trades_day as int)) == fold.test@.len(),
        forall|i: int|
            0 <= i < rows.len() ==> (#[trigger] rows[i]).n_trades_day > 0 && rows[i].test_year
                == fold.test_year && rows[i].cell == c && rows[i].instrument@ == m.sym@,
{
    let n = m.days@.len() as int;
    let days = days_with_trades(fold.test@, n);
    lemma_daily_total(fold.test@, n);
    lemma_all_before(fold.test@, n);
    lemma_days_traded(fold.test@, n);
    assert forall|i: int| 0 <= i < rows.len() implies (#[trigger] rows[i]).is_of(
        m,
        c,
        fold,
        days[i],
    ) && rows[i].n_trades_day > 0 by {
        assert(of_day(fold.test@, days[i]).len() > 0);
    }
    assert(rows.map_values(|r: DailyPnlRow| r.daily_pnl_1ct as int) =~= day_profits(
        fold.test@,
        days,
    ));
    assert(rows.map_values(|r: DailyPnlRow| r.n_trades_day as int) =~= day_counts(
        fold.test@,
        days,
    ));
    assert(profits(fold.test@) =~= fold.test@.map_values(|t: RawTrade| t.pnl_1ct as int));
}

proof fn lemma_days_traded(trades: Seq<RawTrade>, n: int)
    requires
        0 <= n <= usize::MAX,
    ensures
        ({
            let days = days_with_trades(trades, n);
            &&& forall|i: int|
                0 <= i < days.len() ==> (#[trigger] days[i]) < n && of_day(trades, days[i]).len()
                    > 0
            &&& forall|i: int, j: int| 0 <= i < j < days.len() ==> days[i] < days[j]
        }),
    decreases n,
{
    if n > 0 {
        lemma_days_traded(trades, n - 1);
        let days = days_with_trades(trades, n);
        let past = days_with_trades(trades, n - 1);
        assert forall|i: int| 0 <= i < days.len() implies (#[trigger] days[i]) < n && of_day(
            trades,
            days[i],
        ).len() > 0 by {
            if i < past.len() {
                assert(days[i] == past[i]);
            }
        }
        assert forall|i: int, j: int| 0 <= i < j < days.len() implies days[i] < days[j] by {
            assert(days[i] == past[i] && past[i] < n - 1);
            if j < past.len() {
                assert(days[j] == past[j]);
            }
        }
    }
}

/// The daily rows of a fold are dated by its days with trades, each once, in
/// order.
pub proof fn every_daily_row_has_its_own_day(
    rows: Seq<DailyPnlRow>,
    m: Market,
    c: Cell,
    fold: Fold,
) -> (days: Seq<int>)
    requires
        are_daily_rows(rows, m, c, fold),
        m.days@.len() <= usize::MAX,
    ensures
        days.len() == rows.len(),
        forall|i: int, j: int| 0 <= i < j < days.len() ==> days[i] < days[j],
        forall|i: int|
            0 <= i < rows.len() ==> {
                let day = #[trigger] days[i];
                let own = fold.test@.filter(|t: RawTrade| t.day_idx == day as usize);
                &&& 0 <= day < m.days@.len()
                &&& rows[i].date_code == m.days@[day].date_code
                &&& rows[i].n_trades_day == own.len()
                &&& rows[i].daily_pnl_1ct == total(own.map_values(|t: RawTrade| t.pnl_1ct as int))
            },
{
    let n = m.days@.len() as int;
    let at = days_with_trades(fold.test@, n);
    lemma_days_traded(fold.test@, n);
    let days = at.map_values(|d: usize| d as int);
    assert forall|i: int| 0 <= i < rows.len() implies {
        let day = #[trigger] days[i];
        let own = fold.test@.filter(|t: RawTrade| t.day_idx == day as usize);
        &&& 0 <= day < m.days@.len()
        &&& rows[i].date_code == m.days@[day].date_code
        &&& rows[i].n_trades_day == own.len()
        &&& rows[i].daily_pnl_1ct == total(own.map_values(|t: RawTrade| t.pnl_1ct as int))
    } by {
        assert(rows[i].is_of(m, c, fold, at[i]));
        let own = of_day(fold.test@, at[i]);
        assert(profits(own) =~= own.map_values(|t: RawTrade| t.pnl_1ct as int));
    }
    days
}

// ---------------------------------------------------------------------------
// Records
// ---------------------------------------------------------------------------

/// The first test year is the one whose training period begins with the data.
pub proof fn the_first_test_year_has_a_full_training_period(cfg: RunConfig, min_year: int)
    ensures
        outer_years(cfg, first_test_year(cfg, min_year)).0 == min_year,
{
}

/// A fold reports what its test year made, over the days of that year, and takes
/// win rates and tail from its training period.
pub proof fn a_fold_reports_its_test_year(
    f: Fold,
    m: Market,
    c: Cell,
    cfg: RunConfig,
    test_year: int,
)
    requires
        f.is_of(m, c, cfg, test_year),
    ensures
        ({
            let tested = cell_trades(m, c, test_year, test_year);
            let (first, last) = (test_year - cfg.outer_train_years, test_year - 1);
            let trained = cell_trades(m, c, first, last);
            &&& f.test_year == test_year
            &&& f.test_days == days_in(m, test_year, test_year)
            &&& f.realized.total_pnl_1ct == total(
                tested.map_values(|t: RawTrade| t.pnl_1ct as int),
            )
            &&& f.realized.n_trades == tested.len()
            &&& f.realized.period_days == f.test_days
            &&& f.train@ == trained
            &&& is_win_rate(f.long_wr, trained, 0)
            &&& is_win_rate(f.short_wr, trained, 1)
            &&& f.tail.is_tail_of(losses_of(trained))
        }),
{
    let tested = cell_trades(m, c, test_year, test_year);
    assert(profits(tested) =~= tested.map_values(|t: RawTrade| t.pnl_1ct as int));
}

/// What a fold's simulations are run under: the fold's own win rates, the market's
/// point value, the tail limit and the geometry and length of the phase.
pub open spec fn runs_under(
    k: Conditions,
    m: Market,
    cfg: RunConfig,
    fold: Fold,
    kill: Option<i64>,
    rg: usize,
    days: int,
) -> bool {
    &&& k.rg == rg
    &&& k.pv == m.inst.point_value
    &&& k.long_wr == fold.long_wr
    &&& k.short_wr == fold.short_wr
    &&& k.evt_kill == kill
    &&& k.dll_is_breach == cfg.mc.dll_is_breach
    &&& k.max_days == days
}

/// Whether a pass rate is above so many millionths.
pub open spec fn passes_more_often(r: Ratio, least: int) -> bool {
    r.num * 1_000_000 > least * r.den
}

/// A record holds the evaluation and the funded phase simulated on the training
/// days, each with its own geometry, and what the account product is worth on
/// their pass rate, mean extraction and months held. The funded phase is simulated
/// where some evaluation passes more often than the least that counts.
pub proof fn a_record_holds_both_phases(
    r: FoldRecord,
    m: Market,
    c: Cell,
    cfg: RunConfig,
    fold: Fold,
    kill: Option<i64>,
    ax: Account,
    rg_evals: Seq<usize>,
    rg_eval: usize,
    rg_funded: usize,
) -> (s: (Conditions, u64, Conditions, u64))
    requires
        r.is_of(m, c, cfg, fold, kill, ax, rg_evals, rg_eval, rg_funded),
        0 <= cfg.mc.funded_max_days <= i32::MAX,
        0 <= cfg.mc_for(ax.sessions_allowed()).eval_max_days <= i32::MAX,
    ensures
        runs_under(
            s.0,
            m,
            cfg,
            fold,
            kill,
            r.rg_eval,
            cfg.mc_for(ax.sessions_allowed()).eval_max_days as int,
        ),
        runs_under(s.2, m, cfg, fold, kill, r.rg_funded, cfg.mc.funded_max_days as int),
        r.rg_eval == rg_eval,
        r.rg_funded == rg_funded,
        r.challenge == challenge_of(
            fold.train_by_day@,
            ax,
            s.0,
            cfg.mc.block_days as int,
            s.1,
            cfg.mc.n_challenge_sims as int,
        ),
        cfg.mc_funded_min_pr < 0 || (exists|i: int|
            0 <= i < rg_evals.len() && passes_more_often(
                fold_challenge(m, c, cfg, fold, kill, ax, #[trigger] rg_evals[i]).pass_rate,
                cfg.mc_funded_min_pr as int,
            )) ==> r.funded == funded_of(
            fold.train_by_day@,
            ax,
            s.2,
            cfg.mc.block_days as int,
            s.3,
            cfg.mc.n_funded_sims as int,
        ),
        r.ev == breakdown(
            ax,
            r.challenge.pass_rate,
            r.funded.mean_ext,
            r.funded.p_ext_zero,
            months_of(r.funded),
            cfg.ev,
        ),
        r.test_year == fold.test_year,
        r.total_period_days == fold.test_days,
        r.realized == fold.realized,
        r.inner_train_ev == fold.inner_train_ev,
        r.inner_val_ev == fold.inner_val_ev,
        r.shrinkage_ratio == fold.shrinkage_ratio,
        r.cell == c,
        r.account@ == ax.key@,
        r.instrument@ == m.sym@,
{
    let eval_days = cfg.mc_for(ax.sessions_allowed()).eval_max_days as int;
    (
        phase_conditions(m, fold, cfg, kill, rg_eval, eval_days),
        fold_seed(
            m,
            c,
            cfg,
            ax,
            fold.test_year as int,
            rg_eval,
            EVAL_PHASE,
        ),
        phase_conditions(
            m,
            fold,
            cfg,
            kill,
            rg_funded,
            cfg.mc.funded_max_days as int,
        ),
        fold_seed(
            m,
            c,
            cfg,
            ax,
            fold.test_year as int,
            rg_funded,
            FUNDED_PHASE,
        ),
    )
}

proof fn lemma_pairs_with(
    evals: Seq<usize>,
    fundeds: Seq<usize>,
    split: bool,
    e: int,
    n: int,
    p: (int, int),
)
    ensures
        pairs_with(evals, fundeds, split, e, n).contains(p) <==> {
            &&& p.0 == e
            &&& 0 <= p.1 < n
            &&& split || evals[e] == fundeds[p.1]
        },
    decreases n,
{
    let s = pairs_with(evals, fundeds, split, e, n);
    if n > 0 {
        lemma_pairs_with(evals, fundeds, split, e, n - 1, p);
        let t = pairs_with(evals, fundeds, split, e, n - 1);
        if t.contains(p) {
            assert(s[t.index_of(p)] == p);
        }
        if s.contains(p) {
            let i = s.index_of(p);
            if i < t.len() {
                assert(t[i] == p);
            }
        }
        if p == (e, n - 1) && (split || evals[e] == fundeds[n - 1]) {
            assert(s[s.len() - 1] == p);
        }
    }
}

/// The phases pair every evaluation geometry with every funded one, or with the
/// same one alone where they are not swept independently.
pub proof fn geometries_pair_as_asked_for(
    evals: Seq<usize>,
    fundeds: Seq<usize>,
    split: bool,
    n: int,
    p: (int, int),
)
    requires
        n <= evals.len(),
    ensures
        geometry_pairs(evals, fundeds, split, n).contains(p) <==> {
            &&& 0 <= p.0 < n
            &&& 0 <= p.1 < fundeds.len()
            &&& split || evals[p.0] == fundeds[p.1]
        },
    decreases n,
{
    let s = geometry_pairs(evals, fundeds, split, n);
    if n > 0 {
        geometries_pair_as_asked_for(evals, fundeds, split, n - 1, p);
        let nf = fundeds.len() as int;
        lemma_pairs_with(evals, fundeds, split, n - 1, nf, p);
        let t = geometry_pairs(evals, fundeds, split, n - 1);
        let u = pairs_with(evals, fundeds, split, n - 1, nf);
        if t.contains(p) {
            assert(s[t.index_of(p)] == p);
        }
        if u.contains(p) {
            assert(s[t.len() + u.index_of(p)] == p);
        }
        if s.contains(p) {
            let i = s.index_of(p);
            if i < t.len() {
                assert(t[i] == p);
            } else {
                assert(u[i - t.len()] == p);
            }
        }
    }
}

/// There is a record for every pair of geometries that was asked for.
pub proof fn every_pair_of_geometries_has_a_record(
    records: Seq<FoldRecord>,
    m: Market,
    c: Cell,
    cfg: RunConfig,
    fold: Fold,
    kill: Option<i64>,
    ax: Account,
    evals: Seq<usize>,
    fundeds: Seq<usize>,
    e: int,
    f: int,
) -> (i: int)
    requires
        are_account_records(records, m, c, cfg, fold, kill, ax, evals, fundeds),
        0 <= e < evals.len(),
        0 <= f < fundeds.len(),
        cfg.split_risk_geo || evals[e] == fundeds[f],
    ensures
        0 <= i < records.len(),
        records[i].rg_eval == evals[e],
        records[i].rg_funded == fundeds[f],
{
    let n = evals.len() as int;
    let pairs = geometry_pairs(evals, fundeds, cfg.split_risk_geo, n);
    geometries_pair_as_asked_for(evals, fundeds, cfg.split_risk_geo, n, (e, f));
    let i = pairs.index_of((e, f));
    assert(pairs[i] == (e, f));
    assert(records[i].is_of(m, c, cfg, fold, kill, ax, evals, evals[e], fundeds[f]));
    i
}

// ---------------------------------------------------------------------------
// Collections
// ---------------------------------------------------------------------------

/// What is joined is what the parts hold, part by part: nothing of nothing, and
/// more parts add their own after it.
pub proof fn joining_keeps_every_part<T>(a: Seq<Vec<T>>, b: Seq<Vec<T>>, v: Vec<T>)
    ensures
        joined(Seq::<Vec<T>>::empty()) == Seq::<T>::empty(),
        joined(seq![v]) == v@,
        joined(a + b) == joined(a) + joined(b),
    decreases b.len(),
{
    reveal_with_fuel(joined, 2);
    assert(seq![v].drop_last() =~= Seq::<Vec<T>>::empty());
    assert(joined(seq![v]) =~= v@);
    if b.len() == 0 {
        assert(a + b =~= a);
        assert(joined(a) + joined(b) =~= joined(a));
    } else {
        joining_keeps_every_part(a, b.drop_last(), v);
        assert((a + b).drop_last() =~= a + b.drop_last());
        assert(joined(a + b) =~= joined(a) + joined(b));
    }
}

/// The records and daily rows of outcomes are those of each, one after the other.
pub proof fn every_outcome_is_collected(a: Seq<FoldOutcome>, b: Seq<FoldOutcome>, o: FoldOutcome)
    ensures
        records_of(Seq::<FoldOutcome>::empty()) == Seq::<FoldRecord>::empty(),
        rows_of(Seq::<FoldOutcome>::empty()) == Seq::<DailyPnlRow>::empty(),
        records_of(seq![o]) == joined(o.records@),
        rows_of(seq![o]) == o.daily@,
        records_of(a + b) == records_of(a) + records_of(b),
        rows_of(a + b) == rows_of(a) + rows_of(b),
    decreases b.len(),
{
    reveal_with_fuel(records_of, 2);
    reveal_with_fuel(rows_of, 2);
    assert(seq![o].drop_last() =~= Seq::<FoldOutcome>::empty());
    assert(records_of(seq![o]) =~= joined(o.records@));
    assert(rows_of(seq![o]) =~= o.daily@);
    if b.len() == 0 {
        assert(a + b =~= a);
        assert(records_of(a) + records_of(b) =~= records_of(a));
        assert(rows_of(a) + rows_of(b) =~= rows_of(a));
    } else {
        every_outcome_is_collected(a, b.drop_last(), o);
        assert((a + b).drop_last() =~= a + b.drop_last());
        assert(records_of(a + b) =~= records_of(a) + records_of(b));
        assert(rows_of(a + b) =~= rows_of(a) + rows_of(b));
    }
}

// ---------------------------------------------------------------------------
// Settings
// ---------------------------------------------------------------------------

/// A run can start exactly where simulations have blocks, days and paths, the
/// inner training is shorter than the outer, the haircut is a fraction of one, and
/// every setting is within its limit.
pub proof fn a_run_starts_on_sound_settings(cfg: RunConfig)
    ensures
        cfg.fault() is None <==> {
            &&& cfg.mc.block_days > 0
            &&& cfg.mc.eval_max_days > 0 || cfg.eval_untimed_cap > 0
            &&& cfg.mc.funded_max_days > 0
            &&& cfg.mc.n_challenge_sims > 0
            &&& cfg.inner_train_years < cfg.outer_train_years
            &&& 0 <= cfg.ev.payout_haircut <= 1_000_000
            &&& cfg.within_limits()
        },
{
}

} // verus!
