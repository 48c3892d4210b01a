//! What a fold of the walk-forward says of its periods.

use vstd::prelude::*;

use crate::backtest::year_range_span;
use crate::engine::Cell;
use crate::mc::FundedDist;
use crate::num::{total, Ratio};
use crate::stat_laws::a_count_is_what_a_filter_keeps;
use crate::stats::profits;
use crate::types::{Account, RawTrade};
use crate::walk::{
    cell_params, cell_trades, days_in, fold_challenge, fold_funded, fold_kept, in_direction,
    inner_years, is_win_rate, kill_level, lemma_cover_bound, lemma_span_members, months_of,
    outer_years, validation_years, wins_in_direction, Fold, Market, RunConfig,
};

verus! {

// ---------------------------------------------------------------------------
// Periods
// ---------------------------------------------------------------------------

/// The training period is as many years as were asked for, up to the year before
/// the test year; the inner training takes its first years, as many as were asked
/// for, and the inner validation the rest.
pub proof fn periods_are_as_long_as_asked_for(cfg: RunConfig, test_year: int)
    ensures
        ({
            let (o0, o1) = outer_years(cfg, test_year);
            let (i0, i1) = inner_years(cfg, test_year);
            let (v0, v1) = validation_years(cfg, test_year);
            &&& o1 == test_year - 1
            &&& o1 - o0 + 1 == cfg.outer_train_years
            &&& i0 == o0
            &&& i1 - i0 + 1 == cfg.inner_train_years
            &&& v0 == i1 + 1
            &&& v1 == o1
        }),
{
}

proof fn lemma_profit_bound(trades: Seq<RawTrade>)
    ensures
        -0x8000_0000_0000_0000 * trades.len() <= total(profits(trades)) <= 0x8000_0000_0000_0000
            * trades.len(),
    decreases trades.len(),
{
    let s = profits(trades);
    if trades.len() > 0 {
        lemma_profit_bound(trades.drop_last());
        assert(s.drop_last() =~= profits(trades.drop_last()));
    }
}

proof fn lemma_period(m: Market, c: Cell, first: int, last: int)
    requires
        m.wf(),
    ensures
        ({
            let profit = total(profits(cell_trades(m, c, first, last)));
            let days = days_in(m, first, last);
            &&& 0 <= days <= 20_000_000
            &&& -400_000_000_000_000_000_000_000_000 <= profit <= 400_000_000_000_000_000_000_000_000
        }),
{
    let span = year_range_span(m.spans@, first, last);
    lemma_cover_bound(m, first, last);
    let to = if span.1 < m.days@.len() {
        span.1 as int
    } else {
        m.days@.len() as int
    };
    lemma_span_members(
        m.bars@,
        m.days@,
        m.inst,
        m.cache.rows_of(m.cache.index_of(c.window)),
        cell_params(m, c, first, last),
        m.regimes@,
        m.hurst@,
        span.0 as int,
        to,
    );
    lemma_profit_bound(cell_trades(m, c, first, last));
}

proof fn lemma_product_bounds(x: int, d: int)
    requires
        -400_000_000_000_000_000_000_000_000 <= x <= 400_000_000_000_000_000_000_000_000,
        1 <= d <= 20_000_000,
    ensures
        -8_000_000_000_000_000_000_000_000_000_000_000 <= x * d
            <= 8_000_000_000_000_000_000_000_000_000_000_000,
        x > 0 ==> x * d > 0,
{
    assert(-8_000_000_000_000_000_000_000_000_000_000_000 <= x * d
        <= 8_000_000_000_000_000_000_000_000_000_000_000) by (nonlinear_arith)
        requires
            -400_000_000_000_000_000_000_000_000 <= x <= 400_000_000_000_000_000_000_000_000,
            1 <= d <= 20_000_000,
    ;
    if x > 0 {
        assert(x * d > 0) by (nonlinear_arith)
            requires
                x > 0,
                d >= 1,
        ;
    }
}

/// The expectancies of a fold are what its inner periods made, per 21 of their own
/// days, of which there is taken to be one at the least.
pub proof fn expectancies_are_per_month_of_their_own_days(
    f: Fold,
    m: Market,
    c: Cell,
    cfg: RunConfig,
    test_year: int,
)
    requires
        m.wf(),
        f.is_of(m, c, cfg, test_year),
    ensures
        ({
            let (i0, i1) = inner_years(cfg, test_year);
            let (v0, v1) = validation_years(cfg, test_year);
            let (t, v) = (f.inner_train_ev, f.inner_val_ev);
            &&& t.den > 0
            &&& v.den > 0
            &&& days_in(m, i0, i1) > 0 ==> t.num * days_in(m, i0, i1) == 21 * total(
                profits(cell_trades(m, c, i0, i1)),
            ) * t.den
            &&& days_in(m, v0, v1) > 0 ==> v.num * days_in(m, v0, v1) == 21 * total(
                profits(cell_trades(m, c, v0, v1)),
            ) * v.den
            &&& days_in(m, i0, i1) == 0 ==> t.den == 1
            &&& days_in(m, v0, v1) == 0 ==> v.den == 1
        }),
{
}

/// The shrinkage ratio of a fold is its validation expectancy over its training
/// expectancy, whatever the lengths of the two periods; there is one exactly where
/// the training made a profit.
pub proof fn the_shrinkage_ratio_is_one_expectancy_over_the_other(
    f: Fold,
    m: Market,
    c: Cell,
    cfg: RunConfig,
    test_year: int,
)
    requires
        m.wf(),
        f.is_of(m, c, cfg, test_year),
    ensures
        ({
            let (t, v) = (f.inner_train_ev, f.inner_val_ev);
            &&& f.shrinkage_ratio is Some <==> t.num > 0
            &&& f.shrinkage_ratio matches Some(r) ==> {
                &&& r.den > 0
                &&& r.num * t.num * v.den == v.num * r.den * t.den
                &&& v.num * t.den == t.num * v.den ==> r.num == r.den
            }
        }),
{
    let (i0, i1) = inner_years(cfg, test_year);
    let (v0, v1) = validation_years(cfg, test_year);
    lemma_period(m, c, i0, i1);
    lemma_period(m, c, v0, v1);
    let tt = total(profits(cell_trades(m, c, i0, i1)));
    let vt = total(profits(cell_trades(m, c, v0, v1)));
    let (t, v) = (f.inner_train_ev, f.inner_val_ev);
    let (td, vd) = (t.den as int, v.den as int);
    if tt > 0 {
        lemma_product_bounds(vt, td);
        lemma_product_bounds(tt, vd);
        let r = f.shrinkage_ratio->0;
        assert(r.num == vt * td && r.den == tt * vd);
        assert((vt * td) * (21 * tt) * vd == (21 * vt) * (tt * vd) * td) by (nonlinear_arith);
        if v.num * t.den == t.num * v.den {
            assert((21 * vt) * td == (21 * tt) * vd);
            assert(vt * td == tt * vd) by (nonlinear_arith)
                requires
                    (21 * vt) * td == (21 * tt) * vd,
            ;
        }
    }
}

/// A test year is kept exactly where it has at least 20 days and a trade, its
/// training at least 50 trades, the inner training 30 and the inner validation
/// one, and the edge held up: the validation expectancy is at least the cutoff's
/// share of a positive training expectancy, or the filter is off.
pub proof fn a_kept_fold_holds_its_edge(
    f: Fold,
    m: Market,
    c: Cell,
    cfg: RunConfig,
    test_year: int,
)
    requires
        m.wf(),
        f.is_of(m, c, cfg, test_year),
    ensures
        ({
            let (o0, o1) = outer_years(cfg, test_year);
            let (i0, i1) = inner_years(cfg, test_year);
            let (v0, v1) = validation_years(cfg, test_year);
            let (t, v) = (f.inner_train_ev, f.inner_val_ev);
            fold_kept(m, c, cfg, test_year) <==> {
                &&& f.test_days >= 20
                &&& f.test@.len() >= 1
                &&& f.train@.len() >= 50
                &&& cell_trades(m, c, i0, i1).len() >= 30
                &&& cell_trades(m, c, v0, v1).len() >= 1
                &&& cfg.shrinkage_cutoff <= -90_000_000 || t.num > 0 && v.num * t.den * 1_000_000
                    >= cfg.shrinkage_cutoff * (t.num * v.den)
            }
        }),
{
    let (i0, i1) = inner_years(cfg, test_year);
    let (v0, v1) = validation_years(cfg, test_year);
    lemma_period(m, c, i0, i1);
    lemma_period(m, c, v0, v1);
    let tt = total(profits(cell_trades(m, c, i0, i1)));
    let vt = total(profits(cell_trades(m, c, v0, v1)));
    let (t, v) = (f.inner_train_ev, f.inner_val_ev);
    let (td, vd) = (t.den as int, v.den as int);
    if tt > 0 {
        lemma_product_bounds(vt, td);
        lemma_product_bounds(tt, vd);
        let (a, b, k) = (vt * td, tt * vd, cfg.shrinkage_cutoff as int);
        assert((21 * vt) * td == 21 * a && (21 * tt) * vd == 21 * b) by (nonlinear_arith)
            requires
                a == vt * td,
                b == tt * vd,
        ;
        assert(k * (21 * b) == 21 * (k * b)) by (nonlinear_arith);
    }
}

// ---------------------------------------------------------------------------
// What the simulators are given
// ---------------------------------------------------------------------------

/// A win rate is the share of the trades of its direction that made a profit, and
/// one half where there are none.
pub proof fn a_win_rate_is_a_share_of_its_direction(r: Ratio, trades: Seq<RawTrade>, dir: u8)
    requires
        is_win_rate(r, trades, dir),
    ensures
        ({
            let mine = trades.filter(|t: RawTrade| t.dir == dir);
            let won = trades.filter(|t: RawTrade| t.dir == dir && t.pnl_1ct > 0);
            if mine.len() == 0 {
                2 * r.num == r.den && r.den > 0
            } else {
                r.num == won.len() && r.den == mine.len()
            }
        }),
{
    a_count_is_what_a_filter_keeps(trades, in_direction(dir));
    a_count_is_what_a_filter_keeps(trades, wins_in_direction(dir));
    assert(in_direction(dir) =~= (|t: RawTrade| t.dir == dir));
    assert(wins_in_direction(dir) =~= (|t: RawTrade| t.dir == dir && t.pnl_1ct > 0));
}

/// The months of platform fees are the mean days held over 21, and one at the
/// least.
pub proof fn months_are_days_held_over_a_month(f: FundedDist)
    requires
        0 < f.mean_days_held.den <= 0x7fff_ffff,
        0 <= f.mean_days_held.num,
    ensures
        months_of(f).den > 0,
        ({
            let (m, d) = (months_of(f), f.mean_days_held);
            if d.num >= 21 * d.den {
                m.num * (21 * d.den) == d.num * m.den
            } else {
                m.num == m.den
            }
        }),
{
}

/// Without an evaluation pass rate above the least that counts, the funded phase is
/// left out and extracts nothing.
pub proof fn the_funded_phase_waits_for_a_pass(
    m: Market,
    c: Cell,
    cfg: RunConfig,
    fold: Fold,
    kill: Option<i64>,
    ax: Account,
    rg_evals: Seq<usize>,
    rg: usize,
)
    requires
        cfg.mc_funded_min_pr >= 0,
        forall|i: int|
            0 <= i < rg_evals.len() ==> {
                let r = fold_challenge(m, c, cfg, fold, kill, ax, #[trigger] rg_evals[i]).pass_rate;
                r.num * 1_000_000 <= cfg.mc_funded_min_pr * r.den
            },
    ensures
        fold_funded(m, c, cfg, fold, kill, ax, rg_evals, rg).mean_ext == 0,
        fold_funded(m, c, cfg, fold, kill, ax, rg_evals, rg).mean_days_held.num == 0,
{
}

/// An evaluation runs for the length set for all, else for the product's own
/// window, and for the cap where the product has none; nothing else of the
/// simulators' settings depends on the product.
pub proof fn an_evaluation_runs_for_its_window(cfg: RunConfig, ax: Account)
    requires
        0 <= ax.eval_calendar_days <= 1_000_000,
    ensures
        ({
            let n = cfg.mc_for(ax.sessions_allowed());
            &&& cfg.mc.eval_max_days > 0 ==> n.eval_max_days == cfg.mc.eval_max_days
            &&& cfg.mc.eval_max_days == 0 && ax.eval_calendar_days == 0 ==> n.eval_max_days
                == cfg.eval_untimed_cap
            // 21 sessions to 30.44 days, to the nearest.
            &&& cfg.mc.eval_max_days == 0 && ax.eval_calendar_days > 0 ==> -3044 <= 2 * (
            n.eval_max_days * 3044 - 2100 * ax.eval_calendar_days) <= 3044
            &&& n.n_challenge_sims == cfg.mc.n_challenge_sims
            &&& n.n_funded_sims == cfg.mc.n_funded_sims
            &&& n.funded_max_days == cfg.mc.funded_max_days
            &&& n.block_days == cfg.mc.block_days
            &&& n.dll_is_breach == cfg.mc.dll_is_breach
        }),
{
    if ax.eval_calendar_days > 0 {
        let x = 4200 * ax.eval_calendar_days + 3044;
        let q = x / 6088;
        assert(6088 * q <= x < 6088 * q + 6088);
        assert(0 <= q <= 700_000);
        assert(ax.sessions_allowed() == Some(q));
    }
}

/// A tail limit is kept as it is, as far as losses can reach.
pub proof fn a_tail_limit_is_kept(limit: Option<i128>)
    requires
        limit matches Some(x) ==> 0 <= x,
    ensures
        limit is None <==> kill_level(limit) is None,
        limit matches Some(x) ==> ({
            let k = kill_level(limit)->0;
            forall|loss: int|
                0 <= loss <= 100_000_000_000_000_000 ==> (#[trigger] exceeds(loss, k as int)
                    <==> exceeds(loss, x as int))
        }),
{
}

/// Whether a loss is beyond a limit.
pub open spec fn exceeds(loss: int, limit: int) -> bool {
    loss > limit
}

} // verus!
