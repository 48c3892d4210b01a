//! What holds of the records of a cell, and of two evaluations of one cell.

use vstd::prelude::*;

use crate::backtest::{grouped_by_day, holds_day, of_day};
use crate::draws::{repeated, seeded_draw};
use crate::engine::Cell;
use crate::features::TailFit;
use crate::mc::{
    after_payout, challenge_of, challenge_outcomes, challenge_path, eval_day, eval_run,
    funded_close, funded_day, funded_of, funded_outcomes, funded_path, funded_run, newly_funded,
    path_days, path_seed, Conditions, FundedState, CHALLENGE_TAG, FUNDED_TAG,
};
use crate::order::lemma_ascending_unique;
use crate::types::{Account, RawTrade};
use crate::walk::{
    are_account_records, are_daily_rows, fold_challenge, fold_funded, fold_kept, fold_seed,
    geometry_pairs, is_evaluation, limit_was_fitted, pairs_with, phase_conditions, worth_funding,
    DailyPnlRow, Fold, FoldOutcome, FoldRecord, Market, RunConfig, EVAL_PHASE, FUNDED_PHASE,
};

verus! {

// ---------------------------------------------------------------------------
// Pairs of geometries
// ---------------------------------------------------------------------------

/// The evaluation of a record depends on its evaluation geometry alone, and the
/// funded phase on its funded geometry alone: each is simulated once, and the
/// pairs are formed from the results.
pub proof fn each_phase_depends_on_its_own_geometry(
    records: Seq<FoldRecord>,
    m: Market,
    c: Cell,
    cfg: RunConfig,
    fold: Fold,
    kill: Option<i64>,
    ax: Account,
    rg_evals: Seq<usize>,
    rg_fundeds: Seq<usize>,
    i: int,
    j: int,
)
    requires
        are_account_records(records, m, c, cfg, fold, kill, ax, rg_evals, rg_fundeds),
        0 <= i < records.len(),
        0 <= j < records.len(),
    ensures
        records[i].rg_eval == records[j].rg_eval ==> records[i].challenge == records[j].challenge,
        records[i].rg_funded == records[j].rg_funded ==> records[i].funded == records[j].funded,
{
}

proof fn lemma_pairs_with_all(rg_evals: Seq<usize>, rg_fundeds: Seq<usize>, e: int, n: int)
    requires
        0 <= n,
    ensures
        pairs_with(rg_evals, rg_fundeds, true, e, n).len() == n,
        forall|f: int|
            0 <= f < n ==> #[trigger] pairs_with(rg_evals, rg_fundeds, true, e, n)[f] == (e, f),
    decreases n,
{
    if n > 0 {
        lemma_pairs_with_all(rg_evals, rg_fundeds, e, n - 1);
    }
}

proof fn lemma_pairs_all(rg_evals: Seq<usize>, rg_fundeds: Seq<usize>, n: int, e: int, f: int)
    requires
        0 <= n,
    ensures
        geometry_pairs(rg_evals, rg_fundeds, true, n).len() == n * rg_fundeds.len(),
        0 <= e < n && 0 <= f < rg_fundeds.len() ==> 0 <= e * rg_fundeds.len() + f < n
            * rg_fundeds.len() && geometry_pairs(rg_evals, rg_fundeds, true, n)[e
            * rg_fundeds.len() + f] == (e, f),
    decreases n,
{
    let w = rg_fundeds.len() as int;
    if n > 0 {
        lemma_pairs_all(rg_evals, rg_fundeds, n - 1, e, f);
        lemma_pairs_with_all(rg_evals, rg_fundeds, n - 1, w);
        assert(n * w == (n - 1) * w + w) by (nonlinear_arith);
        if 0 <= e < n && 0 <= f < w {
            assert(0 <= e * w && (e < n - 1 ==> e * w + w <= (n - 1) * w)) by (nonlinear_arith)
                requires
                    0 <= e,
                    0 <= w,
            ;
            if e == n - 1 {
                assert(pairs_with(rg_evals, rg_fundeds, true, n - 1, w)[f] == (n - 1, f));
            }
        }
    } else {
        assert(0 * w == 0);
    }
}

/// Where the geometries of the two phases are swept independently, there is one
/// record for every pair of them.
pub proof fn split_phases_pair_every_geometry(
    records: Seq<FoldRecord>,
    m: Market,
    c: Cell,
    cfg: RunConfig,
    fold: Fold,
    kill: Option<i64>,
    ax: Account,
    rg_evals: Seq<usize>,
    rg_fundeds: Seq<usize>,
    e: int,
    f: int,
)
    requires
        are_account_records(records, m, c, cfg, fold, kill, ax, rg_evals, rg_fundeds),
        cfg.split_risk_geo,
        0 <= e < rg_evals.len(),
        0 <= f < rg_fundeds.len(),
    ensures
        records.len() == rg_evals.len() * rg_fundeds.len(),
        exists|i: int|
            0 <= i < records.len() && (#[trigger] records[i]).rg_eval == rg_evals[e]
                && records[i].rg_funded == rg_fundeds[f],
{
    lemma_pairs_all(rg_evals, rg_fundeds, rg_evals.len() as int, e, f);
    let at = e * rg_fundeds.len() + f;
    assert(records[at].rg_eval == rg_evals[e] && records[at].rg_funded == rg_fundeds[f]);
}

// ---------------------------------------------------------------------------
// Two evaluations of one cell
// ---------------------------------------------------------------------------

/// Whether two groupings hold the same trades.
pub open spec fn same_trades(a: Seq<Vec<RawTrade>>, b: Seq<Vec<RawTrade>>) -> bool {
    &&& a.len() == b.len()
    &&& forall|k: int| #![trigger a[k]] #![trigger b[k]] 0 <= k < a.len() ==> a[k]@ == b[k]@
}

spec fn group_days(groups: Seq<Vec<RawTrade>>) -> Seq<int> {
    Seq::new(groups.len(), |k: int| groups[k]@[0].day_idx as int)
}

proof fn lemma_day_has_a_trade(trades: Seq<RawTrade>, day: usize)
    requires
        of_day(trades, day).len() > 0,
    ensures
        exists|i: int| 0 <= i < trades.len() && (#[trigger] trades[i]).day_idx == day,
    decreases trades.len(),
{
    reveal(Seq::filter);
    if trades.len() > 0 {
        if trades.last().day_idx != day {
            lemma_day_has_a_trade(trades.drop_last(), day);
            let i = choose|i: int|
                0 <= i < trades.drop_last().len() && (#[trigger] trades.drop_last()[i]).day_idx
                    == day;
            assert(trades[i].day_idx == day);
        } else {
            assert(trades[trades.len() - 1].day_idx == day);
        }
    }
}

proof fn lemma_group_day_held(
    a: Seq<Vec<RawTrade>>,
    b: Seq<Vec<RawTrade>>,
    trades: Seq<RawTrade>,
    x: int,
)
    requires
        grouped_by_day(a, trades),
        grouped_by_day(b, trades),
        group_days(a).contains(x),
    ensures
        group_days(b).contains(x),
{
    let k = choose|k: int| 0 <= k < group_days(a).len() && group_days(a)[k] == x;
    let day = a[k]@[0].day_idx;
    assert(a[k]@ == of_day(trades, day));
    lemma_day_has_a_trade(trades, day);
    let i = choose|i: int| 0 <= i < trades.len() && (#[trigger] trades[i]).day_idx == day;
    assert(holds_day(b, trades[i].day_idx));
    let l = choose|l: int| 0 <= l < b.len() && (#[trigger] b[l])@[0].day_idx == trades[i].day_idx;
    assert(group_days(b)[l] == x);
}

/// Trades are grouped by day in one way.
proof fn lemma_grouping_unique(
    a: Seq<Vec<RawTrade>>,
    b: Seq<Vec<RawTrade>>,
    trades: Seq<RawTrade>,
)
    requires
        grouped_by_day(a, trades),
        grouped_by_day(b, trades),
    ensures
        same_trades(a, b),
{
    let (s, t) = (group_days(a), group_days(b));
    assert forall|i: int, j: int| 0 <= i < j < s.len() implies s[i] < s[j] by {
        assert(a[i]@[0].day_idx < a[j]@[0].day_idx);
    }
    assert forall|i: int, j: int| 0 <= i < j < t.len() implies t[i] < t[j] by {
        assert(b[i]@[0].day_idx < b[j]@[0].day_idx);
    }
    assert forall|x: int| s.contains(x) <==> t.contains(x) by {
        if s.contains(x) {
            lemma_group_day_held(a, b, trades, x);
        }
        if t.contains(x) {
            lemma_group_day_held(b, a, trades, x);
        }
    }
    lemma_ascending_unique(s, t);
    assert(a.len() == s.len() && b.len() == t.len());
    assert forall|k: int| 0 <= k < a.len() implies a[k]@ == b[k]@ by {
        assert(s[k] == t[k]);
        assert(a[k]@ == of_day(trades, a[k]@[0].day_idx));
        assert(b[k]@ == of_day(trades, b[k]@[0].day_idx));
    }
}

/// Whether all are positions of a sequence of `n`.
spec fn positions_of(idx: Seq<int>, n: int) -> bool {
    forall|j: int| 0 <= j < idx.len() ==> 0 <= #[trigger] idx[j] < n
}

proof fn lemma_path_days_in_range(seed: u64, n: int, block: int, want: int)
    requires
        n > 0,
    ensures
        positions_of(path_days(seed, n, block, want), n),
        path_days(seed, n, block, want).len() == want as nat,
{
    assert forall|j: int| 0 <= j < path_days(seed, n, block, want).len() implies 0
        <= #[trigger] path_days(seed, n, block, want)[j] < n by {
        let x = seeded_draw(seed, repeated(n as nat, (j / block) as nat + 1)) + j % block;
        assert(path_days(seed, n, block, want)[j] == x % n);
        assert(0 <= x % n < n) by (nonlinear_arith)
            requires
                n > 0,
        ;
    }
}

proof fn lemma_same_eval(
    a: Seq<Vec<RawTrade>>,
    b: Seq<Vec<RawTrade>>,
    idx: Seq<int>,
    day: int,
    eq: int,
    pk: int,
    past: Seq<int>,
    ax: Account,
    c: Conditions,
)
    requires
        same_trades(a, b),
        positions_of(idx, a.len() as int),
        idx.len() >= c.max_days,
        0 <= day,
    ensures
        eval_run(a, idx, day, eq, pk, past, ax, c) == eval_run(b, idx, day, eq, pk, past, ax, c),
    decreases c.max_days - day,
{
    if day < c.max_days {
        assert(a[idx[day]]@ == b[idx[day]]@);
        let d = eval_day(a[idx[day]]@, 0, day, eq, pk, 0, ax, c);
        let close = eq + d.dpnl;
        let peak = if close > d.pk {
            close
        } else {
            d.pk
        };
        lemma_same_eval(a, b, idx, day + 1, close, peak, past.push(d.dpnl), ax, c);
    }
}

proof fn lemma_same_challenge(
    a: Seq<Vec<RawTrade>>,
    b: Seq<Vec<RawTrade>>,
    ax: Account,
    c: Conditions,
    block: int,
    seed: u64,
    sims: int,
)
    requires
        same_trades(a, b),
    ensures
        challenge_of(a, ax, c, block, seed, sims) == challenge_of(b, ax, c, block, seed, sims),
{
    if a.len() > 0 {
        let (x, y) = (
            challenge_outcomes(a, ax, c, block, seed, sims),
            challenge_outcomes(b, ax, c, block, seed, sims),
        );
        assert forall|sim: int| 0 <= sim < x.len() implies x[sim] == y[sim] by {
            let s = path_seed(seed, sim as u64, CHALLENGE_TAG);
            let idx = path_days(s, a.len() as int, block, c.max_days as int);
            lemma_path_days_in_range(s, a.len() as int, block, c.max_days as int);
            if c.max_days > 0 {
                lemma_same_eval(a, b, idx, 0, 0, 0, Seq::empty(), ax, c);
            }
            assert(x[sim] == challenge_path(a, ax, c, block, seed, sim));
        }
        assert(x == y);
    }
}

proof fn lemma_same_funding(
    a: Seq<Vec<RawTrade>>,
    b: Seq<Vec<RawTrade>>,
    idx: Seq<int>,
    day: int,
    st: FundedState,
    ax: Account,
    c: Conditions,
)
    requires
        same_trades(a, b),
        positions_of(idx, a.len() as int),
        idx.len() >= c.max_days,
        0 <= day,
    ensures
        funded_run(a, idx, day, st, ax, c) == funded_run(b, idx, day, st, ax, c),
    decreases c.max_days - day,
{
    if day < c.max_days && st.step < 6 {
        assert(a[idx[day]]@ == b[idx[day]]@);
        let made = funded_day(
            a[idx[day]]@,
            0,
            day,
            st.bal,
            st.pk,
            st.locked,
            0,
            ax,
            c,
        ).0;
        let next = after_payout(funded_close(st, made, ax), ax);
        lemma_same_funding(a, b, idx, day + 1, next, ax, c);
    }
}

proof fn lemma_same_funded(
    a: Seq<Vec<RawTrade>>,
    b: Seq<Vec<RawTrade>>,
    ax: Account,
    c: Conditions,
    block: int,
    seed: u64,
    sims: int,
)
    requires
        same_trades(a, b),
    ensures
        funded_of(a, ax, c, block, seed, sims) == funded_of(b, ax, c, block, seed, sims),
{
    if a.len() > 0 {
        let (x, y) = (
            funded_outcomes(a, ax, c, block, seed, sims),
            funded_outcomes(b, ax, c, block, seed, sims),
        );
        assert forall|sim: int| 0 <= sim < x.len() implies x[sim] == y[sim] by {
            let s = path_seed(seed, sim as u64, FUNDED_TAG);
            let idx = path_days(s, a.len() as int, block, c.max_days as int);
            lemma_path_days_in_range(s, a.len() as int, block, c.max_days as int);
            if c.max_days > 0 {
                lemma_same_funding(a, b, idx, 0, newly_funded(ax), ax, c);
            }
            assert(x[sim] == funded_path(a, ax, c, block, seed, sim));
        }
        assert(x == y);
    }
}

/// Whether two tails are the same.
pub open spec fn same_tail(a: TailFit, b: TailFit) -> bool {
    match (a, b) {
        (TailFit::Off, TailFit::Off) => true,
        (TailFit::At(x), TailFit::At(y)) => x == y,
        (TailFit::Fit(u, x), TailFit::Fit(v, y)) => u == v && x@ == y@,
        _ => false,
    }
}

/// Whether a fit answers one thing to one tail.
pub open spec fn answers_alike<F: Fn(&TailFit) -> i128>(fit: F) -> bool {
    forall|a: &TailFit, b: &TailFit, p: i128, q: i128|
        same_tail(*a, *b) && #[trigger] call_ensures(fit, (a,), p) && #[trigger] call_ensures(
            fit,
            (b,),
            q,
        ) ==> p == q
}

/// Whether two records are the same in every column.
pub open spec fn same_record(a: FoldRecord, b: FoldRecord) -> bool {
    &&& a.instrument@ == b.instrument@
    &&& a.cell == b.cell
    &&& a.rg_eval == b.rg_eval
    &&& a.rg_funded == b.rg_funded
    &&& a.account@ == b.account@
    &&& a.test_year == b.test_year
    &&& a.total_period_days == b.total_period_days
    &&& a.inner_train_ev == b.inner_train_ev
    &&& a.inner_val_ev == b.inner_val_ev
    &&& a.shrinkage_ratio == b.shrinkage_ratio
    &&& a.realized == b.realized
    &&& a.avg_hurst_used == b.avg_hurst_used
    &&& a.challenge == b.challenge
    &&& a.funded == b.funded
    &&& a.ev == b.ev
}

/// Whether two sequences of records are the same.
pub open spec fn same_records(a: Seq<FoldRecord>, b: Seq<FoldRecord>) -> bool {
    &&& a.len() == b.len()
    &&& forall|k: int| 0 <= k < a.len() ==> same_record(#[trigger] a[k], b[k])
}

/// Whether two daily rows are the same in every column.
pub open spec fn same_row(a: DailyPnlRow, b: DailyPnlRow) -> bool {
    &&& a.date_code == b.date_code
    &&& a.instrument@ == b.instrument@
    &&& a.cell == b.cell
    &&& a.test_year == b.test_year
    &&& a.n_trades_day == b.n_trades_day
    &&& a.daily_pnl_1ct == b.daily_pnl_1ct
}

/// Whether two outcomes report the same: year, tail limit, records and daily
/// rows.
pub open spec fn same_outcome(a: FoldOutcome, b: FoldOutcome) -> bool {
    &&& a.fold.test_year == b.fold.test_year
    &&& a.tail_limit == b.tail_limit
    &&& a.records@.len() == b.records@.len()
    &&& forall|x: int|
        0 <= x < a.records@.len() ==> same_records((#[trigger] a.records@[x])@, b.records@[x]@)
    &&& a.daily@.len() == b.daily@.len()
    &&& forall|x: int| 0 <= x < a.daily@.len() ==> same_row(#[trigger] a.daily@[x], b.daily@[x])
}

/// Whether two folds are the same to the simulators and the reports.
spec fn same_fold(a: Fold, b: Fold) -> bool {
    &&& a.test_year == b.test_year
    &&& a.test_days == b.test_days
    &&& a.inner_train_ev == b.inner_train_ev
    &&& a.inner_val_ev == b.inner_val_ev
    &&& a.shrinkage_ratio == b.shrinkage_ratio
    &&& same_trades(a.train_by_day@, b.train_by_day@)
    &&& a.test@ == b.test@
    &&& a.realized == b.realized
    &&& a.avg_hurst_used == b.avg_hurst_used
    &&& a.long_wr == b.long_wr
    &&& a.short_wr == b.short_wr
    &&& same_tail(a.tail, b.tail)
}

proof fn lemma_fold_unique(
    a: Fold,
    b: Fold,
    m: Market,
    c: Cell,
    cfg: RunConfig,
    test_year: int,
)
    requires
        a.is_of(m, c, cfg, test_year),
        b.is_of(m, c, cfg, test_year),
    ensures
        same_fold(a, b),
{
    lemma_grouping_unique(a.train_by_day@, b.train_by_day@, a.train@);
    assert(a.realized.monthly_ev_1ct == b.realized.monthly_ev_1ct);
    assert(a.realized.avg_trade_pnl == b.realized.avg_trade_pnl);
    assert(a.realized.win_rate == b.realized.win_rate);
    assert(a.realized.profit_factor == b.realized.profit_factor);
    assert(a.realized == b.realized);
    assert(a.long_wr == b.long_wr);
    assert(a.short_wr == b.short_wr);
}

proof fn lemma_records_unique(
    r: Seq<FoldRecord>,
    s: Seq<FoldRecord>,
    m: Market,
    c: Cell,
    cfg: RunConfig,
    a: Fold,
    b: Fold,
    kill: Option<i64>,
    ax: Account,
    rg_evals: Seq<usize>,
    rg_fundeds: Seq<usize>,
)
    requires
        same_fold(a, b),
        are_account_records(r, m, c, cfg, a, kill, ax, rg_evals, rg_fundeds),
        are_account_records(s, m, c, cfg, b, kill, ax, rg_evals, rg_fundeds),
    ensures
        same_records(r, s),
{
    assert forall|rg: usize| #[trigger]
        fold_challenge(m, c, cfg, a, kill, ax, rg) == fold_challenge(m, c, cfg, b, kill, ax, rg) by {
        lemma_same_challenge(
            a.train_by_day@,
            b.train_by_day@,
            ax,
            phase_conditions(
                m,
                a,
                cfg,
                kill,
                rg,
                cfg.mc_for(ax.sessions_allowed()).eval_max_days as int,
            ),
            cfg.mc.block_days as int,
            fold_seed(m, c, cfg, ax, a.test_year as int, rg, EVAL_PHASE),
            cfg.mc.n_challenge_sims as int,
        );
    }
    assert(worth_funding(m, c, cfg, a, kill, ax, rg_evals) == worth_funding(
        m,
        c,
        cfg,
        b,
        kill,
        ax,
        rg_evals,
    )) by {
        assert forall|i: int| 0 <= i < rg_evals.len() implies fold_challenge(
            m,
            c,
            cfg,
            a,
            kill,
            ax,
            #[trigger] rg_evals[i],
        ) == fold_challenge(m, c, cfg, b, kill, ax, rg_evals[i]) by {}
    }
    assert forall|rg: usize| #[trigger]
        fold_funded(m, c, cfg, a, kill, ax, rg_evals, rg) == fold_funded(
            m,
            c,
            cfg,
            b,
            kill,
            ax,
            rg_evals,
            rg,
        ) by {
        lemma_same_funded(
            a.train_by_day@,
            b.train_by_day@,
            ax,
            phase_conditions(m, a, cfg, kill, rg, cfg.mc.funded_max_days as int),
            cfg.mc.block_days as int,
            fold_seed(
                m,
                c,
                cfg,
                ax,
                a.test_year as int,
                rg,
                FUNDED_PHASE,
            ),
            cfg.mc.n_funded_sims as int,
        );
    }
    assert forall|k: int| 0 <= k < r.len() implies same_record(#[trigger] r[k], s[k]) by {
        let pairs = geometry_pairs(rg_evals, rg_fundeds, cfg.split_risk_geo, rg_evals.len() as int);
        let (e, f) = (rg_evals[pairs[k].0], rg_fundeds[pairs[k].1]);
        assert(r[k].is_of(m, c, cfg, a, kill, ax, rg_evals, e, f));
        assert(s[k].is_of(m, c, cfg, b, kill, ax, rg_evals, e, f));
        assert(fold_challenge(m, c, cfg, a, kill, ax, e) == fold_challenge(
            m,
            c,
            cfg,
            b,
            kill,
            ax,
            e,
        ));
        assert(fold_funded(m, c, cfg, a, kill, ax, rg_evals, f) == fold_funded(
            m,
            c,
            cfg,
            b,
            kill,
            ax,
            rg_evals,
            f,
        ));
    }
}

spec fn test_years(r: Seq<FoldOutcome>) -> Seq<int> {
    Seq::new(r.len(), |i: int| r[i].fold.test_year as int)
}

proof fn lemma_year_kept_in_both<F: Fn(&TailFit) -> i128>(
    r: Seq<FoldOutcome>,
    s: Seq<FoldOutcome>,
    m: Market,
    c: Cell,
    cfg: RunConfig,
    min_year: int,
    max_year: int,
    accounts: Seq<Account>,
    rg_evals: Seq<usize>,
    rg_fundeds: Seq<usize>,
    fit: F,
    x: int,
)
    requires
        is_evaluation(
            r,
            m,
            c,
            cfg,
            min_year,
            max_year,
            accounts,
            rg_evals,
            rg_fundeds,
            fit,
        ),
        is_evaluation(
            s,
            m,
            c,
            cfg,
            min_year,
            max_year,
            accounts,
            rg_evals,
            rg_fundeds,
            fit,
        ),
        test_years(r).contains(x),
    ensures
        test_years(s).contains(x),
{
    let i = choose|i: int| 0 <= i < test_years(r).len() && test_years(r)[i] == x;
    let y = r[i].fold.test_year;
    assert(fold_kept(m, c, cfg, y as int));
    let j = choose|j: int| 0 <= j < s.len() && (#[trigger] s[j]).fold.test_year == y;
    assert(test_years(s)[j] == x);
}

/// A run is reproducible: two evaluations of one cell under the same settings and
/// seed report the same, whatever threads they ran on, as long as the fit answers
/// one thing to one tail.
pub proof fn a_run_is_reproducible<F: Fn(&TailFit) -> i128>(
    r: Seq<FoldOutcome>,
    s: Seq<FoldOutcome>,
    m: Market,
    c: Cell,
    cfg: RunConfig,
    min_year: int,
    max_year: int,
    accounts: Seq<Account>,
    rg_evals: Seq<usize>,
    rg_fundeds: Seq<usize>,
    fit: F,
)
    requires
        is_evaluation(
            r,
            m,
            c,
            cfg,
            min_year,
            max_year,
            accounts,
            rg_evals,
            rg_fundeds,
            fit,
        ),
        is_evaluation(
            s,
            m,
            c,
            cfg,
            min_year,
            max_year,
            accounts,
            rg_evals,
            rg_fundeds,
            fit,
        ),
        answers_alike(fit),
    ensures
        r.len() == s.len(),
        forall|i: int| 0 <= i < r.len() ==> same_outcome(#[trigger] r[i], s[i]),
{
    let (x, y) = (test_years(r), test_years(s));
    assert forall|v: int| x.contains(v) <==> y.contains(v) by {
        if x.contains(v) {
            lemma_year_kept_in_both(
                r,
                s,
                m,
                c,
                cfg,
                min_year,
                max_year,
                accounts,
                rg_evals,
                rg_fundeds,
                fit,
                v,
            );
        }
        if y.contains(v) {
            lemma_year_kept_in_both(
                s,
                r,
                m,
                c,
                cfg,
                min_year,
                max_year,
                accounts,
                rg_evals,
                rg_fundeds,
                fit,
                v,
            );
        }
    }
    lemma_ascending_unique(x, y);
    assert(r.len() == x.len() && s.len() == y.len());
    assert forall|i: int| 0 <= i < r.len() implies same_outcome(#[trigger] r[i], s[i]) by {
        assert(x[i] == y[i]);
        let (a, b) = (r[i], s[i]);
        lemma_fold_unique(a.fold, b.fold, m, c, cfg, a.fold.test_year as int);
        assert(limit_was_fitted(fit, a) && limit_was_fitted(fit, b));
        assert(a.tail_limit == b.tail_limit);
        assert forall|n: int| 0 <= n < a.records@.len() implies same_records(
            (#[trigger] a.records@[n])@,
            b.records@[n]@,
        ) by {
            lemma_records_unique(
                a.records@[n]@,
                b.records@[n]@,
                m,
                c,
                cfg,
                a.fold,
                b.fold,
                a.tail_limit,
                accounts[n],
                rg_evals,
                rg_fundeds,
            );
        }
        assert(are_daily_rows(a.daily@, m, c, a.fold) && are_daily_rows(b.daily@, m, c, b.fold));
    }
}

} // verus!
