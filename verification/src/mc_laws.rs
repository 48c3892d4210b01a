//! What holds of the simulators on every input.

use vstd::prelude::*;

use crate::draws::{repeated, seeded_draw};
use crate::mc::{
    after_payout, challenge_outcomes, challenge_path, eval_day, eval_run, funded_close, funded_day,
    funded_path, funded_run, is_tail, newly_funded, passes, path_days, path_seed, sized,
    trade_result, Conditions, FundedState, CHALLENGE_TAG, FUNDED_TAG, MIN_PAYOUT,
};
use crate::types::{Account, RawTrade};

verus! {

// ---------------------------------------------------------------------------
// Evaluation phase
// ---------------------------------------------------------------------------

/// The same conditions over another number of days.
pub open spec fn over_days(c: Conditions, days: i32) -> Conditions {
    Conditions { max_days: days, ..c }
}

proof fn lemma_day_ignores_window(
    trades: Seq<RawTrade>,
    i: int,
    day: int,
    eq: int,
    pk: int,
    dpnl: int,
    ax: Account,
    c: Conditions,
    days: i32,
)
    requires
        c.rg != 4,
    ensures
        eval_day(trades, i, day, eq, pk, dpnl, ax, c) == eval_day(
            trades,
            i,
            day,
            eq,
            pk,
            dpnl,
            ax,
            over_days(c, days),
        ),
    decreases trades.len() - i,
{
    if 0 <= i < trades.len() {
        let t = trades[i];
        let cts = sized(t, eq, pk, ax.dd as int, ax.eval_cts as int, day, ax.target as int, c);
        let made = dpnl + trade_result(t, cts, c.evt_kill);
        let peak = if !ax.is_eod && eq + made > pk {
            eq + made
        } else {
            pk
        };
        lemma_day_ignores_window(trades, i + 1, day, eq, peak, made, ax, c, days);
    }
}

proof fn lemma_pass_survives_longer_window(
    by_day: Seq<Vec<RawTrade>>,
    idx: Seq<int>,
    longer: Seq<int>,
    day: int,
    eq: int,
    pk: int,
    past: Seq<int>,
    ax: Account,
    c: Conditions,
    days: i32,
)
    requires
        c.rg != 4,
        c.max_days <= days,
        0 <= day,
        forall|j: int| 0 <= j < c.max_days ==> #[trigger] idx[j] == longer[j],
    ensures
        eval_run(by_day, idx, day, eq, pk, past, ax, c) matches Some(d) ==> eval_run(
            by_day,
            longer,
            day,
            eq,
            pk,
            past,
            ax,
            over_days(c, days),
        ) == Some(d),
    decreases c.max_days - day,
{
    if day < c.max_days {
        let trades = by_day[idx[day]]@;
        lemma_day_ignores_window(trades, 0, day, eq, pk, 0, ax, c, days);
        let d = eval_day(trades, 0, day, eq, pk, 0, ax, c);
        let close = eq + d.dpnl;
        let peak = if close > d.pk {
            close
        } else {
            d.pk
        };
        lemma_pass_survives_longer_window(
            by_day,
            idx,
            longer,
            day + 1,
            close,
            peak,
            past.push(d.dpnl),
            ax,
            c,
            days,
        );
    }
}

proof fn lemma_passes_monotone(a: Seq<Option<int>>, b: Seq<Option<int>>)
    requires
        a.len() == b.len(),
        forall|i: int| 0 <= i < a.len() && (#[trigger] a[i]) is Some ==> b[i] is Some,
    ensures
        passes(a) <= passes(b),
    decreases a.len(),
{
    if a.len() > 0 {
        lemma_passes_monotone(a.drop_last(), b.drop_last());
    }
}

/// A longer evaluation window never loses a pass: a path that passes within the
/// shorter window passes on the same day of the longer one. Sizing must not look
/// at the window, as the time-decay geometry does.
pub proof fn a_longer_window_keeps_every_pass(
    by_day: Seq<Vec<RawTrade>>,
    ax: Account,
    c: Conditions,
    block: int,
    base_seed: u64,
    sim: int,
    days: i32,
)
    requires
        c.rg != 4,
        c.max_days <= days,
    ensures
        challenge_path(by_day, ax, c, block, base_seed, sim) matches Some(d) ==> challenge_path(
            by_day,
            ax,
            over_days(c, days),
            block,
            base_seed,
            sim,
        ) == Some(d),
{
    let seed = path_seed(base_seed, sim as u64, CHALLENGE_TAG);
    let idx = path_days(seed, by_day.len() as int, block, c.max_days as int);
    let longer = path_days(seed, by_day.len() as int, block, days as int);
    lemma_pass_survives_longer_window(
        by_day,
        idx,
        longer,
        0,
        0,
        0,
        Seq::empty(),
        ax,
        c,
        days,
    );
}

/// A longer evaluation window never lowers the number of passes, and with it the
/// pass rate.
pub proof fn a_longer_window_never_lowers_the_pass_rate(
    by_day: Seq<Vec<RawTrade>>,
    ax: Account,
    c: Conditions,
    block: int,
    base_seed: u64,
    sims: int,
    days: i32,
)
    requires
        c.rg != 4,
        c.max_days <= days,
    ensures
        passes(challenge_outcomes(by_day, ax, c, block, base_seed, sims)) <= passes(
            challenge_outcomes(by_day, ax, over_days(c, days), block, base_seed, sims),
        ),
{
    let a = challenge_outcomes(by_day, ax, c, block, base_seed, sims);
    let b = challenge_outcomes(by_day, ax, over_days(c, days), block, base_seed, sims);
    assert forall|i: int| 0 <= i < a.len() && (#[trigger] a[i]) is Some implies b[i] is Some by {
        a_longer_window_keeps_every_pass(by_day, ax, c, block, base_seed, i, days);
    }
    lemma_passes_monotone(a, b);
}

/// The same conditions with the daily loss limit as a breach or as a cap.
pub open spec fn with_breach(c: Conditions, breach: bool) -> Conditions {
    Conditions { dll_is_breach: breach, ..c }
}

proof fn lemma_unblown_day_ignores_limit_kind(
    trades: Seq<RawTrade>,
    i: int,
    day: int,
    eq: int,
    pk: int,
    dpnl: int,
    ax: Account,
    c: Conditions,
)
    ensures
        !eval_day(trades, i, day, eq, pk, dpnl, ax, with_breach(c, true)).blown ==> eval_day(
            trades,
            i,
            day,
            eq,
            pk,
            dpnl,
            ax,
            with_breach(c, true),
        ) == eval_day(trades, i, day, eq, pk, dpnl, ax, with_breach(c, false)),
    decreases trades.len() - i,
{
    if 0 <= i < trades.len() {
        let t = trades[i];
        let cts = sized(t, eq, pk, ax.dd as int, ax.eval_cts as int, day, ax.target as int, c);
        let made = dpnl + trade_result(t, cts, c.evt_kill);
        let peak = if !ax.is_eod && eq + made > pk {
            eq + made
        } else {
            pk
        };
        lemma_unblown_day_ignores_limit_kind(trades, i + 1, day, eq, peak, made, ax, c);
    }
}

proof fn lemma_pass_under_breach_passes_under_cap(
    by_day: Seq<Vec<RawTrade>>,
    idx: Seq<int>,
    day: int,
    eq: int,
    pk: int,
    past: Seq<int>,
    ax: Account,
    c: Conditions,
)
    ensures
        eval_run(by_day, idx, day, eq, pk, past, ax, with_breach(c, true)) matches Some(d)
            ==> eval_run(by_day, idx, day, eq, pk, past, ax, with_breach(c, false)) == Some(d),
    decreases c.max_days - day,
{
    if day < c.max_days {
        let trades = by_day[idx[day]]@;
        lemma_unblown_day_ignores_limit_kind(trades, 0, day, eq, pk, 0, ax, c);
        let d = eval_day(trades, 0, day, eq, pk, 0, ax, with_breach(c, true));
        let close = eq + d.dpnl;
        let peak = if close > d.pk {
            close
        } else {
            d.pk
        };
        lemma_pass_under_breach_passes_under_cap(
            by_day,
            idx,
            day + 1,
            close,
            peak,
            past.push(d.dpnl),
            ax,
            c,
        );
    }
}

/// Treating the daily loss limit as a breach is never more permissive than
/// treating it as a cap: it passes no path that the cap does not pass.
pub proof fn a_breach_is_never_more_permissive_than_a_cap(
    by_day: Seq<Vec<RawTrade>>,
    ax: Account,
    c: Conditions,
    block: int,
    base_seed: u64,
    sims: int,
)
    ensures
        passes(challenge_outcomes(by_day, ax, with_breach(c, true), block, base_seed, sims))
            <= passes(
            challenge_outcomes(by_day, ax, with_breach(c, false), block, base_seed, sims),
        ),
{
    let a = challenge_outcomes(by_day, ax, with_breach(c, true), block, base_seed, sims);
    let b = challenge_outcomes(by_day, ax, with_breach(c, false), block, base_seed, sims);
    assert forall|i: int| 0 <= i < a.len() && (#[trigger] a[i]) is Some implies b[i] is Some by {
        let idx = path_days(
            path_seed(base_seed, i as u64, CHALLENGE_TAG),
            by_day.len() as int,
            block,
            c.max_days as int,
        );
        lemma_pass_under_breach_passes_under_cap(by_day, idx, 0, 0, 0, Seq::empty(), ax, c);
    }
    lemma_passes_monotone(a, b);
}

proof fn lemma_no_limit_no_kind(
    trades: Seq<RawTrade>,
    i: int,
    day: int,
    eq: int,
    pk: int,
    dpnl: int,
    ax: Account,
    c: Conditions,
)
    requires
        ax.dll <= 0,
    ensures
        eval_day(trades, i, day, eq, pk, dpnl, ax, with_breach(c, true)) == eval_day(
            trades,
            i,
            day,
            eq,
            pk,
            dpnl,
            ax,
            with_breach(c, false),
        ),
    decreases trades.len() - i,
{
    if 0 <= i < trades.len() {
        let t = trades[i];
        let cts = sized(t, eq, pk, ax.dd as int, ax.eval_cts as int, day, ax.target as int, c);
        let made = dpnl + trade_result(t, cts, c.evt_kill);
        let peak = if !ax.is_eod && eq + made > pk {
            eq + made
        } else {
            pk
        };
        lemma_no_limit_no_kind(trades, i + 1, day, eq, peak, made, ax, c);
    }
}

proof fn lemma_no_limit_same_run(
    by_day: Seq<Vec<RawTrade>>,
    idx: Seq<int>,
    day: int,
    eq: int,
    pk: int,
    past: Seq<int>,
    ax: Account,
    c: Conditions,
)
    requires
        ax.dll <= 0,
    ensures
        eval_run(by_day, idx, day, eq, pk, past, ax, with_breach(c, true)) == eval_run(
            by_day,
            idx,
            day,
            eq,
            pk,
            past,
            ax,
            with_breach(c, false),
        ),
    decreases c.max_days - day,
{
    if day < c.max_days {
        let trades = by_day[idx[day]]@;
        lemma_no_limit_no_kind(trades, 0, day, eq, pk, 0, ax, c);
        let d = eval_day(trades, 0, day, eq, pk, 0, ax, with_breach(c, true));
        let close = eq + d.dpnl;
        let peak = if close > d.pk {
            close
        } else {
            d.pk
        };
        lemma_no_limit_same_run(by_day, idx, day + 1, close, peak, past.push(d.dpnl), ax, c);
    }
}

/// On an account without a daily loss limit, breach and cap are the same: every
/// path comes out alike, and with it the pass rate.
pub proof fn without_a_limit_breach_and_cap_agree(
    by_day: Seq<Vec<RawTrade>>,
    ax: Account,
    c: Conditions,
    block: int,
    base_seed: u64,
    sims: int,
)
    requires
        ax.dll <= 0,
    ensures
        challenge_outcomes(by_day, ax, with_breach(c, true), block, base_seed, sims)
            == challenge_outcomes(by_day, ax, with_breach(c, false), block, base_seed, sims),
{
    let a = challenge_outcomes(by_day, ax, with_breach(c, true), block, base_seed, sims);
    let b = challenge_outcomes(by_day, ax, with_breach(c, false), block, base_seed, sims);
    assert forall|i: int| 0 <= i < a.len() implies a[i] == b[i] by {
        let idx = path_days(
            path_seed(base_seed, i as u64, CHALLENGE_TAG),
            by_day.len() as int,
            block,
            c.max_days as int,
        );
        lemma_no_limit_same_run(by_day, idx, 0, 0, 0, Seq::empty(), ax, c);
    }
    assert(a =~= b);
}

/// On an intraday-trailing account, a trade that takes the equity below the peak
/// less the drawdown fails the account, whether or not its loss was capped at
/// the tail limit.
pub proof fn an_intraday_breach_always_fails_the_account(
    trades: Seq<RawTrade>,
    i: int,
    day: int,
    eq: int,
    pk: int,
    dpnl: int,
    ax: Account,
    c: Conditions,
)
    requires
        0 <= i < trades.len(),
        !ax.is_eod,
        ({
            let cts = sized(
                trades[i],
                eq,
                pk,
                ax.dd as int,
                ax.eval_cts as int,
                day,
                ax.target as int,
                c,
            );
            let ie = eq + dpnl + trade_result(trades[i], cts, c.evt_kill);
            ie <= pk && ie < pk - ax.dd
        }),
    ensures
        eval_day(trades, i, day, eq, pk, dpnl, ax, c).blown,
{
}

proof fn lemma_pass_day_in_window(
    by_day: Seq<Vec<RawTrade>>,
    idx: Seq<int>,
    day: int,
    eq: int,
    pk: int,
    past: Seq<int>,
    ax: Account,
    c: Conditions,
)
    ensures
        eval_run(by_day, idx, day, eq, pk, past, ax, c) matches Some(d) ==> day < d <= c.max_days,
    decreases c.max_days - day,
{
    if day < c.max_days {
        let r = eval_day(by_day[idx[day]]@, 0, day, eq, pk, 0, ax, c);
        let close = eq + r.dpnl;
        let peak = if close > r.pk {
            close
        } else {
            r.pk
        };
        lemma_pass_day_in_window(
            by_day,
            idx,
            day + 1,
            close,
            peak,
            past.push(r.dpnl),
            ax,
            c,
        );
    }
}

/// An evaluation that passes does so within its window.
pub proof fn a_pass_comes_within_the_window(
    by_day: Seq<Vec<RawTrade>>,
    ax: Account,
    c: Conditions,
    block: int,
    base_seed: u64,
    sim: int,
)
    ensures
        challenge_path(by_day, ax, c, block, base_seed, sim) matches Some(d) ==> 1 <= d
            <= c.max_days,
{
    let idx = path_days(
        path_seed(base_seed, sim as u64, CHALLENGE_TAG),
        by_day.len() as int,
        block,
        c.max_days as int,
    );
    lemma_pass_day_in_window(by_day, idx, 0, 0, 0, Seq::empty(), ax, c);
}

// ---------------------------------------------------------------------------
// Funded phase
// ---------------------------------------------------------------------------

/// The first `n` rungs of the withdrawal ladder together.
pub open spec fn ladder_sum(ax: Account, n: int) -> int
    decreases n,
{
    if n <= 0 {
        0
    } else {
        ladder_sum(ax, n - 1) + ax.ladder@[n - 1]
    }
}

spec fn payouts_sound(st: FundedState, ax: Account) -> bool {
    &&& 0 <= st.step <= 6
    &&& MIN_PAYOUT * st.step <= st.ext <= ladder_sum(ax, st.step)
}

proof fn lemma_ladder_grows(ax: Account, a: int, b: int)
    requires
        0 <= a <= b <= 6,
        forall|i: int| 0 <= i < 6 ==> 0 <= #[trigger] ax.ladder@[i],
    ensures
        ladder_sum(ax, a) <= ladder_sum(ax, b),
    decreases b - a,
{
    if a < b {
        lemma_ladder_grows(ax, a, b - 1);
    }
}

proof fn lemma_funded_run_bounds(
    by_day: Seq<Vec<RawTrade>>,
    idx: Seq<int>,
    day: int,
    st: FundedState,
    ax: Account,
    c: Conditions,
)
    requires
        0 <= day <= c.max_days,
        payouts_sound(st, ax),
        forall|i: int| 0 <= i < 6 ==> 0 <= #[trigger] ax.ladder@[i],
    ensures
        ({
            let p = funded_run(by_day, idx, day, st, ax, c);
            &&& day <= p.days_held <= c.max_days
            &&& p.ext == 0 || p.ext >= MIN_PAYOUT
            &&& 0 <= p.ext <= ladder_sum(ax, 6)
        }),
    decreases c.max_days - day,
{
    lemma_ladder_grows(ax, st.step, 6);
    if st.step == 0 {
        assert(ladder_sum(ax, 0) == 0);
    }
    if day < c.max_days && st.step < 6 {
        let r = funded_day(by_day[idx[day]]@, 0, day, st.bal, st.pk, st.locked, 0, ax, c);
        let close = funded_close(st, r.0, ax);
        let next = after_payout(close, ax);
        assert(payouts_sound(next, ax));
        lemma_funded_run_bounds(by_day, idx, day + 1, next, ax, c);
    }
}

/// A funded account is held no longer than the horizon; it extracts nothing or
/// at least the smallest payout, and never more than its six rungs allow.
pub proof fn a_funded_account_keeps_to_horizon_and_ladder(
    by_day: Seq<Vec<RawTrade>>,
    ax: Account,
    c: Conditions,
    block: int,
    base_seed: u64,
    sim: int,
)
    requires
        0 <= c.max_days,
        forall|i: int| 0 <= i < 6 ==> 0 <= #[trigger] ax.ladder@[i],
    ensures
        ({
            let p = funded_path(by_day, ax, c, block, base_seed, sim);
            &&& 0 <= p.days_held <= c.max_days
            &&& p.ext == 0 || p.ext >= MIN_PAYOUT
            &&& 0 <= p.ext <= ladder_sum(ax, 6)
        }),
{
    let idx = path_days(
        path_seed(base_seed, sim as u64, FUNDED_TAG),
        by_day.len() as int,
        block,
        c.max_days as int,
    );
    assert(ladder_sum(ax, 0) == 0);
    lemma_funded_run_bounds(by_day, idx, 0, newly_funded(ax), ax, c);
}

proof fn lemma_losing_day(
    trades: Seq<RawTrade>,
    i: int,
    day: int,
    bal: int,
    pk: int,
    locked: bool,
    dpnl: int,
    ax: Account,
    c: Conditions,
)
    requires
        dpnl <= 0,
        forall|j: int| 0 <= j < trades.len() ==> (#[trigger] trades[j]).pnl_1ct <= 0,
        c.evt_kill matches Some(k) ==> k >= 0,
    ensures
        funded_day(trades, i, day, bal, pk, locked, dpnl, ax, c).0 <= 0,
    decreases trades.len() - i,
{
    if 0 <= i < trades.len() {
        let t = trades[i];
        let cap = if locked {
            ax.pa_max as int
        } else {
            ax.pa_start as int
        };
        let cts = sized(
            t,
            bal - ax.sb,
            pk - ax.sb,
            ax.pa_dd as int,
            cap,
            day,
            ax.pa_dd as int,
            c,
        );
        let per = if is_tail(t, c.evt_kill) {
            -(c.evt_kill->0) as int
        } else {
            t.pnl_1ct as int
        };
        assert(per * cts <= 0) by (nonlinear_arith)
            requires
                per <= 0,
                cts >= 1,
        ;
        let made = dpnl + trade_result(t, cts, c.evt_kill);
        lemma_losing_day(trades, i + 1, day, bal, pk, locked, made, ax, c);
    }
}

proof fn lemma_losing_run(
    by_day: Seq<Vec<RawTrade>>,
    idx: Seq<int>,
    day: int,
    st: FundedState,
    ax: Account,
    c: Conditions,
)
    requires
        0 <= day,
        forall|j: int| 0 <= j < c.max_days ==> 0 <= #[trigger] idx[j] < by_day.len(),
        forall|d: int, j: int|
            #![trigger by_day[d]@[j]]
            0 <= d < by_day.len() && 0 <= j < by_day[d]@.len() ==> by_day[d]@[j].pnl_1ct <= 0,
        c.evt_kill matches Some(k) ==> k >= 0,
        ax.sb <= ax.sn,
        st.bal <= ax.sb,
        st.ext == 0,
    ensures
        funded_run(by_day, idx, day, st, ax, c).ext == 0,
    decreases c.max_days - day,
{
    if day < c.max_days && st.step < 6 {
        let trades = by_day[idx[day]]@;
        lemma_losing_day(trades, 0, day, st.bal, st.pk, st.locked, 0, ax, c);
        let r = funded_day(trades, 0, day, st.bal, st.pk, st.locked, 0, ax, c);
        let close = funded_close(st, r.0, ax);
        lemma_losing_run(by_day, idx, day + 1, after_payout(close, ax), ax, c);
    }
}

/// A strategy without a winning trade extracts nothing, on any account whose
/// safety net is not below its starting balance.
pub proof fn a_losing_strategy_extracts_nothing(
    by_day: Seq<Vec<RawTrade>>,
    ax: Account,
    c: Conditions,
    block: int,
    base_seed: u64,
    sim: int,
)
    requires
        by_day.len() > 0,
        forall|d: int, j: int|
            #![trigger by_day[d]@[j]]
            0 <= d < by_day.len() && 0 <= j < by_day[d]@.len() ==> by_day[d]@[j].pnl_1ct <= 0,
        c.evt_kill matches Some(k) ==> k >= 0,
        ax.sb <= ax.sn,
    ensures
        funded_path(by_day, ax, c, block, base_seed, sim).ext == 0,
{
    let n = by_day.len() as int;
    let idx = path_days(path_seed(base_seed, sim as u64, FUNDED_TAG), n, block, c.max_days as int);
    assert forall|j: int| 0 <= j < c.max_days implies 0 <= #[trigger] idx[j] < n by {
        let seed = path_seed(base_seed, sim as u64, FUNDED_TAG);
        let x = seeded_draw(seed, repeated(n as nat, (j / block) as nat + 1)) + j % block;
        assert(idx[j] == x % n);
        assert(0 <= x % n < n) by (nonlinear_arith)
            requires
                n > 0,
        ;
    }
    lemma_losing_run(by_day, idx, 0, newly_funded(ax), ax, c);
}

} // verus!
