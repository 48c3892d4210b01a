//! What a simulated account does day by day, written out as a ledger.

use vstd::prelude::*;

use crate::mc::{
    after_payout, challenge_path, consistent, eval_day, eval_run, funded_close, funded_day,
    funded_path, funded_run, newly_funded, path_days, path_seed, sized, trade_result, withdraws,
    Conditions, EvalDay, FundedPath, FundedState, CHALLENGE_TAG, FUNDED_TAG,
};
use crate::num::{largest, total};
use crate::types::{Account, RawTrade};

verus! {

// ---------------------------------------------------------------------------
// One trade
// ---------------------------------------------------------------------------

/// Whether a trade loses more per contract than the tail limit.
pub open spec fn exceeds_limit(t: RawTrade, limit: Option<i64>) -> bool {
    limit matches Some(k) && t.pnl_1ct < 0 && t.pnl_1ct + k < 0
}

/// A trade on `cts` contracts makes its one-contract result on each of them, but
/// loses no more per contract than the tail limit.
pub proof fn a_trade_makes_its_result_on_each_contract(
    t: RawTrade,
    cts: int,
    limit: Option<i64>,
)
    ensures
        !exceeds_limit(t, limit) ==> trade_result(t, cts, limit) == t.pnl_1ct * cts,
        exceeds_limit(t, limit) ==> trade_result(t, cts, limit) == -limit->0 * cts,
{
}

// ---------------------------------------------------------------------------
// A day of the evaluation
// ---------------------------------------------------------------------------

/// What a trade makes per contract, a loss held to the tail limit.
pub open spec fn per_contract(t: RawTrade, limit: Option<i64>) -> int {
    if exceeds_limit(t, limit) {
        -limit->0
    } else {
        t.pnl_1ct as int
    }
}

/// Whether a trade takes an evaluation day from one mark to the next: what the day
/// has made so far, and the peak, which an intraday-trailing account raises with
/// every trade and another keeps until the close.
#[verifier::opaque]
pub open spec fn is_eval_step(
    from: (int, int),
    to: (int, int),
    t: RawTrade,
    day: int,
    eq: int,
    ax: Account,
    c: Conditions,
) -> bool {
    let cts = sized(t, eq, from.1, ax.dd as int, ax.eval_cts as int, day, ax.target as int, c);
    &&& to.0 == from.0 + per_contract(t, c.evt_kill) * cts
    &&& to.1 == if !ax.is_eod && eq + to.0 > from.1 {
        eq + to.0
    } else {
        from.1
    }
}

/// Whether a tape of marks, one before each trade and one after the last, follows
/// the trades of an evaluation day.
pub open spec fn is_eval_tape(
    marks: Seq<(int, int)>,
    trades: Seq<RawTrade>,
    first: int,
    day: int,
    eq: int,
    ax: Account,
    c: Conditions,
) -> bool {
    &&& 1 <= marks.len()
    &&& first + marks.len() - 1 <= trades.len()
    &&& forall|j: int|
        1 <= j < marks.len() ==> is_eval_step(
            marks[j - 1],
            #[trigger] marks[j],
            trades[first + j - 1],
            day,
            eq,
            ax,
            c,
        )
}

/// Whether an intraday-trailing account is more than its drawdown below its peak.
pub open spec fn drawn_down(made: int, peak: int, eq: int, ax: Account) -> bool {
    !ax.is_eod && peak - (eq + made) > ax.dd
}

/// Whether a day has lost as much as the daily limit, where there is one.
pub open spec fn at_daily_limit(made: int, ax: Account) -> bool {
    ax.dll > 0 && made + ax.dll <= 0
}

/// Whether a trade ends an evaluation day.
pub open spec fn ends_eval_day(
    mark: (int, int),
    t: RawTrade,
    eq: int,
    ax: Account,
    c: Conditions,
) -> bool {
    drawn_down(mark.0, mark.1, eq, ax) || at_daily_limit(mark.0, ax) || exceeds_limit(
        t,
        c.evt_kill,
    )
}

/// Whether a tape ends its day as the rules say. No trade but the last takes the
/// account below its peak less the drawdown, to the daily limit or beyond the tail
/// limit; the day stops short only at one that does. It fails the account below
/// the drawdown, and at the limit where that is a breach; where it is a cap, the
/// day makes the limit.
pub open spec fn eval_day_ends(
    marks: Seq<(int, int)>,
    trades: Seq<RawTrade>,
    first: int,
    eq: int,
    ax: Account,
    c: Conditions,
    d: EvalDay,
) -> bool {
    let n = marks.len() - 1;
    let (made, peak) = marks[n];
    let under = n > 0 && drawn_down(made, peak, eq, ax);
    let limit = n > 0 && at_daily_limit(made, ax);
    &&& forall|j: int|
        1 <= j < n ==> !ends_eval_day(#[trigger] marks[j], trades[first + j - 1], eq, ax, c)
    &&& first + n == trades.len() || n > 0 && ends_eval_day(
        marks[n],
        trades[first + n - 1],
        eq,
        ax,
        c,
    )
    &&& d.blown <==> under || limit && c.dll_is_breach
    &&& d.pk == peak
    &&& d.dpnl == if !under && limit && !c.dll_is_breach {
        -ax.dll as int
    } else {
        made
    }
}

#[verifier::opaque]
spec fn day_from(
    trades: Seq<RawTrade>,
    i: int,
    day: int,
    eq: int,
    pk: int,
    dpnl: int,
    ax: Account,
    c: Conditions,
) -> EvalDay {
    eval_day(trades, i, day, eq, pk, dpnl, ax, c)
}

proof fn lemma_eval_tape(
    trades: Seq<RawTrade>,
    i: int,
    day: int,
    eq: int,
    pk: int,
    dpnl: int,
    ax: Account,
    c: Conditions,
) -> (marks: Seq<(int, int)>)
    requires
        0 <= i <= trades.len(),
    ensures
        is_eval_tape(marks, trades, i, day, eq, ax, c),
        marks[0] == (dpnl, pk),
        eval_day_ends(marks, trades, i, eq, ax, c, day_from(trades, i, day, eq, pk, dpnl, ax, c)),
    decreases trades.len() - i,
{
    if i >= trades.len() {
        reveal(day_from);
        seq![(dpnl, pk)]
    } else {
        let now = lemma_eval_step(trades, i, day, eq, pk, dpnl, ax, c);
        let t = trades[i];
        if ends_eval_day(now, t, eq, ax, c) {
            let marks = seq![(dpnl, pk), now];
            marks
        } else {
            let rest = lemma_eval_tape(trades, i + 1, day, eq, now.1, now.0, ax, c);
            let marks = seq![(dpnl, pk)] + rest;
            lemma_tape_grows(marks, rest, trades, i, day, eq, ax, c);
            assert forall|j: int| 1 <= j < marks.len() - 1 implies !ends_eval_day(
                #[trigger] marks[j],
                trades[i + j - 1],
                eq,
                ax,
                c,
            ) by {
                assert(marks[j] == rest[j - 1]);
            }
            assert(marks[marks.len() - 1] == rest[rest.len() - 1]);
            if rest.len() == 1 {
                assert(marks[1] == now);
                assert(!drawn_down(now.0, now.1, eq, ax) && !at_daily_limit(now.0, ax));
            }
            marks
        }
    }
}

/// One trade of an evaluation day, and how the day goes on.
proof fn lemma_eval_step(
    trades: Seq<RawTrade>,
    i: int,
    day: int,
    eq: int,
    pk: int,
    dpnl: int,
    ax: Account,
    c: Conditions,
) -> (now: (int, int))
    requires
        0 <= i < trades.len(),
    ensures
        is_eval_step((dpnl, pk), now, trades[i], day, eq, ax, c),
        ({
            let d = day_from(trades, i, day, eq, pk, dpnl, ax, c);
            let under = drawn_down(now.0, now.1, eq, ax);
            let limit = at_daily_limit(now.0, ax);
            if ends_eval_day(now, trades[i], eq, ax, c) {
                &&& d.blown <==> under || limit && c.dll_is_breach
                &&& d.pk == now.1
                &&& d.dpnl == if !under && limit && !c.dll_is_breach {
                    -ax.dll as int
                } else {
                    now.0
                }
            } else {
                d == day_from(trades, i + 1, day, eq, now.1, now.0, ax, c)
            }
        }),
{
    reveal(day_from);
    reveal(is_eval_step);
    let t = trades[i];
    let cts = sized(t, eq, pk, ax.dd as int, ax.eval_cts as int, day, ax.target as int, c);
    let made = dpnl + trade_result(t, cts, c.evt_kill);
    let peak = if !ax.is_eod && eq + made > pk {
        eq + made
    } else {
        pk
    };
    a_trade_makes_its_result_on_each_contract(t, cts, c.evt_kill);
    (made, peak)
}

proof fn lemma_tape_grows(
    marks: Seq<(int, int)>,
    rest: Seq<(int, int)>,
    trades: Seq<RawTrade>,
    i: int,
    day: int,
    eq: int,
    ax: Account,
    c: Conditions,
)
    requires
        is_eval_tape(rest, trades, i + 1, day, eq, ax, c),
        marks.len() == rest.len() + 1,
        forall|j: int| 1 <= j < marks.len() ==> #[trigger] marks[j] == rest[j - 1],
        is_eval_step(marks[0], rest[0], trades[i], day, eq, ax, c),
    ensures
        is_eval_tape(marks, trades, i, day, eq, ax, c),
{
    assert forall|j: int| 1 <= j < marks.len() implies is_eval_step(
        marks[j - 1],
        #[trigger] marks[j],
        trades[i + j - 1],
        day,
        eq,
        ax,
        c,
    ) by {
        if j > 1 {
            let x = rest[j - 1];
            assert(marks[j - 1] == rest[j - 2]);
        }
    }
}

/// A day of the evaluation follows its tape of trades from the first on.
pub proof fn an_evaluation_day_follows_its_tape(
    trades: Seq<RawTrade>,
    day: int,
    eq: int,
    pk: int,
    ax: Account,
    c: Conditions,
) -> (marks: Seq<(int, int)>)
    ensures
        is_eval_tape(marks, trades, 0, day, eq, ax, c),
        marks[0] == (0int, pk),
        eval_day_ends(marks, trades, 0, eq, ax, c, eval_day(trades, 0, day, eq, pk, 0, ax, c)),
{
    reveal(day_from);
    lemma_eval_tape(trades, 0, day, eq, pk, 0, ax, c)
}

// ---------------------------------------------------------------------------
// An evaluation
// ---------------------------------------------------------------------------

/// Whether no day of `first..=last` made more than its share of a positive total.
pub open spec fn no_day_dominates(
    made: Seq<int>,
    first: int,
    last: int,
    sum: int,
    ax: Account,
) -> bool {
    &&& sum > 0
    &&& forall|i: int|
        first <= i <= last ==> #[trigger] made[i] * ax.cons.den <= ax.cons.num * sum
}

proof fn lemma_consistent(days: Seq<int>, all: Seq<int>, first: int, sum: int, ax: Account)
    requires
        0 <= first <= all.len(),
        days == all.skip(first),
        days.len() > 0,
        sum == total(days),
        ax.cons.den > 0,
    ensures
        consistent(days, ax.cons) == no_day_dominates(all, first, all.len() - 1, sum, ax),
{
    lemma_largest(days);
    let (d, m) = (ax.cons.den as int, largest(days));
    let most = ax.cons.num * sum;
    if m * d <= most {
        assert forall|i: int| first <= i < all.len() implies #[trigger] all[i] * d <= most by {
            assert(days[i - first] == all[i]);
            let x = all[i];
            assert(x * d <= m * d) by (nonlinear_arith)
                requires
                    x <= m,
                    d > 0,
            ;
        }
    }
    let k = choose|k: int| 0 <= k < days.len() && days[k] == m;
    assert(all[first + k] == m);
}

/// The largest of some values is one of them, and none is larger.
pub proof fn lemma_largest(s: Seq<int>)
    requires
        s.len() > 0,
    ensures
        forall|i: int| 0 <= i < s.len() ==> #[trigger] s[i] <= largest(s),
        exists|i: int| 0 <= i < s.len() && s[i] == largest(s),
    decreases s.len(),
{
    if s.len() > 1 {
        let t = s.drop_last();
        lemma_largest(t);
        let k = choose|k: int| 0 <= k < t.len() && t[k] == largest(t);
        assert(s[k] == t[k]);
        assert forall|i: int| 0 <= i < s.len() implies #[trigger] s[i] <= largest(s) by {
            if i < t.len() {
                assert(t[i] == s[i]);
            }
        }
        if s.last() > largest(t) {
            assert(s[s.len() - 1] == largest(s));
        }
    } else {
        assert(s[0] == largest(s));
    }
}

/// The ledger of an evaluation: equity and peak before each day, and what each day
/// made.
pub struct EvalLedger {
    pub eq: Seq<int>,
    pub pk: Seq<int>,
    pub made: Seq<int>,
}

/// Whether a ledger's day `j` ended as that day's trades say.
pub open spec fn is_eval_row(
    l: EvalLedger,
    by_day: Seq<Vec<RawTrade>>,
    idx: Seq<int>,
    ax: Account,
    c: Conditions,
    j: int,
) -> bool {
    let d = eval_day(by_day[idx[j]]@, 0, j, l.eq[j], l.pk[j], 0, ax, c);
    &&& l.made[j] == d.dpnl
    &&& l.eq[j + 1] == l.eq[j] + d.dpnl
    &&& l.pk[j + 1] == if l.eq[j + 1] > d.pk {
        l.eq[j + 1]
    } else {
        d.pk
    }
}

/// Whether an account failed on day `j`: within the day, or at a close more than
/// the drawdown below its peak.
pub open spec fn failed_on(
    l: EvalLedger,
    by_day: Seq<Vec<RawTrade>>,
    idx: Seq<int>,
    ax: Account,
    c: Conditions,
    j: int,
) -> bool {
    ||| eval_day(by_day[idx[j]]@, 0, j, l.eq[j], l.pk[j], 0, ax, c).blown
    ||| l.pk[j + 1] - l.eq[j + 1] > ax.dd
}

/// Whether an account is at its target at the close of day `j`, and consistent
/// where that is asked for.
pub open spec fn at_target_on(l: EvalLedger, ax: Account, j: int) -> bool {
    &&& l.eq[j + 1] >= ax.target
    &&& ax.eval_consistency ==> no_day_dominates(l.made, 0, j, l.eq[j + 1], ax)
}

/// Whether the evaluation goes on after day `j`.
pub open spec fn goes_on(
    l: EvalLedger,
    by_day: Seq<Vec<RawTrade>>,
    idx: Seq<int>,
    ax: Account,
    c: Conditions,
    j: int,
) -> bool {
    !failed_on(l, by_day, idx, ax, c, j) && !at_target_on(l, ax, j)
}

/// Whether a ledger is that of an evaluation over the given days: it begins at
/// zero, runs until the first day that fails or reaches the target or to the end
/// of the window, and passes exactly where that day reached the target without
/// failing.
pub open spec fn is_eval_ledger(
    l: EvalLedger,
    by_day: Seq<Vec<RawTrade>>,
    idx: Seq<int>,
    ax: Account,
    c: Conditions,
    outcome: Option<int>,
) -> bool {
    let n = l.made.len() as int;
    &&& l.eq.len() == n + 1
    &&& l.pk.len() == n + 1
    &&& l.eq[0] == 0
    &&& l.pk[0] == 0
    &&& 0 <= n
    &&& n <= c.max_days || n == 0
    &&& forall|j: int| 0 <= j < n ==> #[trigger] is_eval_row(l, by_day, idx, ax, c, j)
    &&& forall|j: int|
        0 <= j < n - 1 ==> #[trigger] goes_on(l, by_day, idx, ax, c, j)
    &&& match outcome {
        Some(d) => d == n && n > 0 && !failed_on(l, by_day, idx, ax, c, n - 1) && at_target_on(
            l,
            ax,
            n - 1,
        ),
        None => {
            ||| n > 0 && failed_on(l, by_day, idx, ax, c, n - 1)
            ||| n >= c.max_days && (n > 0 ==> !at_target_on(l, ax, n - 1))
        },
    }
}

proof fn lemma_total_push(s: Seq<int>, x: int)
    ensures
        total(s.push(x)) == total(s) + x,
{
    assert(s.push(x).drop_last() =~= s);
}

proof fn lemma_eval_ledger(
    by_day: Seq<Vec<RawTrade>>,
    idx: Seq<int>,
    day: int,
    ax: Account,
    c: Conditions,
    before: EvalLedger,
) -> (l: EvalLedger)
    requires
        ax.cons.den > 0,
        day == before.made.len(),
        before.eq.len() == day + 1,
        before.pk.len() == day + 1,
        before.eq[0] == 0,
        before.pk[0] == 0,
        day <= c.max_days || day == 0,
        before.eq[day] == total(before.made),
        forall|j: int| 0 <= j < day ==> #[trigger] is_eval_row(before, by_day, idx, ax, c, j),
        forall|j: int|
            0 <= j < day ==> #[trigger] goes_on(before, by_day, idx, ax, c, j),
    ensures
        is_eval_ledger(
            l,
            by_day,
            idx,
            ax,
            c,
            eval_run(
                by_day,
                idx,
                day,
                before.eq[day],
                before.pk[day],
                before.made,
                ax,
                c,
            ),
        ),
    decreases c.max_days - day,
{
    if day >= c.max_days {
        assert(day > 0 ==> goes_on(before, by_day, idx, ax, c, day - 1));
        before
    } else {
        let (eq, pk) = (before.eq[day], before.pk[day]);
        let d = eval_day(by_day[idx[day]]@, 0, day, eq, pk, 0, ax, c);
        let close = eq + d.dpnl;
        let peak = if close > d.pk {
            close
        } else {
            d.pk
        };
        let l = EvalLedger {
            eq: before.eq.push(close),
            pk: before.pk.push(peak),
            made: before.made.push(d.dpnl),
        };
        lemma_total_push(before.made, d.dpnl);
        assert(l.made.skip(0) =~= l.made);
        lemma_consistent(l.made, l.made, 0, close, ax);
        assert(is_eval_row(l, by_day, idx, ax, c, day));
        assert forall|j: int| 0 <= j < day implies #[trigger] is_eval_row(
            l,
            by_day,
            idx,
            ax,
            c,
            j,
        ) by {
            assert(is_eval_row(before, by_day, idx, ax, c, j));
        }
        assert forall|j: int| 0 <= j < day implies #[trigger] goes_on(
            l,
            by_day,
            idx,
            ax,
            c,
            j,
        ) by {
            assert(goes_on(before, by_day, idx, ax, c, j));
            if at_target_on(l, ax, j) && ax.eval_consistency {
                assert forall|i: int| 0 <= i <= j implies #[trigger] before.made[i] * ax.cons.den
                    <= ax.cons.num * before.eq[j + 1] by {
                    assert(l.made[i] == before.made[i]);
                }
            }
        }
        if failed_on(l, by_day, idx, ax, c, day) || at_target_on(l, ax, day) {
            l
        } else {
            assert(goes_on(l, by_day, idx, ax, c, day));
            lemma_eval_ledger(by_day, idx, day + 1, ax, c, l)
        }
    }
}

/// A simulated evaluation keeps a ledger: it starts at zero, each day makes what
/// its trades make, and it passes on the first close at the target, unless a close
/// more than the drawdown below the peak, or a failure within a day, came first.
pub proof fn an_evaluation_keeps_its_ledger(
    by_day: Seq<Vec<RawTrade>>,
    ax: Account,
    c: Conditions,
    block: int,
    base_seed: u64,
    sim: int,
) -> (l: EvalLedger)
    requires
        ax.cons.den > 0,
    ensures
        is_eval_ledger(
            l,
            by_day,
            path_days(
                path_seed(base_seed, sim as u64, CHALLENGE_TAG),
                by_day.len() as int,
                block,
                c.max_days as int,
            ),
            ax,
            c,
            challenge_path(by_day, ax, c, block, base_seed, sim),
        ),
{
    let idx = path_days(
        path_seed(base_seed, sim as u64, CHALLENGE_TAG),
        by_day.len() as int,
        block,
        c.max_days as int,
    );
    let start = EvalLedger { eq: seq![0int], pk: seq![0int], made: Seq::empty() };
    lemma_eval_ledger(by_day, idx, 0, ax, c, start)
}

proof fn lemma_eval_peak(
    trades: Seq<RawTrade>,
    day: int,
    eq: int,
    pk: int,
    ax: Account,
    c: Conditions,
)
    ensures
        eval_day(trades, 0, day, eq, pk, 0, ax, c).pk >= pk,
        ax.is_eod ==> eval_day(trades, 0, day, eq, pk, 0, ax, c).pk == pk,
{
    let marks = an_evaluation_day_follows_its_tape(trades, day, eq, pk, ax, c);
    lemma_peaks_rise(marks, trades, day, eq, ax, c, marks.len() - 1);
}

proof fn lemma_peaks_rise(
    marks: Seq<(int, int)>,
    trades: Seq<RawTrade>,
    day: int,
    eq: int,
    ax: Account,
    c: Conditions,
    j: int,
)
    requires
        is_eval_tape(marks, trades, 0, day, eq, ax, c),
        0 <= j < marks.len(),
    ensures
        marks[0].1 <= marks[j].1,
        ax.is_eod ==> marks[0].1 == marks[j].1,
    decreases j,
{
    if j > 0 {
        reveal(is_eval_step);
        lemma_peaks_rise(marks, trades, day, eq, ax, c, j - 1);
        let x = marks[j];
    }
}

proof fn lemma_peak_covers(
    l: EvalLedger,
    by_day: Seq<Vec<RawTrade>>,
    idx: Seq<int>,
    ax: Account,
    c: Conditions,
    outcome: Option<int>,
    i: int,
    j: int,
)
    requires
        is_eval_ledger(l, by_day, idx, ax, c, outcome),
        0 <= i <= j <= l.made.len(),
    ensures
        l.eq[i] <= l.pk[j],
    decreases j,
{
    if j > 0 {
        assert(is_eval_row(l, by_day, idx, ax, c, j - 1));
        lemma_eval_peak(by_day[idx[j - 1]]@, j - 1, l.eq[j - 1], l.pk[j - 1], ax, c);
        if i < j {
            lemma_peak_covers(l, by_day, idx, ax, c, outcome, i, j - 1);
        }
    }
}

/// An evaluation that passes never closed more than the drawdown below any earlier
/// close, or below where it began, on an end-of-day account as well as on an
/// intraday-trailing one; and it closed at the target on the day it passed and on
/// no day before, where consistency is not asked for.
pub proof fn a_pass_never_closed_below_its_drawdown(
    by_day: Seq<Vec<RawTrade>>,
    ax: Account,
    c: Conditions,
    block: int,
    base_seed: u64,
    sim: int,
) -> (closes: Seq<int>)
    requires
        ax.cons.den > 0,
        challenge_path(by_day, ax, c, block, base_seed, sim) is Some,
    ensures
        closes.len() == challenge_path(by_day, ax, c, block, base_seed, sim)->0 + 1,
        closes[0] == 0,
        forall|i: int, j: int|
            0 <= i <= j < closes.len() && 0 < j ==> #[trigger] closes[j] >= #[trigger] closes[i]
                - ax.dd,
        closes[closes.len() - 1] >= ax.target,
        !ax.eval_consistency ==> forall|j: int|
            1 <= j < closes.len() - 1 ==> #[trigger] closes[j] < ax.target,
{
    let idx = path_days(
        path_seed(base_seed, sim as u64, CHALLENGE_TAG),
        by_day.len() as int,
        block,
        c.max_days as int,
    );
    let outcome = challenge_path(by_day, ax, c, block, base_seed, sim);
    let l = an_evaluation_keeps_its_ledger(by_day, ax, c, block, base_seed, sim);
    let n = l.made.len() as int;
    assert forall|i: int, j: int| 0 <= i <= j < l.eq.len() && 0 < j implies #[trigger] l.eq[j]
        >= #[trigger] l.eq[i] - ax.dd by {
        lemma_peak_covers(l, by_day, idx, ax, c, outcome, i, j);
        assert(j < n ==> goes_on(l, by_day, idx, ax, c, j - 1));
    }
    assert forall|j: int| !ax.eval_consistency && 1 <= j < l.eq.len() - 1 implies
        #[trigger] l.eq[j] < ax.target by {
        assert(goes_on(l, by_day, idx, ax, c, j - 1));
    }
    l.eq
}

proof fn lemma_eod_peak(
    l: EvalLedger,
    by_day: Seq<Vec<RawTrade>>,
    idx: Seq<int>,
    ax: Account,
    c: Conditions,
    outcome: Option<int>,
    j: int,
) -> (i: int)
    requires
        is_eval_ledger(l, by_day, idx, ax, c, outcome),
        ax.is_eod,
        0 <= j <= l.made.len(),
    ensures
        0 <= i <= j,
        l.pk[j] == l.eq[i],
    decreases j,
{
    if j == 0 {
        0
    } else {
        assert(is_eval_row(l, by_day, idx, ax, c, j - 1));
        lemma_eval_peak(by_day[idx[j - 1]]@, j - 1, l.eq[j - 1], l.pk[j - 1], ax, c);
        if l.pk[j] == l.pk[j - 1] {
            lemma_eod_peak(l, by_day, idx, ax, c, outcome, j - 1)
        } else {
            j
        }
    }
}

/// On an end-of-day account the peak of the ledger is its highest close so far,
/// from zero on.
pub proof fn an_end_of_day_peak_is_the_highest_close(
    l: EvalLedger,
    by_day: Seq<Vec<RawTrade>>,
    idx: Seq<int>,
    ax: Account,
    c: Conditions,
    outcome: Option<int>,
    j: int,
)
    requires
        is_eval_ledger(l, by_day, idx, ax, c, outcome),
        ax.is_eod,
        0 <= j <= l.made.len(),
    ensures
        forall|i: int| 0 <= i <= j ==> #[trigger] l.eq[i] <= l.pk[j],
        exists|i: int| 0 <= i <= j && l.eq[i] == l.pk[j],
{
    assert forall|i: int| 0 <= i <= j implies #[trigger] l.eq[i] <= l.pk[j] by {
        lemma_peak_covers(l, by_day, idx, ax, c, outcome, i, j);
    }
    let i = lemma_eod_peak(l, by_day, idx, ax, c, outcome, j);
    assert(l.eq[i] == l.pk[j]);
}

// ---------------------------------------------------------------------------
// A day of the funded phase
// ---------------------------------------------------------------------------

/// The balance below which a funded account fails: $100 above where it began once
/// it had reached the safety net, and its drawdown below its peak before.
pub open spec fn floor_of(locked: bool, pk: int, ax: Account) -> int {
    if locked {
        ax.sb + 100_000_000
    } else {
        pk - ax.pa_dd
    }
}

/// Whether a trade takes what a funded day has made so far from one mark to the
/// next. The account trades up to its full size once it had reached the safety
/// net, and up to its starting size before.
#[verifier::opaque]
pub open spec fn is_funded_step(
    from: int,
    to: int,
    t: RawTrade,
    day: int,
    bal: int,
    pk: int,
    locked: bool,
    ax: Account,
    c: Conditions,
) -> bool {
    to == from + per_contract(t, c.evt_kill) * sized(
        t,
        bal - ax.sb,
        pk - ax.sb,
        ax.pa_dd as int,
        if locked {
            ax.pa_max as int
        } else {
            ax.pa_start as int
        },
        day,
        ax.pa_dd as int,
        c,
    )
}

/// Whether a trade ends a funded day.
pub open spec fn ends_funded_day(
    made: int,
    t: RawTrade,
    bal: int,
    pk: int,
    locked: bool,
    ax: Account,
    c: Conditions,
) -> bool {
    bal + made < floor_of(locked, pk, ax) || at_daily_limit(made, ax) || exceeds_limit(
        t,
        c.evt_kill,
    )
}

/// Whether a tape of marks, one before each trade and one after the last, follows
/// the trades of a funded day from the `first` on.
pub open spec fn is_funded_tape(
    marks: Seq<int>,
    trades: Seq<RawTrade>,
    first: int,
    day: int,
    bal: int,
    pk: int,
    locked: bool,
    ax: Account,
    c: Conditions,
) -> bool {
    &&& 1 <= marks.len()
    &&& first + marks.len() - 1 <= trades.len()
    &&& forall|j: int|
        1 <= j < marks.len() ==> is_funded_step(
            marks[j - 1],
            #[trigger] marks[j],
            trades[first + j - 1],
            day,
            bal,
            pk,
            locked,
            ax,
            c,
        )
}

/// Whether a tape ends its funded day as the rules say. No trade but the last takes
/// the balance below the floor, to the daily limit or beyond the tail limit; the
/// day stops short only at one that does. It fails the account below the floor,
/// and at the limit where that is a breach; where it is a cap, the day makes the
/// limit.
pub open spec fn funded_day_ends(
    marks: Seq<int>,
    trades: Seq<RawTrade>,
    first: int,
    bal: int,
    pk: int,
    locked: bool,
    ax: Account,
    c: Conditions,
    d: (int, bool),
) -> bool {
    let n = marks.len() - 1;
    let made = marks[n];
    let under = n > 0 && bal + made < floor_of(locked, pk, ax);
    let limit = n > 0 && at_daily_limit(made, ax);
    &&& forall|j: int|
        1 <= j < n ==> !ends_funded_day(
            #[trigger] marks[j],
            trades[first + j - 1],
            bal,
            pk,
            locked,
            ax,
            c,
        )
    &&& first + n == trades.len() || n > 0 && ends_funded_day(
        made,
        trades[first + n - 1],
        bal,
        pk,
        locked,
        ax,
        c,
    )
    &&& d.1 <==> under || limit && c.dll_is_breach
    &&& d.0 == if !under && limit && !c.dll_is_breach {
        -ax.dll as int
    } else {
        made
    }
}

#[verifier::opaque]
spec fn funded_from(
    trades: Seq<RawTrade>,
    i: int,
    day: int,
    bal: int,
    pk: int,
    locked: bool,
    dpnl: int,
    ax: Account,
    c: Conditions,
) -> (int, bool) {
    funded_day(trades, i, day, bal, pk, locked, dpnl, ax, c)
}

/// One trade of a funded day, and how the day goes on.
proof fn lemma_funded_step(
    trades: Seq<RawTrade>,
    i: int,
    day: int,
    bal: int,
    pk: int,
    locked: bool,
    dpnl: int,
    ax: Account,
    c: Conditions,
) -> (now: int)
    requires
        0 <= i < trades.len(),
    ensures
        is_funded_step(dpnl, now, trades[i], day, bal, pk, locked, ax, c),
        ({
            let d = funded_from(trades, i, day, bal, pk, locked, dpnl, ax, c);
            let under = bal + now < floor_of(locked, pk, ax);
            let limit = at_daily_limit(now, ax);
            if ends_funded_day(now, trades[i], bal, pk, locked, ax, c) {
                &&& d.1 <==> under || limit && c.dll_is_breach
                &&& d.0 == if !under && limit && !c.dll_is_breach {
                    -ax.dll as int
                } else {
                    now
                }
            } else {
                d == funded_from(trades, i + 1, day, bal, pk, locked, now, ax, c)
            }
        }),
{
    reveal(funded_from);
    reveal(is_funded_step);
    let t = trades[i];
    let cap = if locked {
        ax.pa_max as int
    } else {
        ax.pa_start as int
    };
    let cts = sized(
        t,
        bal - ax.sb,
        pk - ax.sb,
        ax.pa_dd as int,
        cap,
        day,
        ax.pa_dd as int,
        c,
    );
    a_trade_makes_its_result_on_each_contract(t, cts, c.evt_kill);
    dpnl + trade_result(t, cts, c.evt_kill)
}

#[verifier::spinoff_prover]
proof fn lemma_funded_tape(
    trades: Seq<RawTrade>,
    i: int,
    day: int,
    bal: int,
    pk: int,
    locked: bool,
    dpnl: int,
    ax: Account,
    c: Conditions,
) -> (marks: Seq<int>)
    requires
        0 <= i <= trades.len(),
    ensures
        is_funded_tape(marks, trades, i, day, bal, pk, locked, ax, c),
        marks[0] == dpnl,
        funded_day_ends(
            marks,
            trades,
            i,
            bal,
            pk,
            locked,
            ax,
            c,
            funded_from(trades, i, day, bal, pk, locked, dpnl, ax, c),
        ),
    decreases trades.len() - i,
{
    if i >= trades.len() {
        reveal(funded_from);
        seq![dpnl]
    } else {
        let now = lemma_funded_step(trades, i, day, bal, pk, locked, dpnl, ax, c);
        if ends_funded_day(now, trades[i], bal, pk, locked, ax, c) {
            let marks = seq![dpnl, now];
            marks
        } else {
            let rest = lemma_funded_tape(trades, i + 1, day, bal, pk, locked, now, ax, c);
            let marks = seq![dpnl] + rest;
            lemma_funded_tape_grows(marks, rest, trades, i, day, bal, pk, locked, ax, c);
            assert forall|j: int| 1 <= j < marks.len() - 1 implies !ends_funded_day(
                #[trigger] marks[j],
                trades[i + j - 1],
                bal,
                pk,
                locked,
                ax,
                c,
            ) by {
                assert(marks[j] == rest[j - 1]);
            }
            let n = rest.len() - 1;
            assert(marks[n + 1] == rest[n]);
            if n == 0 {
                assert(marks[1] == now);
                assert(!(bal + now < floor_of(locked, pk, ax)) && !at_daily_limit(now, ax));
            }
            marks
        }
    }
}

proof fn lemma_funded_tape_grows(
    marks: Seq<int>,
    rest: Seq<int>,
    trades: Seq<RawTrade>,
    i: int,
    day: int,
    bal: int,
    pk: int,
    locked: bool,
    ax: Account,
    c: Conditions,
)
    requires
        is_funded_tape(rest, trades, i + 1, day, bal, pk, locked, ax, c),
        marks.len() == rest.len() + 1,
        forall|j: int| 1 <= j < marks.len() ==> #[trigger] marks[j] == rest[j - 1],
        is_funded_step(marks[0], rest[0], trades[i], day, bal, pk, locked, ax, c),
    ensures
        is_funded_tape(marks, trades, i, day, bal, pk, locked, ax, c),
{
    assert forall|j: int| 1 <= j < marks.len() implies is_funded_step(
        marks[j - 1],
        #[trigger] marks[j],
        trades[i + j - 1],
        day,
        bal,
        pk,
        locked,
        ax,
        c,
    ) by {
        if j > 1 {
            let x = rest[j - 1];
            assert(marks[j - 1] == rest[j - 2]);
        }
    }
}

/// A funded day follows its tape of trades from the first on.
pub proof fn a_funded_day_follows_its_tape(
    trades: Seq<RawTrade>,
    day: int,
    bal: int,
    pk: int,
    locked: bool,
    ax: Account,
    c: Conditions,
) -> (marks: Seq<int>)
    ensures
        is_funded_tape(marks, trades, 0, day, bal, pk, locked, ax, c),
        marks[0] == 0,
        funded_day_ends(
            marks,
            trades,
            0,
            bal,
            pk,
            locked,
            ax,
            c,
            funded_day(trades, 0, day, bal, pk, locked, 0, ax, c),
        ),
{
    reveal(funded_from);
    lemma_funded_tape(trades, 0, day, bal, pk, locked, 0, ax, c)
}

// ---------------------------------------------------------------------------
// A funded account
// ---------------------------------------------------------------------------

/// One day in the ledger of a funded account.
pub struct LedgerDay {
    /// What the day made.
    pub made: int,
    /// Balance and peak before the day, and whether the safety net had been
    /// reached.
    pub bal: int,
    pub pk: int,
    pub locked: bool,
    /// Everything withdrawn before the day, and in how many withdrawals.
    pub ext: int,
    pub step: int,
    /// The first day since the last withdrawal, and of the days from it up to this
    /// one: how many qualify, and what they made together.
    pub since: int,
    pub qualifying: int,
    pub run: int,
    /// Balance, peak and lock at the close, before any withdrawal.
    pub close: int,
    pub top: int,
    pub lock: bool,
    /// What was withdrawn at the close.
    pub paid: int,
}

/// Whether a day's close follows from what it made.
pub open spec fn closes_right(r: LedgerDay, ax: Account) -> bool {
    &&& r.close == r.bal + r.made
    &&& r.top == if r.close > r.pk {
        r.close
    } else {
        r.pk
    }
    &&& r.lock <==> r.locked || r.top >= ax.sn
}

/// Whether a funded account failed on a day: within it, or with a close below the
/// floor.
pub open spec fn fails_on(
    r: LedgerDay,
    by_day: Seq<Vec<RawTrade>>,
    idx: Seq<int>,
    ax: Account,
    c: Conditions,
    j: int,
) -> bool {
    ||| funded_day(by_day[idx[j]]@, 0, j, r.bal, r.pk, r.locked, 0, ax, c).1
    ||| r.close < floor_of(r.lock, r.top, ax)
}

/// Whether the account may withdraw at the close of row `j`: enough qualifying days
/// since the last withdrawal, none of which dominates, and at least $500 above the
/// safety net on a rung of at least as much.
pub open spec fn may_withdraw(rows: Seq<LedgerDay>, ax: Account, j: int) -> bool {
    let r = rows[j];
    &&& r.qualifying >= ax.qdays
    &&& r.step < 6
    &&& r.run > 0
    &&& forall|i: int|
        r.since <= i <= j ==> (#[trigger] rows[i]).made * ax.cons.den <= ax.cons.num * r.run
    &&& r.close - ax.sn >= 500_000_000
    &&& ax.ladder@[r.step] >= 500_000_000
}

/// Whether row `j` stands as the trades of its day say.
pub open spec fn is_funded_row(
    rows: Seq<LedgerDay>,
    by_day: Seq<Vec<RawTrade>>,
    idx: Seq<int>,
    ax: Account,
    c: Conditions,
    j: int,
) -> bool {
    let r = rows[j];
    &&& r.made == funded_day(by_day[idx[j]]@, 0, j, r.bal, r.pk, r.locked, 0, ax, c).0
    &&& closes_right(r, ax)
    &&& 0 <= r.since <= j
    &&& 0 <= r.step < 6
    &&& fails_on(r, by_day, idx, ax, c, j) ==> r.paid == 0
    &&& !fails_on(r, by_day, idx, ax, c, j) ==> if may_withdraw(rows, ax, j) {
        // The excess over the safety net, up to the rung of the ladder.
        &&& r.paid <= r.close - ax.sn
        &&& r.paid <= ax.ladder@[r.step]
        &&& r.paid == r.close - ax.sn || r.paid == ax.ladder@[r.step]
    } else {
        r.paid == 0
    }
}

/// Whether row `j` carries on from the row before, or from a new account.
pub open spec fn carries_on(rows: Seq<LedgerDay>, ax: Account, j: int) -> bool {
    let r = rows[j];
    let qualifies = if r.made >= ax.qmin {
        1int
    } else {
        0
    };
    if j == 0 {
        &&& r.bal == ax.sb
        &&& r.pk == ax.sb
        &&& !r.locked
        &&& r.ext == 0
        &&& r.step == 0
        &&& r.since == 0
        &&& r.qualifying == qualifies
        &&& r.run == r.made
    } else {
        let q = rows[j - 1];
        &&& r.bal == q.close - q.paid
        &&& r.pk == q.top
        &&& r.locked == q.lock
        &&& r.ext == q.ext + q.paid
        &&& if q.paid > 0 {
            &&& r.step == q.step + 1
            &&& r.since == j
            &&& r.qualifying == qualifies
            &&& r.run == r.made
        } else {
            &&& r.step == q.step
            &&& r.since == q.since
            &&& r.qualifying == q.qualifying + qualifies
            &&& r.run == q.run + r.made
        }
    }
}

/// Whether a funded account is done after row `j` without having failed: it made
/// its sixth withdrawal.
pub open spec fn done_on(r: LedgerDay) -> bool {
    r.paid > 0 && r.step == 5
}

/// Whether a ledger is that of a funded account over the given days: from the
/// starting balance to the failure, the sixth withdrawal or the end of the
/// horizon.
pub open spec fn is_funded_ledger(
    rows: Seq<LedgerDay>,
    by_day: Seq<Vec<RawTrade>>,
    idx: Seq<int>,
    ax: Account,
    c: Conditions,
    p: FundedPath,
) -> bool {
    let n = rows.len() as int;
    &&& n <= c.max_days || n == 0
    &&& forall|j: int| 0 <= j < n ==> #[trigger] is_funded_row(rows, by_day, idx, ax, c, j)
    &&& forall|j: int| 0 <= j < n ==> #[trigger] carries_on(rows, ax, j)
    &&& forall|j: int|
        0 <= j < n - 1 ==> !fails_on(#[trigger] rows[j], by_day, idx, ax, c, j) && !done_on(rows[j])
    &&& n == 0 ==> c.max_days <= 0 && !p.blown && p.ext == 0 && p.max_dd == 0
    &&& n > 0 ==> {
        &&& p.blown <==> fails_on(rows[n - 1], by_day, idx, ax, c, n - 1)
        &&& p.blown || done_on(rows[n - 1]) || n == c.max_days
        &&& p.ext == rows[n - 1].ext + rows[n - 1].paid
    }
    &&& n > 0 ==> p.days_held == n
    &&& p.max_dd >= 0
    &&& forall|j: int| 0 <= j < n ==> p.max_dd >= (#[trigger] rows[j]).top - rows[j].close
    &&& p.max_dd > 0 ==> exists|j: int|
        0 <= j < n && p.max_dd == (#[trigger] rows[j]).top - rows[j].close
}

/// What each day of a ledger made.
pub open spec fn days_made(rows: Seq<LedgerDay>) -> Seq<int> {
    rows.map_values(|r: LedgerDay| r.made)
}

/// The first day since the last withdrawal, after the given rows.
spec fn since_after(rows: Seq<LedgerDay>) -> int {
    if rows.len() == 0 {
        0
    } else if rows.last().paid > 0 {
        rows.len() as int
    } else {
        rows.last().since
    }
}

/// Whether an account stands as the given rows leave it.
spec fn stands_after(st: FundedState, rows: Seq<LedgerDay>, ax: Account) -> bool {
    let n = rows.len() as int;
    let q = rows.last();
    let again = n == 0 || q.paid > 0;
    &&& 0 <= since_after(rows) <= n
    &&& st.since == days_made(rows).skip(since_after(rows))
    &&& total(st.since) == if again {
        0
    } else {
        q.run
    }
    &&& st.qd == if again {
        0
    } else {
        q.qualifying
    }
    &&& n == 0 ==> st == newly_funded(ax)
    &&& n > 0 ==> {
        &&& st.bal == q.close - q.paid
        &&& st.pk == q.top
        &&& st.locked == q.lock
        &&& st.ext == q.ext + q.paid
        &&& st.step == if q.paid > 0 {
            q.step + 1
        } else {
            q.step
        }
    }
    &&& 0 <= st.step <= 6
    &&& st.max_dd >= 0
    &&& forall|j: int| 0 <= j < n ==> st.max_dd >= (#[trigger] rows[j]).top - rows[j].close
    &&& st.max_dd > 0 ==> exists|j: int|
        0 <= j < n && st.max_dd == (#[trigger] rows[j]).top - rows[j].close
}

/// The row of the day after the given ones.
spec fn next_row(
    st: FundedState,
    rows: Seq<LedgerDay>,
    dpnl: int,
    failed: bool,
    ax: Account,
) -> LedgerDay {
    let close = funded_close(st, dpnl, ax);
    let next = after_payout(close, ax);
    LedgerDay {
        made: dpnl,
        bal: st.bal,
        pk: st.pk,
        locked: st.locked,
        ext: st.ext,
        step: st.step,
        since: since_after(rows),
        qualifying: close.qd,
        run: total(close.since),
        close: close.bal,
        top: close.pk,
        lock: close.locked,
        paid: if failed {
            0
        } else {
            next.ext - close.ext
        },
    }
}

proof fn lemma_next_row(
    st: FundedState,
    rows: Seq<LedgerDay>,
    by_day: Seq<Vec<RawTrade>>,
    idx: Seq<int>,
    ax: Account,
    c: Conditions,
    j: int,
    d: (int, bool),
    close: FundedState,
    failed: bool,
    r: LedgerDay,
    now: Seq<LedgerDay>,
)
    requires
        ax.cons.den > 0,
        stands_after(st, rows, ax),
        st.step < 6,
        j == rows.len(),
        d == funded_day(by_day[idx[j]]@, 0, j, st.bal, st.pk, st.locked, 0, ax, c),
        close == funded_close(st, d.0, ax),
        failed == (d.1 || close.bal < floor_of(close.locked, close.pk, ax)),
        r == next_row(st, rows, d.0, failed, ax),
        now == rows.push(r),
    ensures
        is_funded_row(now, by_day, idx, ax, c, j),
        carries_on(now, ax, j),
        fails_on(r, by_day, idx, ax, c, j) == failed,
        !failed ==> stands_after(after_payout(close, ax), now, ax),
        close.max_dd >= 0,
        forall|i: int| 0 <= i <= j ==> close.max_dd >= (#[trigger] now[i]).top - now[i].close,
        close.max_dd > 0 ==> exists|i: int|
            0 <= i <= j && close.max_dd == (#[trigger] now[i]).top - now[i].close,
{
    let since = since_after(rows);
    lemma_total_push(st.since, d.0);
    assert(days_made(now) =~= days_made(rows).push(d.0));
    assert(close.since =~= days_made(now).skip(since));
    lemma_consistent(close.since, days_made(now), since, r.run, ax);
    assert(no_day_dominates(days_made(now), since, j, r.run, ax) <==> r.run > 0 && forall|i: int|
        since <= i <= j ==> (#[trigger] now[i]).made * ax.cons.den <= ax.cons.num * r.run) by {
        assert forall|i: int| 0 <= i <= j implies (#[trigger] now[i]).made == days_made(
            now,
        )[i] by {}
        assert forall|i: int| 0 <= i <= j implies #[trigger] days_made(now)[i]
            == now[i].made by {}
    }
    if st.max_dd > 0 {
        let k = choose|k: int|
            0 <= k < j && st.max_dd == (#[trigger] rows[k]).top - rows[k].close;
        assert(now[k] == rows[k]);
    }
    assert(now[j] == r);
    assert forall|i: int| 0 <= i <= j implies close.max_dd >= (#[trigger] now[i]).top
        - now[i].close by {
        if i < j {
            assert(now[i] == rows[i]);
        }
    }
    assert(total(Seq::<int>::empty()) == 0);
    assert(days_made(now).skip(j + 1) =~= Seq::<int>::empty());
    assert(close.max_dd > 0 ==> exists|i: int|
        0 <= i <= j && close.max_dd == (#[trigger] now[i]).top - now[i].close) by {
        if st.max_dd > 0 && close.max_dd == st.max_dd {
            let k = choose|k: int|
                0 <= k < j && st.max_dd == (#[trigger] rows[k]).top - rows[k].close;
            assert(now[k] == rows[k]);
        } else {
            assert(now[j] == r);
        }
    }
    assert(carries_on(now, ax, j));
    assert(closes_right(r, ax));
    assert(fails_on(r, by_day, idx, ax, c, j) == failed);
    assert(may_withdraw(now, ax, j) == withdraws(close, ax));
    assert(is_funded_row(now, by_day, idx, ax, c, j));
    if !failed {
        let next = after_payout(close, ax);
        assert(now.last() == r);
        assert(next.since =~= days_made(now).skip(since_after(now)));
        assert(stands_after(next, now, ax));
    }
}

proof fn lemma_funded_ledger(
    by_day: Seq<Vec<RawTrade>>,
    idx: Seq<int>,
    day: int,
    st: FundedState,
    ax: Account,
    c: Conditions,
    rows: Seq<LedgerDay>,
) -> (r: Seq<LedgerDay>)
    requires
        ax.cons.den > 0,
        day == rows.len(),
        day <= c.max_days || day == 0,
        stands_after(st, rows, ax),
        forall|j: int| 0 <= j < day ==> #[trigger] is_funded_row(rows, by_day, idx, ax, c, j),
        forall|j: int| 0 <= j < day ==> #[trigger] carries_on(rows, ax, j),
        forall|j: int|
            0 <= j < day ==> !fails_on(#[trigger] rows[j], by_day, idx, ax, c, j),
        forall|j: int| 0 <= j < day - 1 ==> !done_on(#[trigger] rows[j]),
    ensures
        is_funded_ledger(r, by_day, idx, ax, c, funded_run(by_day, idx, day, st, ax, c)),
    decreases c.max_days - day,
{
    if day >= c.max_days || st.step >= 6 {
        if day > 0 {
            let q = rows[day - 1];
            assert(is_funded_row(rows, by_day, idx, ax, c, day - 1));
        }
        rows
    } else {
        let d = funded_day(by_day[idx[day]]@, 0, day, st.bal, st.pk, st.locked, 0, ax, c);
        let close = funded_close(st, d.0, ax);
        let failed = d.1 || close.bal < floor_of(close.locked, close.pk, ax);
        let row = next_row(st, rows, d.0, failed, ax);
        let now = rows.push(row);
        lemma_next_row(st, rows, by_day, idx, ax, c, day, d, close, failed, row, now);
        lemma_rows_stay(rows, row, by_day, idx, ax, c);
        if day > 0 {
            let q = rows[day - 1];
            assert(!done_on(q));
        }
        if failed {
            assert(now[day] == row);
            now
        } else {
            lemma_funded_ledger(by_day, idx, day + 1, after_payout(close, ax), ax, c, now)
        }
    }
}

proof fn lemma_rows_stay(
    rows: Seq<LedgerDay>,
    row: LedgerDay,
    by_day: Seq<Vec<RawTrade>>,
    idx: Seq<int>,
    ax: Account,
    c: Conditions,
)
    requires
        forall|j: int|
            0 <= j < rows.len() ==> #[trigger] is_funded_row(rows, by_day, idx, ax, c, j),
        forall|j: int| 0 <= j < rows.len() ==> #[trigger] carries_on(rows, ax, j),
    ensures
        forall|j: int|
            0 <= j < rows.len() ==> #[trigger] is_funded_row(
                rows.push(row),
                by_day,
                idx,
                ax,
                c,
                j,
            ),
        forall|j: int| 0 <= j < rows.len() ==> #[trigger] carries_on(rows.push(row), ax, j),
{
    let now = rows.push(row);
    assert forall|j: int| 0 <= j < rows.len() implies #[trigger] is_funded_row(
        now,
        by_day,
        idx,
        ax,
        c,
        j,
    ) by {
        assert(is_funded_row(rows, by_day, idx, ax, c, j));
        assert(now[j] == rows[j]);
        assert(may_withdraw(now, ax, j) == may_withdraw(rows, ax, j)) by {
            assert forall|i: int| 0 <= i <= j implies #[trigger] now[i] == rows[i] by {}
            assert forall|i: int| 0 <= i <= j implies #[trigger] rows[i] == now[i] by {}
        }
    }
    assert forall|j: int| 0 <= j < rows.len() implies #[trigger] carries_on(now, ax, j) by {
        assert(carries_on(rows, ax, j));
        assert(now[j] == rows[j]);
        if j > 0 {
            assert(now[j - 1] == rows[j - 1]);
        }
    }
}

/// A simulated funded account keeps a ledger: it starts with its balance, each day
/// makes what its trades make, a withdrawal leaves the account and is counted
/// once, and the path ends with the failure, the sixth withdrawal or the horizon.
pub proof fn a_funded_account_keeps_its_ledger(
    by_day: Seq<Vec<RawTrade>>,
    ax: Account,
    c: Conditions,
    block: int,
    base_seed: u64,
    sim: int,
) -> (rows: Seq<LedgerDay>)
    requires
        ax.cons.den > 0,
    ensures
        is_funded_ledger(
            rows,
            by_day,
            path_days(
                path_seed(base_seed, sim as u64, FUNDED_TAG),
                by_day.len() as int,
                block,
                c.max_days as int,
            ),
            ax,
            c,
            funded_path(by_day, ax, c, block, base_seed, sim),
        ),
{
    let idx = path_days(
        path_seed(base_seed, sim as u64, FUNDED_TAG),
        by_day.len() as int,
        block,
        c.max_days as int,
    );
    let none = Seq::<LedgerDay>::empty();
    assert(days_made(none).skip(0) =~= Seq::<int>::empty());
    lemma_funded_ledger(by_day, idx, 0, newly_funded(ax), ax, c, none)
}

/// Money is conserved: before every day, the balance and everything withdrawn
/// together are the starting balance and what the days before it made.
pub proof fn money_is_conserved(
    rows: Seq<LedgerDay>,
    by_day: Seq<Vec<RawTrade>>,
    idx: Seq<int>,
    ax: Account,
    c: Conditions,
    p: FundedPath,
    j: int,
)
    requires
        is_funded_ledger(rows, by_day, idx, ax, c, p),
        0 <= j < rows.len(),
    ensures
        rows[j].bal + rows[j].ext == ax.sb + total(days_made(rows).take(j)),
        rows[j].close + rows[j].ext == ax.sb + total(days_made(rows).take(j + 1)),
    decreases j,
{
    assert(carries_on(rows, ax, j));
    assert(is_funded_row(rows, by_day, idx, ax, c, j));
    let made = days_made(rows);
    assert(made.take(j + 1).drop_last() =~= made.take(j));
    if j > 0 {
        money_is_conserved(rows, by_day, idx, ax, c, p, j - 1);
    } else {
        assert(made.take(0) =~= Seq::<int>::empty());
    }
}

proof fn lemma_last_withdrawal(
    rows: Seq<LedgerDay>,
    by_day: Seq<Vec<RawTrade>>,
    idx: Seq<int>,
    ax: Account,
    c: Conditions,
    p: FundedPath,
    j: int,
) -> (k: int)
    requires
        is_funded_ledger(rows, by_day, idx, ax, c, p),
        0 <= j < rows.len(),
        rows[j].ext + rows[j].paid > 0,
    ensures
        0 <= k <= j,
        rows[k].paid > 0,
        rows[k].ext + rows[k].paid == rows[j].ext + rows[j].paid,
    decreases j,
{
    assert(is_funded_row(rows, by_day, idx, ax, c, j));
    assert(carries_on(rows, ax, j));
    if rows[j].paid > 0 {
        j
    } else {
        lemma_last_withdrawal(rows, by_day, idx, ax, c, p, j - 1)
    }
}

/// A funded account never extracts more than it earned above its safety net: what
/// a path withdrew is at most what its days up to the last withdrawal made, less
/// the distance from the starting balance to the net.
pub proof fn nothing_is_withdrawn_that_was_not_earned(
    by_day: Seq<Vec<RawTrade>>,
    ax: Account,
    c: Conditions,
    block: int,
    base_seed: u64,
    sim: int,
) -> (r: (Seq<LedgerDay>, int))
    requires
        ax.cons.den > 0,
        funded_path(by_day, ax, c, block, base_seed, sim).ext > 0,
    ensures
        ({
            let p = funded_path(by_day, ax, c, block, base_seed, sim);
            &&& is_funded_ledger(
                r.0,
                by_day,
                path_days(
                    path_seed(base_seed, sim as u64, FUNDED_TAG),
                    by_day.len() as int,
                    block,
                    c.max_days as int,
                ),
                ax,
                c,
                p,
            )
            &&& 0 < r.1 <= p.days_held
            &&& p.ext <= total(days_made(r.0).take(r.1)) - (ax.sn - ax.sb)
        }),
{
    let p = funded_path(by_day, ax, c, block, base_seed, sim);
    let idx = path_days(
        path_seed(base_seed, sim as u64, FUNDED_TAG),
        by_day.len() as int,
        block,
        c.max_days as int,
    );
    let rows = a_funded_account_keeps_its_ledger(by_day, ax, c, block, base_seed, sim);
    let k = lemma_last_withdrawal(rows, by_day, idx, ax, c, p, rows.len() - 1);
    money_is_conserved(rows, by_day, idx, ax, c, p, k);
    assert(is_funded_row(rows, by_day, idx, ax, c, k));
    (rows, k + 1)
}

} // verus!
