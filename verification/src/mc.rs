//! Monte Carlo simulation of the evaluation and funded phases.
//!
//! This is the part of the engine that produces the objective: the probability
//! of passing an evaluation, and the distribution of what a funded account
//! extracts.
//!
//! * A tail-capped loss runs through the intraday drawdown check like any other.
//! * The daily loss limit is a rule breach or a cap on the day, as configured.
//! * The evaluation length is a parameter.

use rand::rngs::StdRng;
use vstd::prelude::*;
use vstd::utf8::encode_utf8;

use crate::draws::{draw_below, repeated, rng_from_seed, seeded_draw, upcoming};
use crate::num::{
    count_where, ints, largest, lemma_in_order_bounds, lemma_nearest_bound, nearest, quantile,
    quantile_of_sorted, round_div, sorted, total, Ratio,
};
use crate::parallel::parallel_map;
use crate::text::views;
use crate::types::{
    calc_cts, contracts, Account, RawTrade, SizeInputs, MAX_AMOUNT, MAX_CTS, MAX_PNL,
    MAX_POINT_VALUE,
};

verus! {

/// Trading days per calendar month, for converting a simulated funded duration
/// into the number of monthly fees actually incurred.
pub const TRADING_DAYS_PER_MONTH: i64 = 21;

/// Most trades in one day that the simulators admit.
pub const MAX_DAY_TRADES: usize = 1_000;

/// Most paths that one simulation runs.
pub const MAX_SIMS: usize = 2_147_483_647;

#[derive(Clone, Copy, Debug)]
pub struct McConfig {
    pub n_challenge_sims: usize,
    pub n_funded_sims: usize,
    /// Maximum trading days allowed to reach the evaluation target.
    pub eval_max_days: usize,
    /// Maximum trading days simulated in the funded phase.
    pub funded_max_days: usize,
    pub block_days: usize,
    /// True if hitting the daily loss limit fails the account outright.
    pub dll_is_breach: bool,
}

/// What makes a simulation setting unusable.
#[derive(Clone, Copy, Debug, PartialEq, Eq, Structural)]
pub enum McConfigError {
    /// `--block-days` is 0, which would never terminate.
    BlockDays,
    /// `--eval-max-days` is 0.
    EvalMaxDays,
    /// `--funded-max-days` is 0.
    FundedMaxDays,
    /// `--n-sims` is 0.
    ChallengeSims,
}

impl McConfig {
    /// The first setting that is unusable, if there is one.
    pub open spec fn fault(self) -> Option<McConfigError> {
        if self.block_days == 0 {
            Some(McConfigError::BlockDays)
        } else if self.eval_max_days == 0 {
            Some(McConfigError::EvalMaxDays)
        } else if self.funded_max_days == 0 {
            Some(McConfigError::FundedMaxDays)
        } else if self.n_challenge_sims == 0 {
            Some(McConfigError::ChallengeSims)
        } else {
            None
        }
    }

    /// Reject a setting that no simulation can run with.
    pub fn validate(&self) -> (r: Result<(), McConfigError>)
        ensures
            match r {
                Ok(_) => self.fault() is None,
                Err(e) => self.fault() == Some(e),
            },
    {
        if self.block_days < 1 {
            Err(McConfigError::BlockDays)
        } else if self.eval_max_days < 1 {
            Err(McConfigError::EvalMaxDays)
        } else if self.funded_max_days < 1 {
            Err(McConfigError::FundedMaxDays)
        } else if self.n_challenge_sims < 1 {
            Err(McConfigError::ChallengeSims)
        } else {
            Ok(())
        }
    }
}

// ---------------------------------------------------------------------------
// Block bootstrap
// ---------------------------------------------------------------------------

/// Blocks of `block` days that hold `want` days.
pub open spec fn blocks_needed(want: int, block: int) -> int {
    (want + block - 1) / block
}

/// The day at position `j` of a circular block bootstrap whose blocks start at
/// the given days.
pub open spec fn bootstrap_day(starts: spec_fn(nat) -> nat, n: int, block: int, j: int) -> int {
    (starts((j / block) as nat) + j % block) % n
}

/// Circular block bootstrap of day indices: one start per block of `block`
/// days, each block running on from its start and past the last day to the
/// first.
pub fn draw_days(rng: &mut StdRng, n_days: usize, block: usize, want: usize) -> (idx: Vec<usize>)
    requires
        block >= 1,
        n_days >= 1,
    ensures
        idx@.len() == want,
        forall|j: int|
            0 <= j < want ==> #[trigger] idx@[j] == bootstrap_day(
                |b: nat| upcoming(*old(rng))[repeated(n_days as nat, b + 1)],
                n_days as int,
                block as int,
                j,
            ),
        forall|j: int| 0 <= j < want ==> #[trigger] idx@[j] < n_days,
        forall|s: Seq<nat>|
            s.len() > 0 ==> #[trigger] upcoming(*final(rng))[s] == upcoming(*old(rng))[repeated(
                n_days as nat,
                blocks_needed(want as int, block as int) as nat,
            ) + s],
{
    let mut idx: Vec<usize> = Vec::new();
    let ghost starts = |b: nat| upcoming(*old(rng))[repeated(n_days as nat, b + 1)];
    let ghost mut b: int = 0;
    proof {
        assert(blocks_needed(0, block as int) == 0) by (nonlinear_arith)
            requires
                block >= 1,
        ;
        assert forall|s: Seq<nat>| #[trigger] upcoming(*rng)[s] == upcoming(*old(rng))[repeated(
            n_days as nat,
            0,
        ) + s] by {
            assert(repeated(n_days as nat, 0) + s =~= s);
        }
    }
    while idx.len() < want
        invariant
            block >= 1,
            n_days >= 1,
            idx@.len() <= want,
            b >= 0,
            idx@.len() == b * block || (idx@.len() == want && (b - 1) * block < want <= b * block),
            starts == (|b: nat| upcoming(*old(rng))[repeated(n_days as nat, b + 1)]),
            forall|j: int|
                0 <= j < idx@.len() ==> #[trigger] idx@[j] == bootstrap_day(
                    starts,
                    n_days as int,
                    block as int,
                    j,
                ),
            forall|j: int| 0 <= j < idx@.len() ==> #[trigger] idx@[j] < n_days,
            forall|s: Seq<nat>|
                s.len() > 0 ==> #[trigger] upcoming(*rng)[s] == upcoming(*old(rng))[repeated(
                    n_days as nat,
                    b as nat,
                ) + s],
        decreases want - idx@.len(),
    {
        let start: usize = draw_below(rng, n_days as u64) as usize;
        proof {
            let one = seq![n_days as nat];
            let past = repeated(n_days as nat, b as nat);
            assert(past + one =~= repeated(n_days as nat, b as nat + 1));
            assert(start == starts(b as nat));
            assert forall|s: Seq<nat>| s.len() > 0 implies #[trigger] upcoming(*rng)[s]
                == upcoming(*old(rng))[repeated(n_days as nat, b as nat + 1) + s] by {
                assert(past + (one + s) =~= repeated(n_days as nat, b as nat + 1) + s);
            }
        }
        let mut k: usize = 0;
        while k < block && idx.len() < want
            invariant
                block >= 1,
                n_days >= 1,
                start < n_days,
                start == starts(b as nat),
                b >= 0,
                k <= block,
                idx@.len() == b * block + k,
                idx@.len() <= want,
                forall|j: int|
                    0 <= j < idx@.len() ==> #[trigger] idx@[j] == bootstrap_day(
                        starts,
                        n_days as int,
                        block as int,
                        j,
                    ),
                forall|j: int| 0 <= j < idx@.len() ==> #[trigger] idx@[j] < n_days,
            decreases block - k,
        {
            let d: u128 = (start as u128 + k as u128) % (n_days as u128);
            proof {
                let j = b * block + k;
                assert(j / block as int == b && j % block as int == k) by {
                    vstd::arithmetic::div_mod::lemma_fundamental_div_mod_converse(
                        j,
                        block as int,
                        b,
                        k as int,
                    );
                }
                assert(d < n_days);
            }
            idx.push(d as usize);
            k = k + 1;
        }
        proof {
            assert((b + 1) * block == b * block + block) by (nonlinear_arith);
            b = b + 1;
        }
    }
    proof {
        let want_i = want as int;
        let bl = block as int;
        assert(b == blocks_needed(want_i, bl)) by {
            if b == 0 {
                assert(want_i == 0) by (nonlinear_arith)
                    requires
                        b == 0,
                        want_i == b * bl || want_i <= b * bl,
                        want_i >= 0,
                ;
            } else {
                assert((b - 1) * bl < want_i <= b * bl) by (nonlinear_arith)
                    requires
                        want_i == b * bl || (b - 1) * bl < want_i <= b * bl,
                        bl >= 1,
                ;
                let r = want_i + bl - 1 - b * bl;
                assert(0 <= r < bl) by (nonlinear_arith)
                    requires
                        r == want_i + bl - 1 - b * bl,
                        (b - 1) * bl < want_i <= b * bl,
                ;
                vstd::arithmetic::div_mod::lemma_fundamental_div_mod_converse(
                    want_i + bl - 1,
                    bl,
                    b,
                    r,
                );
            }
        }
    }
    idx
}

/// The seed of one simulated path.
pub open spec fn path_seed(base: u64, sim: u64, tag: u64) -> u64 {
    base ^ sim.wrapping_mul(0x9E37_79B9_7F4A_7C15) ^ tag
}

/// Marks the seeds of the evaluation phase.
pub const CHALLENGE_TAG: u64 = 0x4348_414C_4C55;

/// Marks the seeds of the funded phase.
pub const FUNDED_TAG: u64 = 0x4655_4E44_4544;

/// The days that a path with the given seed trades, in order.
pub open spec fn path_days(seed: u64, n: int, block: int, want: int) -> Seq<int> {
    Seq::new(
        want as nat,
        |j: int|
            bootstrap_day(|b: nat| seeded_draw(seed, repeated(n as nat, b + 1)), n, block, j),
    )
}

fn draw_path(seed: u64, n_days: usize, block: usize, want: usize) -> (idx: Vec<usize>)
    requires
        block >= 1,
        n_days >= 1,
    ensures
        idx@.map_values(|i: usize| i as int) == path_days(
            seed,
            n_days as int,
            block as int,
            want as int,
        ),
        idx@.len() == want,
        forall|j: int| 0 <= j < want ==> #[trigger] idx@[j] < n_days,
{
    let mut rng: StdRng = rng_from_seed(seed);
    let ghost fresh = rng;
    let idx: Vec<usize> = draw_days(&mut rng, n_days, block, want);
    proof {
        let want_seq = path_days(seed, n_days as int, block as int, want as int);
        assert forall|j: int| 0 <= j < want implies idx@[j] == want_seq[j] by {
            let b = (j / block as int) as nat;
            assert(upcoming(fresh)[repeated(n_days as nat, b + 1)] == seeded_draw(
                seed,
                repeated(n_days as nat, b + 1),
            ));
        }
    }
    idx
}

// ---------------------------------------------------------------------------
// One trade, one rule book
// ---------------------------------------------------------------------------

/// What stays fixed over one simulated phase.
#[derive(Clone, Copy, Debug)]
pub struct Conditions {
    /// Risk geometry.
    pub rg: usize,
    /// Dollars per point.
    pub pv: i64,
    pub long_wr: Ratio,
    pub short_wr: Ratio,
    /// One-contract loss beyond which a trade is capped and ends its day;
    /// `None` when the tail sets no such limit.
    pub evt_kill: Option<i64>,
    /// True if hitting the daily loss limit fails the account outright.
    pub dll_is_breach: bool,
    /// Days that the phase runs at most.
    pub max_days: i32,
}

impl Conditions {
    pub open spec fn in_range(self) -> bool {
        &&& -MAX_POINT_VALUE <= self.pv <= MAX_POINT_VALUE
        &&& (self.evt_kill matches Some(k) ==> -MAX_PNL <= k <= MAX_PNL)
        &&& self.max_days >= 0
    }
}

/// Whether a trade loses more than the tail limit.
pub open spec fn is_tail(t: RawTrade, kill: Option<i64>) -> bool {
    t.pnl_1ct < 0 && match kill {
        Some(k) => -t.pnl_1ct > k,
        None => false,
    }
}

/// What a trade makes on `cts` contracts, a tail loss capped at the limit.
pub open spec fn trade_result(t: RawTrade, cts: int, kill: Option<i64>) -> int {
    if is_tail(t, kill) {
        -(kill->0) * cts
    } else {
        t.pnl_1ct * cts
    }
}

/// Contracts for a trade under the given conditions.
pub open spec fn sized(
    t: RawTrade,
    eq: int,
    pk: int,
    mdd: int,
    max_c: int,
    day: int,
    target: int,
    c: Conditions,
) -> int {
    contracts(
        c.rg as int,
        SizeInputs {
            eq,
            pk,
            mdd,
            max_c,
            day,
            max_days: c.max_days as int,
            target,
            dir: t.dir,
            trade_risk: t.risk_1ct as int,
        },
        c.long_wr,
        c.short_wr,
        c.pv as int,
    )
}

/// Whether no single day dominates a positive total.
pub open spec fn consistent(days: Seq<int>, cons: Ratio) -> bool {
    total(days) > 0 && largest(days) * cons.den <= cons.num * total(days)
}

/// Trade days whose results the simulators can add up exactly.
pub open spec fn summable(by_day: Seq<Vec<RawTrade>>) -> bool {
    forall|d: int, i: int|
        #![trigger by_day[d]@[i]]
        0 <= d < by_day.len() && 0 <= i < by_day[d]@.len() ==> -MAX_PNL <= by_day[d]@[i].pnl_1ct
            <= MAX_PNL
}

/// No day holds more trades than the simulators admit.
pub open spec fn days_fit(by_day: Seq<Vec<RawTrade>>) -> bool {
    forall|d: int| 0 <= d < by_day.len() ==> (#[trigger] by_day[d])@.len() <= MAX_DAY_TRADES
}

/// The most that one trade can move an account.
pub const TRADE_STEP: i128 = 100_000_000_000_000_000_000_000;

/// The most that one day can move an account.
pub const DAY_STEP: i128 = 100_000_000_000_000_000_000_000_000;

/// The most that `n` trades can move an account.
pub open spec fn trade_reach(n: int) -> int {
    100_000_000_000_000_000_000_000 * n
}

/// The most that `n` days can move an account.
pub open spec fn day_reach(n: int) -> int {
    100_000_000_000_000_000_000_000_000 * n
}

fn trade_pnl(t: &RawTrade, cts: i32, kill: Option<i64>) -> (r: (i128, bool))
    requires
        -MAX_PNL <= t.pnl_1ct <= MAX_PNL,
        kill matches Some(k) ==> -MAX_PNL <= k <= MAX_PNL,
        0 <= cts <= MAX_CTS,
    ensures
        r.0 == trade_result(*t, cts as int, kill),
        r.1 == is_tail(*t, kill),
        -TRADE_STEP <= r.0 <= TRADE_STEP,
{
    let per: i64 = match kill {
        Some(k) => if t.pnl_1ct < 0 && -t.pnl_1ct > k {
            -k
        } else {
            t.pnl_1ct
        },
        None => t.pnl_1ct,
    };
    let tail: bool = match kill {
        Some(k) => t.pnl_1ct < 0 && -t.pnl_1ct > k,
        None => false,
    };
    proof {
        assert(-100_000_000_000_000_000_000_000 <= per * cts <= 100_000_000_000_000_000_000_000)
            by (nonlinear_arith)
            requires
                -100_000_000_000_000_000 <= per <= 100_000_000_000_000_000,
                0 <= cts <= 1_000_000,
        ;
    }
    ((per as i128) * (cts as i128), tail)
}

fn is_consistent(days: &Vec<i128>, cons: Ratio) -> (r: bool)
    requires
        days@.len() > 0,
        days@.len() <= 0x8000_0000,
        forall|i: int| 0 <= i < days@.len() ==> -DAY_STEP <= #[trigger] days@[i] <= DAY_STEP,
        0 < cons.den <= 500,
        -500 <= cons.num <= 500,
    ensures
        r == consistent(ints(days@), cons),
{
    let mut sum: i128 = days[0];
    let mut top: i128 = days[0];
    let ghost all = ints(days@);
    let mut i: usize = 1;
    proof {
        assert(all.take(1).drop_last() == Seq::<int>::empty());
        reveal_with_fuel(total, 2);
        assert(total(all.take(1)) == days@[0]);
    }
    while i < days.len()
        invariant
            1 <= i <= days@.len(),
            days@.len() <= 0x8000_0000,
            all == ints(days@),
            forall|i: int| 0 <= i < days@.len() ==> -DAY_STEP <= #[trigger] days@[i] <= DAY_STEP,
            sum == total(all.take(i as int)),
            top == largest(all.take(i as int)),
            -DAY_STEP <= top <= DAY_STEP,
            -day_reach(i as int) <= sum <= day_reach(i as int),
        decreases days@.len() - i,
    {
        proof {
            assert(all.take(i + 1).drop_last() == all.take(i as int));
        }
        let x: i128 = days[i];
        sum = sum + x;
        if x > top {
            top = x;
        }
        i = i + 1;
    }
    proof {
        assert(all.take(all.len() as int) == all);
        let d = cons.den as int;
        let n = cons.num as int;
        let step = DAY_STEP as int;
        assert(-step * 500 <= top * d <= step * 500) by (nonlinear_arith)
            requires
                -step <= top <= step,
                0 < d <= 500,
                step > 0,
        ;
        let most = day_reach(0x8000_0000);
        assert(-most * 500 <= n * sum <= most * 500) by (nonlinear_arith)
            requires
                -most <= sum <= most,
                -500 <= n <= 500,
                0 <= most,
        ;
    }
    sum > 0 && top * (cons.den as i128) <= (cons.num as i128) * sum
}

// ---------------------------------------------------------------------------
// Evaluation phase
// ---------------------------------------------------------------------------

/// How a day of the evaluation ends.
pub struct EvalDay {
    pub dpnl: int,
    pub pk: int,
    pub blown: bool,
}

/// The trades of an evaluation day from the `i`-th on, with `dpnl` made so far.
///
/// After each trade, tail-capped or not, an intraday-trailing account raises
/// its peak and fails below the peak less the drawdown; past the daily limit
/// the account fails, or the day ends at the limit; and a tail loss ends the
/// day.
pub open spec fn eval_day(
    trades: Seq<RawTrade>,
    i: int,
    day: int,
    eq: int,
    pk: int,
    dpnl: int,
    ax: Account,
    c: Conditions,
) -> EvalDay
    decreases trades.len() - i,
{
    if i >= trades.len() || i < 0 {
        EvalDay { dpnl, pk, blown: false }
    } else {
        let t = trades[i];
        let cts = sized(t, eq, pk, ax.dd as int, ax.eval_cts as int, day, ax.target as int, c);
        let made = dpnl + trade_result(t, cts, c.evt_kill);
        let peak = if !ax.is_eod && eq + made > pk {
            eq + made
        } else {
            pk
        };
        if !ax.is_eod && eq + made < peak - ax.dd {
            EvalDay { dpnl: made, pk: peak, blown: true }
        } else if ax.dll > 0 && made <= -ax.dll {
            if c.dll_is_breach {
                EvalDay { dpnl: made, pk: peak, blown: true }
            } else {
                EvalDay { dpnl: -ax.dll, pk: peak, blown: false }
            }
        } else if is_tail(t, c.evt_kill) {
            EvalDay { dpnl: made, pk: peak, blown: false }
        } else {
            eval_day(trades, i + 1, day, eq, peak, made, ax, c)
        }
    }
}

/// An evaluation from day `day` on: the number of days to the pass, or `None`.
///
/// The account fails below its peak less the drawdown at the close, and passes
/// on the first close at the target, where the consistency rule, if it applies,
/// is met.
pub open spec fn eval_run(
    by_day: Seq<Vec<RawTrade>>,
    idx: Seq<int>,
    day: int,
    eq: int,
    pk: int,
    past: Seq<int>,
    ax: Account,
    c: Conditions,
) -> Option<int>
    decreases c.max_days - day,
{
    if day >= c.max_days {
        None
    } else {
        let d = eval_day(by_day[idx[day]]@, 0, day, eq, pk, 0, ax, c);
        let close = eq + d.dpnl;
        let peak = if close > d.pk {
            close
        } else {
            d.pk
        };
        let days = past.push(d.dpnl);
        if d.blown || close < peak - ax.dd {
            None
        } else if close >= ax.target && (!ax.eval_consistency || consistent(days, ax.cons)) {
            Some(day + 1)
        } else {
            eval_run(by_day, idx, day + 1, close, peak, days, ax, c)
        }
    }
}

/// The evaluation that one simulated path runs.
pub open spec fn challenge_path(
    by_day: Seq<Vec<RawTrade>>,
    ax: Account,
    c: Conditions,
    block: int,
    base_seed: u64,
    sim: int,
) -> Option<int> {
    eval_run(
        by_day,
        path_days(
            path_seed(base_seed, sim as u64, CHALLENGE_TAG),
            by_day.len() as int,
            block,
            c.max_days as int,
        ),
        0,
        0,
        0,
        Seq::empty(),
        ax,
        c,
    )
}

fn run_eval_day(
    trades: &Vec<RawTrade>,
    day: i32,
    eq: i128,
    pk0: i128,
    ax: &Account,
    c: &Conditions,
) -> (r: (i128, i128, bool))
    requires
        trades@.len() <= MAX_DAY_TRADES,
        forall|i: int|
            0 <= i < trades@.len() ==> -MAX_PNL <= (#[trigger] trades@[i]).pnl_1ct <= MAX_PNL,
        ax.in_range(),
        c.in_range(),
        0 <= day,
        -day_reach(day as int) <= eq <= day_reach(day as int),
        0 <= pk0 <= day_reach(day as int),
    ensures
        ({
            let d = eval_day(
                trades@,
                0,
                day as int,
                eq as int,
                pk0 as int,
                0,
                *ax,
                *c,
            );
            &&& d.dpnl == r.0
            &&& d.pk == r.1
            &&& d.blown == r.2
        }),
        -DAY_STEP <= r.0 <= DAY_STEP,
        0 <= r.1 <= day_reach(day + 1),
{
    let mut pk: i128 = pk0;
    let mut dpnl: i128 = 0;
    let mut i: usize = 0;
    let ghost whole = eval_day(trades@, 0, day as int, eq as int, pk0 as int, 0, *ax, *c);
    while i < trades.len()
        invariant
            i <= trades@.len(),
            trades@.len() <= MAX_DAY_TRADES,
            forall|i: int|
                0 <= i < trades@.len() ==> -MAX_PNL <= (#[trigger] trades@[i]).pnl_1ct <= MAX_PNL,
            ax.in_range(),
            c.in_range(),
            0 <= day,
            -day_reach(day as int) <= eq <= day_reach(day as int),
            0 <= pk <= day_reach(day as int) + trade_reach(i as int),
            -trade_reach(i as int) <= dpnl <= trade_reach(i as int),
            whole == eval_day(
                trades@,
                i as int,
                day as int,
                eq as int,
                pk as int,
                dpnl as int,
                *ax,
                *c,
            ),
            whole == eval_day(trades@, 0, day as int, eq as int, pk0 as int, 0, *ax, *c),
        decreases trades@.len() - i,
    {
        let t: &RawTrade = &trades[i];
        let cts: i32 = calc_cts(
            c.rg,
            eq,
            pk,
            ax.dd,
            ax.eval_cts,
            day,
            c.max_days,
            ax.target,
            t.dir,
            c.long_wr,
            c.short_wr,
            t.risk_1ct,
            c.pv,
        );
        let (made, tail): (i128, bool) = trade_pnl(t, cts, c.evt_kill);
        dpnl = dpnl + made;
        if !ax.is_eod {
            let ie: i128 = eq + dpnl;
            if ie > pk {
                pk = ie;
            }
            if ie < pk - ax.dd as i128 {
                return (dpnl, pk, true);
            }
        }
        let dll: i128 = ax.dll as i128;
        if dll > 0 && dpnl <= -dll {
            if c.dll_is_breach {
                return (dpnl, pk, true);
            } else {
                return (-dll, pk, false);
            }
        }
        if tail {
            return (dpnl, pk, false);
        }
        i = i + 1;
    }
    (dpnl, pk, false)
}

/// What a path needs to run.
spec fn runnable(by_day: &[Vec<RawTrade>], ax: &Account, c: &Conditions, block: usize) -> bool {
    &&& by_day@.len() >= 1
    &&& summable(by_day@)
    &&& days_fit(by_day@)
    &&& ax.in_range()
    &&& c.in_range()
    &&& block >= 1
}

spec fn challenge_path_of(
    by_day: &[Vec<RawTrade>],
    ax: &Account,
    c: &Conditions,
    block: usize,
    base_seed: u64,
    sim: usize,
) -> Option<int> {
    challenge_path(by_day@, *ax, *c, block as int, base_seed, sim as int)
}

/// Run one simulated evaluation: the days to the pass, or `None`.
fn run_challenge_path(
    by_day: &[Vec<RawTrade>],
    ax: &Account,
    c: &Conditions,
    block: usize,
    base_seed: u64,
    sim: usize,
) -> (r: Option<u32>)
    requires
        runnable(by_day, ax, c, block),
        sim < MAX_SIMS,
    ensures
        opt_int(r) == challenge_path(by_day@, *ax, *c, block as int, base_seed, sim as int),
        r matches Some(d) ==> 1 <= d <= c.max_days,
{
    let seed: u64 = base_seed ^ (sim as u64).wrapping_mul(0x9E37_79B9_7F4A_7C15) ^ CHALLENGE_TAG;
    let idx: Vec<usize> = draw_path(seed, by_day.len(), block, c.max_days as usize);
    let ghost path = path_days(seed, by_day@.len() as int, block as int, c.max_days as int);
    let mut eq: i128 = 0;
    let mut pk: i128 = 0;
    let mut dp: Vec<i128> = Vec::new();
    let mut day: i32 = 0;
    let ghost whole = challenge_path(by_day@, *ax, *c, block as int, base_seed, sim as int);
    proof {
        assert(ints(dp@) == Seq::<int>::empty());
    }
    while day < c.max_days
        invariant
            by_day@.len() >= 1,
            summable(by_day@),
            days_fit(by_day@),
            ax.in_range(),
            c.in_range(),
            0 <= day <= c.max_days,
            idx@.map_values(|i: usize| i as int) == path,
            idx@.len() == c.max_days,
            forall|j: int| 0 <= j < idx@.len() ==> #[trigger] idx@[j] < by_day@.len(),
            -day_reach(day as int) <= eq <= day_reach(day as int),
            0 <= pk <= day_reach(day as int),
            dp@.len() == day,
            forall|i: int| 0 <= i < dp@.len() ==> -DAY_STEP <= #[trigger] dp@[i] <= DAY_STEP,
            whole == challenge_path(by_day@, *ax, *c, block as int, base_seed, sim as int),
            whole == eval_run(
                by_day@,
                path,
                day as int,
                eq as int,
                pk as int,
                ints(dp@),
                *ax,
                *c,
            ),
        decreases c.max_days - day,
    {
        let at: usize = idx[day as usize];
        proof {
            assert(path[day as int] == at as int);
        }
        let trades: &Vec<RawTrade> = &by_day[at];
        let (dpnl, top, blown): (i128, i128, bool) = run_eval_day(trades, day, eq, pk, ax, c);
        if blown {
            return None;
        }
        proof {
            assert(ints(dp@.push(dpnl)) == ints(dp@).push(dpnl as int));
        }
        dp.push(dpnl);
        eq = eq + dpnl;
        pk = top;
        if eq > pk {
            pk = eq;
        }
        if eq < pk - ax.dd as i128 {
            return None;
        }
        if eq >= ax.target as i128 {
            if !ax.eval_consistency || is_consistent(&dp, ax.cons) {
                return Some(day as u32 + 1);
            }
        }
        day = day + 1;
    }
    None
}

/// An optional count as an optional integer.
pub open spec fn opt_int(o: Option<u32>) -> Option<int> {
    match o {
        Some(d) => Some(d as int),
        None => None,
    }
}

/// The outcomes of all simulated evaluations.
pub open spec fn challenge_outcomes(
    by_day: Seq<Vec<RawTrade>>,
    ax: Account,
    c: Conditions,
    block: int,
    base_seed: u64,
    sims: int,
) -> Seq<Option<int>> {
    Seq::new(sims as nat, |sim: int| challenge_path(by_day, ax, c, block, base_seed, sim))
}

/// How many evaluations passed.
pub open spec fn passes(outcomes: Seq<Option<int>>) -> int {
    count_where(outcomes, |o: Option<int>| o is Some) as int
}

/// The days of all passed evaluations together.
pub open spec fn pass_days(outcomes: Seq<Option<int>>) -> int
    decreases outcomes.len(),
{
    if outcomes.len() == 0 {
        0
    } else {
        pass_days(outcomes.drop_last()) + match outcomes.last() {
            Some(d) => d,
            None => 0,
        }
    }
}

#[derive(Clone, Copy, Debug)]
pub struct ChallengeResult {
    pub pass_rate: Ratio,
    /// Mean trading days to pass, over passing simulations only.
    pub avg_days_to_pass: Ratio,
}

impl ChallengeResult {
    /// The result when there is nothing to simulate.
    pub open spec fn nothing() -> ChallengeResult {
        ChallengeResult {
            pass_rate: Ratio { num: 0, den: 1 },
            avg_days_to_pass: Ratio { num: 0, den: 1 },
        }
    }

    /// The result of the given outcomes.
    pub open spec fn of(outcomes: Seq<Option<int>>) -> ChallengeResult {
        ChallengeResult {
            pass_rate: Ratio { num: passes(outcomes) as i64, den: outcomes.len() as i64 },
            avg_days_to_pass: if passes(outcomes) > 0 {
                Ratio { num: pass_days(outcomes) as i64, den: passes(outcomes) as i64 }
            } else {
                Ratio { num: 0, den: 1 }
            },
        }
    }
}

/// What the evaluation phase comes to.
pub open spec fn challenge_of(
    by_day: Seq<Vec<RawTrade>>,
    ax: Account,
    c: Conditions,
    block: int,
    base_seed: u64,
    sims: int,
) -> ChallengeResult {
    if by_day.len() == 0 {
        ChallengeResult::nothing()
    } else {
        ChallengeResult::of(challenge_outcomes(by_day, ax, c, block, base_seed, sims))
    }
}

impl Default for ChallengeResult {
    fn default() -> (r: Self)
        ensures
            r == ChallengeResult::nothing(),
    {
        ChallengeResult {
            pass_rate: Ratio { num: 0, den: 1 },
            avg_days_to_pass: Ratio { num: 0, den: 1 },
        }
    }
}

/// Simulate the evaluation phase.
pub fn mc_challenge(
    train_by_day: &[Vec<RawTrade>],
    ax: &Account,
    rg: usize,
    cfg: &McConfig,
    pv: i64,
    long_wr: Ratio,
    short_wr: Ratio,
    evt_kill: Option<i64>,
    base_seed: u64,
) -> (r: ChallengeResult)
    requires
        cfg.block_days >= 1,
        1 <= cfg.n_challenge_sims <= MAX_SIMS,
        cfg.eval_max_days <= i32::MAX,
        summable(train_by_day@),
        days_fit(train_by_day@),
        ax.in_range(),
        -MAX_POINT_VALUE <= pv <= MAX_POINT_VALUE,
        evt_kill matches Some(k) ==> -MAX_PNL <= k <= MAX_PNL,
    ensures
        train_by_day@.len() == 0 ==> r == ChallengeResult::nothing(),
        train_by_day@.len() > 0 ==> ({
            let c = Conditions {
                rg,
                pv,
                long_wr,
                short_wr,
                evt_kill,
                dll_is_breach: cfg.dll_is_breach,
                max_days: cfg.eval_max_days as i32,
            };
            let outcomes = challenge_outcomes(
                train_by_day@,
                *ax,
                c,
                cfg.block_days as int,
                base_seed,
                cfg.n_challenge_sims as int,
            );
            &&& r.pass_rate.num == passes(outcomes)
            &&& r.pass_rate.den == cfg.n_challenge_sims
            &&& passes(outcomes) > 0 ==> r.avg_days_to_pass.num == pass_days(outcomes)
                && r.avg_days_to_pass.den == passes(outcomes)
            &&& passes(outcomes) == 0 ==> r.avg_days_to_pass == (Ratio { num: 0, den: 1 })
        }),
        r == challenge_of(
            train_by_day@,
            *ax,
            (Conditions {
                rg,
                pv,
                long_wr,
                short_wr,
                evt_kill,
                dll_is_breach: cfg.dll_is_breach,
                max_days: cfg.eval_max_days as i32,
            }),
            cfg.block_days as int,
            base_seed,
            cfg.n_challenge_sims as int,
        ),
        r.pass_rate.wf(),
        r.avg_days_to_pass.wf(),
        0 <= r.pass_rate.num <= r.pass_rate.den,
{
    if train_by_day.len() == 0 {
        return ChallengeResult::default();
    }
    let c: Conditions = Conditions {
        rg,
        pv,
        long_wr,
        short_wr,
        evt_kill,
        dll_is_breach: cfg.dll_is_breach,
        max_days: cfg.eval_max_days as i32,
    };
    let block: usize = cfg.block_days;
    let sims: usize = cfg.n_challenge_sims;
    let ghost outcomes = challenge_outcomes(
        train_by_day@,
        *ax,
        c,
        block as int,
        base_seed,
        sims as int,
    );
    let one = |sim: usize| -> (o: Option<u32>)
        requires
            sim < sims,
            sims <= MAX_SIMS,
            runnable(train_by_day, ax, &c, block),
        ensures
            opt_int(o) == challenge_path_of(train_by_day, ax, &c, block, base_seed, sim),
            o matches Some(d) ==> 1 <= d <= c.max_days,
        {
            run_challenge_path(train_by_day, ax, &c, block, base_seed, sim)
        };
    let res: Vec<Option<u32>> = parallel_map(sims, one);
    let mut n_pass: i64 = 0;
    let mut days: i64 = 0;
    let mut i: usize = 0;
    while i < sims
        invariant
            i <= sims,
            sims <= MAX_SIMS,
            res@.len() == sims,
            outcomes.len() == sims,
            forall|j: usize|
                #![trigger res@[j as int]]
                j < sims ==> opt_int(res@[j as int]) == outcomes[j as int] && (
                res@[j as int] matches Some(d) ==> 1 <= d <= 0x7fff_ffff),
            n_pass == passes(outcomes.take(i as int)),
            days == pass_days(outcomes.take(i as int)),
            0 <= n_pass <= i,
            0 <= days <= 0x7fff_ffff * i,
        decreases sims - i,
    {
        proof {
            assert(outcomes.take(i + 1).drop_last() == outcomes.take(i as int));
            assert(outcomes.take(i + 1).last() == outcomes[i as int]);
        }
        match res[i] {
            Some(d) => {
                n_pass = n_pass + 1;
                days = days + d as i64;
            },
            None => {},
        }
        i = i + 1;
    }
    proof {
        assert(outcomes.take(sims as int) == outcomes);
    }
    ChallengeResult {
        pass_rate: Ratio { num: n_pass, den: sims as i64 },
        avg_days_to_pass: if n_pass > 0 {
            Ratio { num: days, den: n_pass }
        } else {
            Ratio { num: 0, den: 1 }
        },
    }
}

// ---------------------------------------------------------------------------
// Funded phase
// ---------------------------------------------------------------------------

/// The smallest withdrawal, in micro-dollars.
pub const MIN_PAYOUT: i64 = 500_000_000;

/// How far above the starting balance the floor locks, in micro-dollars.
pub const LOCK_MARGIN: i64 = 100_000_000;

/// The balance below which a funded account fails: fixed once the safety net
/// was reached, trailing the peak before.
pub open spec fn funded_floor(locked: bool, pk: int, ax: Account) -> int {
    if locked {
        ax.sb + LOCK_MARGIN
    } else {
        pk - ax.pa_dd
    }
}

/// The trades of a funded day from the `i`-th on, with `dpnl` made so far: what
/// the day makes, and whether the account fails in it.
///
/// Sizing reads the live peak. After each trade, tail-capped or not, the account
/// fails below its floor; past the daily limit it fails, or the day ends at the
/// limit; and a tail loss ends the day.
pub open spec fn funded_day(
    trades: Seq<RawTrade>,
    i: int,
    day: int,
    bal: int,
    pk: int,
    locked: bool,
    dpnl: int,
    ax: Account,
    c: Conditions,
) -> (int, bool)
    decreases trades.len() - i,
{
    if i >= trades.len() || i < 0 {
        (dpnl, false)
    } else {
        let t = trades[i];
        let cap = if locked {
            ax.pa_max as int
        } else {
            ax.pa_start as int
        };
        let cts = sized(
            t,
            bal - ax.sb,
            pk - ax.sb,
            ax.pa_dd as int,
            cap,
            day,
            ax.pa_dd as int,
            c,
        );
        let made = dpnl + trade_result(t, cts, c.evt_kill);
        if bal + made < funded_floor(locked, pk, ax) {
            (made, true)
        } else if ax.dll > 0 && made <= -ax.dll {
            if c.dll_is_breach {
                (made, true)
            } else {
                (-ax.dll as int, false)
            }
        } else if is_tail(t, c.evt_kill) {
            (made, false)
        } else {
            funded_day(trades, i + 1, day, bal, pk, locked, made, ax, c)
        }
    }
}

/// A funded account between two days.
pub struct FundedState {
    pub bal: int,
    pub pk: int,
    /// Withdrawn so far.
    pub ext: int,
    /// Withdrawals made so far.
    pub step: int,
    /// Qualifying days since the last withdrawal.
    pub qd: int,
    /// Daily results since the last withdrawal.
    pub since: Seq<int>,
    /// Deepest distance below the peak at a close.
    pub max_dd: int,
    /// Whether the safety net was reached.
    pub locked: bool,
}

/// What one funded account came to.
pub struct FundedPath {
    pub ext: int,
    pub blown: bool,
    pub max_dd: int,
    pub days_held: int,
}

/// A newly funded account.
pub open spec fn newly_funded(ax: Account) -> FundedState {
    FundedState {
        bal: ax.sb as int,
        pk: ax.sb as int,
        ext: 0,
        step: 0,
        qd: 0,
        since: Seq::empty(),
        max_dd: 0,
        locked: false,
    }
}

/// The account at the close of a day that made `dpnl`.
pub open spec fn funded_close(st: FundedState, dpnl: int, ax: Account) -> FundedState {
    let bal = st.bal + dpnl;
    let pk = if bal > st.pk {
        bal
    } else {
        st.pk
    };
    FundedState {
        bal,
        pk,
        qd: if dpnl >= ax.qmin {
            st.qd + 1
        } else {
            st.qd
        },
        since: st.since.push(dpnl),
        max_dd: if pk - bal > st.max_dd {
            pk - bal
        } else {
            st.max_dd
        },
        locked: st.locked || pk >= ax.sn || bal >= ax.sn,
        ..st
    }
}

/// What an account may withdraw: the excess over the safety net, up to the rung
/// of the ladder it has come to.
pub open spec fn withdrawable(st: FundedState, ax: Account) -> int {
    let over = st.bal - ax.sn;
    if over < ax.ladder@[st.step] {
        over
    } else {
        ax.ladder@[st.step] as int
    }
}

/// Whether the account withdraws at the close: enough qualifying days, a balance
/// above the safety net, consistent results, and at least the smallest payout.
pub open spec fn withdraws(st: FundedState, ax: Account) -> bool {
    &&& st.qd >= ax.qdays
    &&& st.step < 6
    &&& st.bal > ax.sn
    &&& consistent(st.since, ax.cons)
    &&& withdrawable(st, ax) >= MIN_PAYOUT
}

/// The account after its withdrawal, where it makes one.
pub open spec fn after_payout(st: FundedState, ax: Account) -> FundedState {
    if withdraws(st, ax) {
        let w = withdrawable(st, ax);
        FundedState {
            bal: st.bal - w,
            ext: st.ext + w,
            step: st.step + 1,
            qd: 0,
            since: Seq::empty(),
            ..st
        }
    } else {
        st
    }
}

/// A funded account from day `day` on, to the end of the horizon, the last
/// withdrawal or the failure.
pub open spec fn funded_run(
    by_day: Seq<Vec<RawTrade>>,
    idx: Seq<int>,
    day: int,
    st: FundedState,
    ax: Account,
    c: Conditions,
) -> FundedPath
    decreases c.max_days - day,
{
    if day >= c.max_days || st.step >= 6 {
        FundedPath { ext: st.ext, blown: false, max_dd: st.max_dd, days_held: day }
    } else {
        let (dpnl, failed) = funded_day(
            by_day[idx[day]]@,
            0,
            day,
            st.bal,
            st.pk,
            st.locked,
            0,
            ax,
            c,
        );
        let close = funded_close(st, dpnl, ax);
        if failed || close.bal < funded_floor(close.locked, close.pk, ax) {
            FundedPath { ext: close.ext, blown: true, max_dd: close.max_dd, days_held: day + 1 }
        } else {
            funded_run(by_day, idx, day + 1, after_payout(close, ax), ax, c)
        }
    }
}

/// The funded account that one simulated path runs.
pub open spec fn funded_path(
    by_day: Seq<Vec<RawTrade>>,
    ax: Account,
    c: Conditions,
    block: int,
    base_seed: u64,
    sim: int,
) -> FundedPath {
    funded_run(
        by_day,
        path_days(
            path_seed(base_seed, sim as u64, FUNDED_TAG),
            by_day.len() as int,
            block,
            c.max_days as int,
        ),
        0,
        newly_funded(ax),
        ax,
        c,
    )
}

/// The most that a funded account can hold or owe after `n` days.
spec fn funded_reach(n: int) -> int {
    1_000_000_000_000 + day_reach(n)
}

fn run_funded_day(
    trades: &Vec<RawTrade>,
    day: i32,
    bal: i128,
    pk: i128,
    locked: bool,
    ax: &Account,
    c: &Conditions,
) -> (r: (i128, bool))
    requires
        trades@.len() <= MAX_DAY_TRADES,
        forall|i: int|
            0 <= i < trades@.len() ==> -MAX_PNL <= (#[trigger] trades@[i]).pnl_1ct <= MAX_PNL,
        ax.in_range(),
        c.in_range(),
        0 <= day,
        -funded_reach(day as int) <= bal <= funded_reach(day as int),
        -funded_reach(day as int) <= pk <= funded_reach(day as int),
    ensures
        (r.0 as int, r.1) == funded_day(
            trades@,
            0,
            day as int,
            bal as int,
            pk as int,
            locked,
            0,
            *ax,
            *c,
        ),
        -DAY_STEP <= r.0 <= DAY_STEP,
{
    let mut dpnl: i128 = 0;
    let mut i: usize = 0;
    let cap: i32 = if locked {
        ax.pa_max
    } else {
        ax.pa_start
    };
    let floor: i128 = if locked {
        ax.sb as i128 + LOCK_MARGIN as i128
    } else {
        pk - ax.pa_dd as i128
    };
    let ghost whole = funded_day(
        trades@,
        0,
        day as int,
        bal as int,
        pk as int,
        locked,
        0,
        *ax,
        *c,
    );
    while i < trades.len()
        invariant
            i <= trades@.len(),
            trades@.len() <= MAX_DAY_TRADES,
            forall|i: int|
                0 <= i < trades@.len() ==> -MAX_PNL <= (#[trigger] trades@[i]).pnl_1ct <= MAX_PNL,
            ax.in_range(),
            c.in_range(),
            0 <= day,
            -funded_reach(day as int) <= bal <= funded_reach(day as int),
            -funded_reach(day as int) <= pk <= funded_reach(day as int),
            -trade_reach(i as int) <= dpnl <= trade_reach(i as int),
            cap == if locked {
                ax.pa_max
            } else {
                ax.pa_start
            },
            floor == funded_floor(locked, pk as int, *ax),
            whole == funded_day(
                trades@,
                i as int,
                day as int,
                bal as int,
                pk as int,
                locked,
                dpnl as int,
                *ax,
                *c,
            ),
            whole == funded_day(
                trades@,
                0,
                day as int,
                bal as int,
                pk as int,
                locked,
                0,
                *ax,
                *c,
            ),
        decreases trades@.len() - i,
    {
        let t: &RawTrade = &trades[i];
        let cts: i32 = calc_cts(
            c.rg,
            bal - ax.sb as i128,
            pk - ax.sb as i128,
            ax.pa_dd,
            cap,
            day,
            c.max_days,
            ax.pa_dd,
            t.dir,
            c.long_wr,
            c.short_wr,
            t.risk_1ct,
            c.pv,
        );
        let (made, tail): (i128, bool) = trade_pnl(t, cts, c.evt_kill);
        dpnl = dpnl + made;
        if bal + dpnl < floor {
            return (dpnl, true);
        }
        let dll: i128 = ax.dll as i128;
        if dll > 0 && dpnl <= -dll {
            if c.dll_is_breach {
                return (dpnl, true);
            } else {
                return (-dll, false);
            }
        }
        if tail {
            return (dpnl, false);
        }
        i = i + 1;
    }
    (dpnl, false)
}

spec fn funded_path_of(
    by_day: &[Vec<RawTrade>],
    ax: &Account,
    c: &Conditions,
    block: usize,
    base_seed: u64,
    sim: usize,
) -> FundedPath {
    funded_path(by_day@, *ax, *c, block as int, base_seed, sim as int)
}

/// A path's result as integers.
spec fn path_ints(r: (i64, bool, i128, u32)) -> FundedPath {
    FundedPath { ext: r.0 as int, blown: r.1, max_dd: r.2 as int, days_held: r.3 as int }
}

/// Run one simulated funded account: what it extracted, whether it failed, its
/// deepest drawdown and the days it was held.
fn run_funded_path(
    by_day: &[Vec<RawTrade>],
    ax: &Account,
    c: &Conditions,
    block: usize,
    base_seed: u64,
    sim: usize,
) -> (r: (i64, bool, i128, u32))
    requires
        runnable(by_day, ax, c, block),
        sim < MAX_SIMS,
    ensures
        path_ints(r) == funded_path_of(by_day, ax, c, block, base_seed, sim),
        0 <= r.0 <= 6 * MAX_AMOUNT,
        r.3 <= c.max_days,
{
    let seed: u64 = base_seed ^ (sim as u64).wrapping_mul(0x9E37_79B9_7F4A_7C15) ^ FUNDED_TAG;
    let idx: Vec<usize> = draw_path(seed, by_day.len(), block, c.max_days as usize);
    let ghost path = path_days(seed, by_day@.len() as int, block as int, c.max_days as int);
    let mut bal: i128 = ax.sb as i128;
    let mut pk: i128 = ax.sb as i128;
    let mut ext: i64 = 0;
    let mut step: usize = 0;
    let mut qd: i64 = 0;
    let mut since: Vec<i128> = Vec::new();
    let mut max_dd: i128 = 0;
    let mut locked: bool = false;
    let mut day: i32 = 0;
    let ghost mut st = newly_funded(*ax);
    let ghost whole = funded_path_of(by_day, ax, c, block, base_seed, sim);
    proof {
        assert(ints(since@) == Seq::<int>::empty());
    }
    while day < c.max_days && step < 6
        invariant
            runnable(by_day, ax, c, block),
            0 <= day <= c.max_days,
            idx@.map_values(|i: usize| i as int) == path,
            idx@.len() == c.max_days,
            forall|j: int| 0 <= j < idx@.len() ==> #[trigger] idx@[j] < by_day@.len(),
            -funded_reach(day as int) <= bal <= funded_reach(day as int),
            -funded_reach(day as int) <= pk <= funded_reach(day as int),
            bal <= pk,
            step <= 6,
            0 <= ext <= step * 1_000_000_000_000,
            0 <= qd <= day,
            0 <= max_dd <= 2 * funded_reach(day as int),
            since@.len() <= day,
            forall|i: int| 0 <= i < since@.len() ==> -DAY_STEP <= #[trigger] since@[i] <= DAY_STEP,
            st == (FundedState {
                bal: bal as int,
                pk: pk as int,
                ext: ext as int,
                step: step as int,
                qd: qd as int,
                since: ints(since@),
                max_dd: max_dd as int,
                locked,
            }),
            whole == funded_path_of(by_day, ax, c, block, base_seed, sim),
            whole == funded_run(by_day@, path, day as int, st, *ax, *c),
        decreases c.max_days - day,
    {
        let at: usize = idx[day as usize];
        proof {
            assert(path[day as int] == at as int);
        }
        let trades: &Vec<RawTrade> = &by_day[at];
        let (dpnl, failed): (i128, bool) = run_funded_day(trades, day, bal, pk, locked, ax, c);
        let ghost before = st;
        let ghost close = funded_close(st, dpnl as int, *ax);
        bal = bal + dpnl;
        if bal > pk {
            pk = bal;
        }
        let sn: i128 = ax.sn as i128;
        if !locked && (pk >= sn || bal >= sn) {
            locked = true;
        }
        let floor: i128 = if locked {
            ax.sb as i128 + LOCK_MARGIN as i128
        } else {
            pk - ax.pa_dd as i128
        };
        let cur_dd: i128 = pk - bal;
        if cur_dd > max_dd {
            max_dd = cur_dd;
        }
        if failed || bal < floor {
            return (ext, true, max_dd, day as u32 + 1);
        }
        proof {
            assert(ints(since@.push(dpnl)) == ints(since@).push(dpnl as int));
        }
        since.push(dpnl);
        if dpnl >= ax.qmin as i128 {
            qd = qd + 1;
        }
        proof {
            st = after_payout(close, *ax);
        }
        let ghost mut paid = false;
        if qd >= ax.qdays as i64 && bal > sn {
            if is_consistent(&since, ax.cons) {
                let rung: i128 = ax.ladder[step] as i128;
                let over: i128 = bal - sn;
                let w: i128 = if over < rung {
                    over
                } else {
                    rung
                };
                if w >= MIN_PAYOUT as i128 {
                    bal = bal - w;
                    ext = ext + w as i64;
                    step = step + 1;
                    qd = 0;
                    since = Vec::new();
                    proof {
                        paid = true;
                        assert(ints(since@) == Seq::<int>::empty());
                    }
                }
            }
        }
        proof {
            assert(paid == withdraws(close, *ax));
        }
        day = day + 1;
    }
    (ext, false, max_dd, day as u32)
}

/// The outcomes of all simulated funded accounts.
pub open spec fn funded_outcomes(
    by_day: Seq<Vec<RawTrade>>,
    ax: Account,
    c: Conditions,
    block: int,
    base_seed: u64,
    sims: int,
) -> Seq<FundedPath> {
    Seq::new(sims as nat, |sim: int| funded_path(by_day, ax, c, block, base_seed, sim))
}

/// What each account extracted.
pub open spec fn extractions(paths: Seq<FundedPath>) -> Seq<i128> {
    paths.map_values(|p: FundedPath| p.ext as i128)
}

/// How deep each account fell below its peak.
pub open spec fn drawdowns(paths: Seq<FundedPath>) -> Seq<i128> {
    paths.map_values(|p: FundedPath| p.max_dd as i128)
}

/// How long each account was held.
pub open spec fn holdings(paths: Seq<FundedPath>) -> Seq<int> {
    paths.map_values(|p: FundedPath| p.days_held)
}

/// Accounts that extracted at least `amount`.
pub open spec fn reaching(paths: Seq<FundedPath>, amount: int) -> int {
    count_where(paths, |p: FundedPath| p.ext >= amount) as int
}

/// Distribution of what funded accounts extract. Amounts are in micro-dollars.
#[derive(Clone, Copy, Debug)]
pub struct FundedDist {
    /// Mean extraction, to the nearest micro-dollar.
    pub mean_ext: i64,
    pub median_ext: i64,
    pub p5_ext: i64,
    pub p_ext_zero: Ratio,
    pub p_ext_2500: Ratio,
    pub p_ext_10k: Ratio,
    pub p_ext_20k: Ratio,
    pub blowup_rate: Ratio,
    pub max_pa_dd_median: i128,
    pub max_pa_dd_p95: i128,
    /// Mean trading days the funded account was held, which sets how many
    /// monthly fees are actually paid.
    pub mean_days_held: Ratio,
}

/// Whether a fraction is `a` of `n`.
pub open spec fn share_of(r: Ratio, a: int, n: int) -> bool {
    r.num == a && r.den == n
}

impl FundedDist {
    /// The distribution when there is nothing to simulate.
    pub open spec fn nothing() -> FundedDist {
        let none = Ratio { num: 0, den: 1 };
        FundedDist {
            mean_ext: 0,
            median_ext: 0,
            p5_ext: 0,
            p_ext_zero: none,
            p_ext_2500: none,
            p_ext_10k: none,
            p_ext_20k: none,
            blowup_rate: none,
            max_pa_dd_median: 0,
            max_pa_dd_p95: 0,
            mean_days_held: none,
        }
    }

    /// Rates that are rates, and amounts that a ladder can pay.
    pub open spec fn in_range(self) -> bool {
        &&& 0 <= self.mean_ext <= 6 * MAX_AMOUNT
        &&& 0 <= self.p5_ext <= 6 * MAX_AMOUNT
        &&& 0 < self.blowup_rate.den <= MAX_SIMS
        &&& 0 <= self.blowup_rate.num <= self.blowup_rate.den
        &&& 0 < self.mean_days_held.den <= MAX_SIMS
        &&& 0 <= self.mean_days_held.num
    }

    /// Whether this is the distribution of the given outcomes.
    pub open spec fn summarises(self, paths: Seq<FundedPath>) -> bool {
        let n = paths.len() as int;
        &&& self.mean_ext == nearest(total(ints(extractions(paths))), n)
        &&& self.median_ext == quantile(extractions(paths), 50, 100)
        &&& self.p5_ext == quantile(extractions(paths), 5, 100)
        &&& share_of(
            self.p_ext_zero,
            count_where(paths, |p: FundedPath| p.ext <= 0) as int,
            n,
        )
        &&& share_of(self.p_ext_2500, reaching(paths, 2_500_000_000), n)
        &&& share_of(self.p_ext_10k, reaching(paths, 10_000_000_000), n)
        &&& share_of(self.p_ext_20k, reaching(paths, 20_000_000_000), n)
        &&& share_of(
            self.blowup_rate,
            count_where(paths, |p: FundedPath| p.blown) as int,
            n,
        )
        &&& self.max_pa_dd_median == quantile(drawdowns(paths), 50, 100)
        &&& self.max_pa_dd_p95 == quantile(drawdowns(paths), 95, 100)
        &&& share_of(self.mean_days_held, total(holdings(paths)), n)
    }

    /// The distribution of the given outcomes.
    pub open spec fn of(paths: Seq<FundedPath>) -> FundedDist {
        let n = paths.len() as i64;
        FundedDist {
            mean_ext: nearest(total(ints(extractions(paths))), n as int) as i64,
            median_ext: quantile(extractions(paths), 50, 100) as i64,
            p5_ext: quantile(extractions(paths), 5, 100) as i64,
            p_ext_zero: Ratio {
                num: count_where(paths, |p: FundedPath| p.ext <= 0) as i64,
                den: n,
            },
            p_ext_2500: Ratio { num: reaching(paths, 2_500_000_000) as i64, den: n },
            p_ext_10k: Ratio { num: reaching(paths, 10_000_000_000) as i64, den: n },
            p_ext_20k: Ratio { num: reaching(paths, 20_000_000_000) as i64, den: n },
            blowup_rate: Ratio {
                num: count_where(paths, |p: FundedPath| p.blown) as i64,
                den: n,
            },
            max_pa_dd_median: quantile(drawdowns(paths), 50, 100) as i128,
            max_pa_dd_p95: quantile(drawdowns(paths), 95, 100) as i128,
            mean_days_held: Ratio { num: total(holdings(paths)) as i64, den: n },
        }
    }

    /// Months of platform fee implied by the simulated holding period: the mean
    /// days held over the days of a month, at least one.
    pub fn months_held(&self) -> (r: Ratio)
        requires
            0 < self.mean_days_held.den <= MAX_SIMS,
        ensures
            r.den == TRADING_DAYS_PER_MONTH * self.mean_days_held.den,
            r.num == if self.mean_days_held.num >= r.den {
                self.mean_days_held.num
            } else {
                r.den
            },
    {
        let den: i64 = TRADING_DAYS_PER_MONTH * self.mean_days_held.den;
        if self.mean_days_held.num >= den {
            Ratio { num: self.mean_days_held.num, den }
        } else {
            Ratio { num: den, den }
        }
    }
}

impl Default for FundedDist {
    fn default() -> (r: Self)
        ensures
            r == FundedDist::nothing(),
    {
        let none: Ratio = Ratio { num: 0, den: 1 };
        FundedDist {
            mean_ext: 0,
            median_ext: 0,
            p5_ext: 0,
            p_ext_zero: none,
            p_ext_2500: none,
            p_ext_10k: none,
            p_ext_20k: none,
            blowup_rate: none,
            max_pa_dd_median: 0,
            max_pa_dd_p95: 0,
            mean_days_held: none,
        }
    }
}

/// What the funded phase comes to.
pub open spec fn funded_of(
    by_day: Seq<Vec<RawTrade>>,
    ax: Account,
    c: Conditions,
    block: int,
    base_seed: u64,
    sims: int,
) -> FundedDist {
    if by_day.len() == 0 || sims == 0 {
        FundedDist::nothing()
    } else {
        FundedDist::of(funded_outcomes(by_day, ax, c, block, base_seed, sims))
    }
}

/// Simulate the funded phase: reach the safety net, then extract on the ladder.
pub fn mc_funded(
    train_by_day: &[Vec<RawTrade>],
    ax: &Account,
    rg: usize,
    cfg: &McConfig,
    pv: i64,
    long_wr: Ratio,
    short_wr: Ratio,
    evt_kill: Option<i64>,
    base_seed: u64,
) -> (r: FundedDist)
    requires
        cfg.block_days >= 1,
        cfg.n_funded_sims <= MAX_SIMS,
        cfg.funded_max_days <= i32::MAX,
        summable(train_by_day@),
        days_fit(train_by_day@),
        ax.in_range(),
        -MAX_POINT_VALUE <= pv <= MAX_POINT_VALUE,
        evt_kill matches Some(k) ==> -MAX_PNL <= k <= MAX_PNL,
    ensures
        train_by_day@.len() == 0 || cfg.n_funded_sims == 0 ==> r == FundedDist::nothing(),
        train_by_day@.len() > 0 && cfg.n_funded_sims > 0 ==> r.summarises(
            funded_outcomes(
                train_by_day@,
                *ax,
                (Conditions {
                    rg,
                    pv,
                    long_wr,
                    short_wr,
                    evt_kill,
                    dll_is_breach: cfg.dll_is_breach,
                    max_days: cfg.funded_max_days as i32,
                }),
                cfg.block_days as int,
                base_seed,
                cfg.n_funded_sims as int,
            ),
        ),
        r == funded_of(
            train_by_day@,
            *ax,
            (Conditions {
                rg,
                pv,
                long_wr,
                short_wr,
                evt_kill,
                dll_is_breach: cfg.dll_is_breach,
                max_days: cfg.funded_max_days as i32,
            }),
            cfg.block_days as int,
            base_seed,
            cfg.n_funded_sims as int,
        ),
        r.in_range(),
        0 < r.mean_days_held.den <= MAX_SIMS,
        0 <= r.mean_days_held.num <= cfg.funded_max_days * r.mean_days_held.den,
        0 <= r.mean_ext <= 6 * MAX_AMOUNT,
{
    let sims: usize = cfg.n_funded_sims;
    if train_by_day.len() == 0 || sims == 0 {
        return FundedDist::default();
    }
    let c: Conditions = Conditions {
        rg,
        pv,
        long_wr,
        short_wr,
        evt_kill,
        dll_is_breach: cfg.dll_is_breach,
        max_days: cfg.funded_max_days as i32,
    };
    let block: usize = cfg.block_days;
    let ghost paths = funded_outcomes(
        train_by_day@,
        *ax,
        c,
        block as int,
        base_seed,
        sims as int,
    );
    let one = |sim: usize| -> (o: (i64, bool, i128, u32))
        requires
            sim < sims,
            sims <= MAX_SIMS,
            runnable(train_by_day, ax, &c, block),
        ensures
            path_ints(o) == funded_path_of(train_by_day, ax, &c, block, base_seed, sim),
            0 <= o.0 <= 6 * MAX_AMOUNT,
            o.3 <= c.max_days,
        {
            run_funded_path(train_by_day, ax, &c, block, base_seed, sim)
        };
    let res: Vec<(i64, bool, i128, u32)> = parallel_map(sims, one);

    let ghost p_zero = |p: FundedPath| p.ext <= 0;
    let ghost p_2500 = |p: FundedPath| p.ext >= 2_500_000_000;
    let ghost p_10k = |p: FundedPath| p.ext >= 10_000_000_000;
    let ghost p_20k = |p: FundedPath| p.ext >= 20_000_000_000;
    let ghost p_blown = |p: FundedPath| p.blown;
    let mut exts: Vec<i128> = Vec::new();
    let mut dds: Vec<i128> = Vec::new();
    let mut ext_sum: i128 = 0;
    let mut day_sum: i64 = 0;
    let mut zero: i64 = 0;
    let mut over_2500: i64 = 0;
    let mut over_10k: i64 = 0;
    let mut over_20k: i64 = 0;
    let mut blown: i64 = 0;
    let mut i: usize = 0;
    proof {
        assert(exts@ == extractions(paths.take(0)));
        assert(dds@ == drawdowns(paths.take(0)));
        assert(ints(exts@) == Seq::<int>::empty());
        assert(holdings(paths.take(0)) == Seq::<int>::empty());
    }
    while i < sims
        invariant
            i <= sims,
            sims <= MAX_SIMS,
            res@.len() == sims,
            paths.len() == sims,
            0 <= c.max_days,
            forall|j: usize|
                #![trigger res@[j as int]]
                j < sims ==> path_ints(res@[j as int]) == paths[j as int] && 0 <= res@[j as int].0
                    <= 6 * MAX_AMOUNT && res@[j as int].3 <= c.max_days,
            p_zero == (|p: FundedPath| p.ext <= 0),
            p_2500 == (|p: FundedPath| p.ext >= 2_500_000_000),
            p_10k == (|p: FundedPath| p.ext >= 10_000_000_000),
            p_20k == (|p: FundedPath| p.ext >= 20_000_000_000),
            p_blown == (|p: FundedPath| p.blown),
            exts@ == extractions(paths.take(i as int)),
            dds@ == drawdowns(paths.take(i as int)),
            ext_sum == total(ints(exts@)),
            0 <= ext_sum <= 6_000_000_000_000 * i,
            day_sum == total(holdings(paths.take(i as int))),
            0 <= day_sum <= c.max_days * i,
            day_sum <= 0x7fff_ffff * i,
            zero == count_where(paths.take(i as int), p_zero),
            over_2500 == count_where(paths.take(i as int), p_2500),
            over_10k == count_where(paths.take(i as int), p_10k),
            over_20k == count_where(paths.take(i as int), p_20k),
            blown == count_where(paths.take(i as int), p_blown),
            zero <= i,
            over_2500 <= i,
            over_10k <= i,
            over_20k <= i,
            blown <= i,
        decreases sims - i,
    {
        let (ext, failed, dd, held): (i64, bool, i128, u32) = res[i];
        proof {
            let next = paths.take(i + 1);
            assert(next.drop_last() == paths.take(i as int));
            assert(next.last() == paths[i as int]);
            assert(path_ints(res@[i as int]) == paths[i as int]);
            assert(extractions(next) == exts@.push(ext as i128));
            assert(drawdowns(next) == dds@.push(dd));
            assert(ints(exts@.push(ext as i128)).drop_last() == ints(exts@));
            assert(holdings(next).drop_last() == holdings(paths.take(i as int)));
            assert(c.max_days * (i + 1) == c.max_days * i + c.max_days) by (nonlinear_arith);
        }
        exts.push(ext as i128);
        dds.push(dd);
        ext_sum = ext_sum + ext as i128;
        day_sum = day_sum + held as i64;
        if ext <= 0 {
            zero = zero + 1;
        }
        if ext >= 2_500_000_000 {
            over_2500 = over_2500 + 1;
        }
        if ext >= 10_000_000_000 {
            over_10k = over_10k + 1;
        }
        if ext >= 20_000_000_000 {
            over_20k = over_20k + 1;
        }
        if failed {
            blown = blown + 1;
        }
        i = i + 1;
    }
    proof {
        assert(paths.take(sims as int) == paths);
        assert forall|j: int| 0 <= j < sims implies 0 <= #[trigger] exts@[j] <= 6 * MAX_AMOUNT by {
            let k = j as usize;
            assert(path_ints(res@[k as int]) == paths[k as int]);
        }
    }
    let ext_sorted: Vec<i128> = sorted(&exts);
    let dd_sorted: Vec<i128> = sorted(&dds);
    let n: i64 = sims as i64;
    let mean: i128 = round_div(ext_sum, n as i128);
    let median: i128 = quantile_of_sorted(&ext_sorted, 50, 100);
    let p5: i128 = quantile_of_sorted(&ext_sorted, 5, 100);
    proof {
        assert(0 <= mean <= 6 * MAX_AMOUNT) by {
            lemma_nearest_bound(ext_sum as int, n as int, 6 * MAX_AMOUNT);
        }
        lemma_in_order_bounds(exts@, 0, 6 * MAX_AMOUNT);
    }
    FundedDist {
        mean_ext: mean as i64,
        median_ext: median as i64,
        p5_ext: p5 as i64,
        p_ext_zero: Ratio { num: zero, den: n },
        p_ext_2500: Ratio { num: over_2500, den: n },
        p_ext_10k: Ratio { num: over_10k, den: n },
        p_ext_20k: Ratio { num: over_20k, den: n },
        blowup_rate: Ratio { num: blown, den: n },
        max_pa_dd_median: quantile_of_sorted(&dd_sorted, 50, 100),
        max_pa_dd_p95: quantile_of_sorted(&dd_sorted, 95, 100),
        mean_days_held: Ratio { num: day_sum, den: n },
    }
}

// ---------------------------------------------------------------------------
// Seeds
// ---------------------------------------------------------------------------

/// Multiplier of the seed mix.
pub const SEED_PRIME: u64 = 0x0000_0100_0000_01B3;

/// Closes one text part of a seed.
pub const SEED_SEPARATOR: u64 = 0x5F;

/// A seed with one more word mixed in.
pub open spec fn mix(s: u64, word: u64) -> u64 {
    s.wrapping_mul(SEED_PRIME).wrapping_add(word)
}

/// A seed with all the words mixed in, first to last.
pub open spec fn mixed(s: u64, words: Seq<u64>) -> u64
    decreases words.len(),
{
    if words.len() == 0 {
        s
    } else {
        mix(mixed(s, words.drop_last()), words.last())
    }
}

/// The words of text parts: the bytes of each, then the separator.
pub open spec fn part_words(parts: Seq<Seq<char>>) -> Seq<u64>
    decreases parts.len(),
{
    if parts.len() == 0 {
        Seq::empty()
    } else {
        part_words(parts.drop_last()) + encode_utf8(parts.last()).map_values(|b: u8| b as u64)
            + seq![SEED_SEPARATOR]
    }
}

/// The words of whole numbers.
pub open spec fn number_words(nums: Seq<i64>) -> Seq<u64> {
    nums.map_values(|v: i64| v as u64)
}

/// Everything that distinguishes one configuration, as words.
pub open spec fn seed_words(parts: Seq<Seq<char>>, nums: Seq<i64>, ints: Seq<i64>) -> Seq<u64> {
    part_words(parts) + number_words(nums) + number_words(ints)
}

proof fn lemma_mixed_push(s: u64, words: Seq<u64>, word: u64)
    ensures
        mixed(s, words.push(word)) == mix(mixed(s, words), word),
{
    assert(words.push(word).drop_last() == words);
}

fn mix_numbers(start: u64, nums: &[i64]) -> (r: u64)
    ensures
        forall|base: u64, words: Seq<u64>|
            start == #[trigger] mixed(base, words) ==> r == mixed(
                base,
                words + number_words(nums@),
            ),
{
    let mut s: u64 = start;
    let mut i: usize = 0;
    proof {
        assert forall|base: u64, words: Seq<u64>| start == #[trigger] mixed(base, words) implies s
            == mixed(base, words + number_words(nums@.take(0))) by {
            assert(words + number_words(nums@.take(0)) == words);
        }
    }
    while i < nums.len()
        invariant
            i <= nums@.len(),
            forall|base: u64, words: Seq<u64>|
                start == #[trigger] mixed(base, words) ==> s == mixed(
                    base,
                    words + number_words(nums@.take(i as int)),
                ),
        decreases nums@.len() - i,
    {
        let word: u64 = #[verifier::truncate]
        (nums[i] as u64);
        let next: u64 = s.wrapping_mul(SEED_PRIME).wrapping_add(word);
        proof {
            assert forall|base: u64, words: Seq<u64>|
                start == #[trigger] mixed(base, words) implies next == mixed(
                base,
                words + number_words(nums@.take(i + 1)),
            ) by {
                let so_far = words + number_words(nums@.take(i as int));
                assert(words + number_words(nums@.take(i + 1)) == so_far.push(word));
                lemma_mixed_push(base, so_far, word);
            }
        }
        s = next;
        i = i + 1;
    }
    proof {
        assert(nums@.take(nums@.len() as int) == nums@);
    }
    s
}

/// Deterministic seed for one grid cell.
///
/// Every field that distinguishes one configuration from another is mixed in:
/// the text parts, then the numbers in thousandths, then the whole numbers. An
/// under-specified seed would give distinct configurations an identical
/// bootstrap index sequence, which correlates their pass-rate estimates.
pub fn config_seed(base: u64, parts: &[&str], nums: &[i64], ints: &[i64]) -> (r: u64)
    ensures
        r == mixed(base, seed_words(views(parts@), nums@, ints@)),
{
    let mut s: u64 = base;
    let mut i: usize = 0;
    while i < parts.len()
        invariant
            i <= parts@.len(),
            s == mixed(base, part_words(views(parts@).take(i as int))),
        decreases parts@.len() - i,
    {
        let bytes: &[u8] = parts[i].as_bytes();
        let ghost before = part_words(views(parts@).take(i as int));
        let ghost widened = bytes@.map_values(|b: u8| b as u64);
        let mut j: usize = 0;
        proof {
            assert(before + widened.take(0) == before);
        }
        while j < bytes.len()
            invariant
                j <= bytes@.len(),
                widened == bytes@.map_values(|b: u8| b as u64),
                s == mixed(base, before + widened.take(j as int)),
            decreases bytes@.len() - j,
        {
            proof {
                let so_far = before + widened.take(j as int);
                assert(before + widened.take(j + 1) == so_far.push(bytes@[j as int] as u64));
                lemma_mixed_push(base, so_far, bytes@[j as int] as u64);
            }
            s = s.wrapping_mul(SEED_PRIME).wrapping_add(bytes[j] as u64);
            j = j + 1;
        }
        proof {
            assert(widened.take(widened.len() as int) == widened);
            lemma_mixed_push(base, before + widened, SEED_SEPARATOR);
            assert(views(parts@).take(i + 1).drop_last() == views(parts@).take(i as int));
            assert(part_words(views(parts@).take(i + 1)) == (before + widened).push(SEED_SEPARATOR));
        }
        s = s.wrapping_mul(SEED_PRIME).wrapping_add(SEED_SEPARATOR);
        i = i + 1;
    }
    proof {
        assert(views(parts@).take(parts@.len() as int) == views(parts@));
    }
    let with_nums: u64 = mix_numbers(s, nums);
    mix_numbers(with_nums, ints)
}

} // verus!
