//! Expected value of an evaluation attempt.
//!
//! The flat ("legacy") formula, `pr * mean_ext - (fee + act + pamo * 2)`, charges
//! the activation fee and two months of platform fees on every attempt, passed or
//! failed, but both are payable only on a funded account. Subtracting the right
//! expression from it leaves an error that depends only on the pass rate:
//!
//! ```text
//! error(pr) = act * (pr - 1) + pamo * (pr * M - 2)
//! ```
//!
//! The evaluation fee cancels exactly.
//!
//! Pass rates and months come as fractions, haircuts in millionths and amounts in
//! micro-dollars. Amounts of a funded account are whole millionths of a
//! micro-dollar ("fine"), platform fees to the nearest; expected values are
//! fractions of those, exact in the pass rate.

use vstd::prelude::*;

use crate::num::{lemma_nearest_within, nearest, round_div, Fraction, Ratio, MILLION};
use crate::types::{Account, MAX_AMOUNT};

verus! {

#[derive(Clone, Copy, Debug, PartialEq, Eq, Structural)]
pub struct EvParams {
    /// Fraction of simulated extraction assumed to be actually received, in
    /// millionths. One million assumes every payout is paid in full and on time.
    pub payout_haircut: i64,
    /// Number of accounts intended to be run on this configuration at once.
    pub parallel_accounts: usize,
}

impl Default for EvParams {
    fn default() -> (r: Self)
        ensures
            r == (EvParams { payout_haircut: 1_000_000, parallel_accounts: 1 }),
    {
        EvParams { payout_haircut: 1_000_000, parallel_accounts: 1 }
    }
}

#[derive(Clone, Copy, Debug, PartialEq, Eq, Structural)]
pub struct EvBreakdown {
    pub pass_rate: Ratio,
    /// In micro-dollars.
    pub gross_ext: i64,
    /// The trader's share of the extraction after the realisation haircut, fine.
    pub net_ext: i128,
    pub months_held: Ratio,
    /// Activation plus platform fees, incurred only when funded, fine.
    pub funded_costs: i128,
    /// Evaluation purchase price, incurred on every attempt, in micro-dollars.
    pub eval_fee: i64,
    /// The ranking metric: value of buying one evaluation, fine.
    pub ev_per_attempt: Fraction,
    /// Value per funded account obtained, counting the cost of failed attempts,
    /// fine. `None` when the pass rate is zero.
    pub ev_per_funded: Option<Fraction>,
    /// Expected evaluations purchased per funded account, 1/pr. `None` when the
    /// pass rate is zero.
    pub expected_attempts: Option<Fraction>,
    /// What the flat formula would have reported, fine.
    pub legacy_ev: Fraction,
    /// legacy_ev - ev_per_attempt, fine.
    pub legacy_error: Fraction,
    /// Accounts run on one configuration.
    pub n_parallel: usize,
    /// Total outlay exposed before any payout arrives, in micro-dollars.
    pub bankroll_at_risk: Fraction,
    /// Fine, to the nearest.
    pub ev_total: i128,
    /// Probability the whole venture extracts nothing. Identical to the single
    /// account figure, because accounts on the same configuration share one
    /// price path and therefore do not diversify.
    pub p_total_zero: Ratio,
}

/// Months of platform fee the flat formula assumes.
pub const LEGACY_MONTHS: i64 = 2;

/// Most months held that the cost model admits.
pub const MAX_MONTHS: i64 = 110_000_000;

/// Largest denominator of the months held that the cost model admits.
pub const MAX_MONTHS_DEN: i64 = 50_000_000_000;

/// Largest denominator of a pass rate that the cost model admits.
pub const MAX_RATE_DEN: i64 = 2_147_483_647;

/// Most accounts in parallel that the cost model admits.
pub const MAX_PARALLEL: usize = 4_294_967_295;

/// Largest expected value, fine, that the cost model comes to.
pub const MAX_EV: i128 = 130_000_000_000_000_000_000_000_000;

/// Whether a fraction is a rate of passes that the cost model admits.
pub open spec fn is_pass_rate(r: Ratio) -> bool {
    0 < r.den <= MAX_RATE_DEN && 0 <= r.num <= r.den
}

/// Whether a fraction is an expected value that the cost model comes to.
pub open spec fn is_value(f: Fraction) -> bool {
    0 < f.den <= MAX_RATE_DEN && -(MAX_EV * f.den) <= f.num <= MAX_EV * f.den
}

/// Whether a fraction is a number of months that the cost model admits.
pub open spec fn is_months(m: Ratio) -> bool {
    0 < m.den <= MAX_MONTHS_DEN && 0 <= m.num <= MAX_MONTHS * m.den
}

/// Platform fees over the months held, fine, to the nearest.
pub open spec fn platform_fees(ax: Account, months: Ratio) -> int {
    nearest(ax.pamo * MILLION * months.num, months.den as int)
}

/// Activation plus platform fees over the months held, fine.
pub open spec fn costs_when_funded(ax: Account, months: Ratio) -> int {
    ax.act * MILLION + platform_fees(ax, months)
}

/// The value of one attempt, fine, times the denominator of the pass rate: with
/// the pass rate, what a funded account nets after its costs; always, less the
/// fee.
pub open spec fn attempt_value(ax: Account, pr: Ratio, net: int, months: Ratio) -> int {
    pr.num * (net - costs_when_funded(ax, months)) - ax.fee * MILLION * pr.den
}

/// What the flat formula reports, fine, times the denominator of the pass rate.
pub open spec fn legacy_value(ax: Account, pr: Ratio, gross: int) -> int {
    pr.num * (gross * MILLION) - (ax.fee + ax.act + ax.pamo * LEGACY_MONTHS) * MILLION * pr.den
}

/// Closed-form error of the flat cost term, fine, times the denominator of the
/// pass rate.
pub open spec fn cost_error(ax: Account, pr: Ratio, months: Ratio) -> int {
    ax.act * MILLION * (pr.num - pr.den) + (pr.num * platform_fees(ax, months) - ax.pamo
        * LEGACY_MONTHS * MILLION * pr.den)
}

/// A value held between two bounds.
pub open spec fn clamped(x: int, lo: int, hi: int) -> int {
    if x < lo {
        lo
    } else if x > hi {
        hi
    } else {
        x
    }
}

/// Months held, at least one.
pub open spec fn at_least_a_month(m: Ratio) -> Ratio {
    if m.num < m.den {
        Ratio { num: m.den, den: m.den }
    } else {
        m
    }
}

/// Whether a breakdown is that of a configuration on an account product.
pub open spec fn breaks_down(
    b: EvBreakdown,
    ax: Account,
    pass_rate: Ratio,
    gross_ext: i64,
    p_ext_zero: Ratio,
    months_held: Ratio,
    p: EvParams,
) -> bool {
    let haircut = clamped(p.payout_haircut as int, 0, MILLION as int);
    let months = at_least_a_month(months_held);
    let net = ax.share(gross_ext as int) * haircut;
    let value = attempt_value(ax, pass_rate, net, months);
    let n = if p.parallel_accounts < 1 {
        1
    } else {
        p.parallel_accounts as int
    };
    &&& b.pass_rate == pass_rate
    &&& b.gross_ext == gross_ext
    &&& b.net_ext == net
    &&& b.months_held == months
    &&& b.funded_costs == costs_when_funded(ax, months)
    &&& b.eval_fee == ax.fee
    &&& b.ev_per_attempt.num == value && b.ev_per_attempt.den == pass_rate.den
    &&& b.ev_per_funded is Some <==> pass_rate.num > 0
    &&& b.ev_per_funded matches Some(f) ==> f.num == value && f.den == pass_rate.num
    &&& b.expected_attempts is Some <==> pass_rate.num > 0
    &&& b.expected_attempts matches Some(f) ==> f.num == pass_rate.den && f.den == pass_rate.num
    &&& b.legacy_ev.num == legacy_value(ax, pass_rate, gross_ext as int)
    &&& b.legacy_ev.den == pass_rate.den
    &&& b.legacy_error.num == b.legacy_ev.num - b.ev_per_attempt.num
    &&& b.legacy_error.den == pass_rate.den
    &&& b.n_parallel == n
    &&& b.bankroll_at_risk.num == n * (ax.fee * pass_rate.den + pass_rate.num * ax.act)
    &&& b.bankroll_at_risk.den == pass_rate.den
    &&& b.ev_total == nearest(n * value, pass_rate.den as int)
    &&& b.p_total_zero == p_ext_zero
}

/// The breakdown of a configuration on an account product.
pub open spec fn breakdown(
    ax: Account,
    pass_rate: Ratio,
    gross_ext: i64,
    p_ext_zero: Ratio,
    months_held: Ratio,
    p: EvParams,
) -> EvBreakdown {
    let haircut = clamped(p.payout_haircut as int, 0, MILLION as int);
    let months = at_least_a_month(months_held);
    let net = ax.share(gross_ext as int) * haircut;
    let value = attempt_value(ax, pass_rate, net, months);
    let legacy = legacy_value(ax, pass_rate, gross_ext as int);
    let n = if p.parallel_accounts < 1 {
        1
    } else {
        p.parallel_accounts
    };
    let den = pass_rate.den as i128;
    EvBreakdown {
        pass_rate,
        gross_ext,
        net_ext: net as i128,
        months_held: months,
        funded_costs: costs_when_funded(ax, months) as i128,
        eval_fee: ax.fee,
        ev_per_attempt: Fraction { num: value as i128, den },
        ev_per_funded: if pass_rate.num > 0 {
            Some(Fraction { num: value as i128, den: pass_rate.num as i128 })
        } else {
            None
        },
        expected_attempts: if pass_rate.num > 0 {
            Some(Fraction { num: den, den: pass_rate.num as i128 })
        } else {
            None
        },
        legacy_ev: Fraction { num: legacy as i128, den },
        legacy_error: Fraction { num: (legacy - value) as i128, den },
        n_parallel: n,
        bankroll_at_risk: Fraction {
            num: (n * (ax.fee * pass_rate.den + pass_rate.num * ax.act)) as i128,
            den,
        },
        ev_total: nearest(n * value, pass_rate.den as int) as i128,
        p_total_zero: p_ext_zero,
    }
}

proof fn lemma_product(a: int, b: int, ma: int, mb: int)
    requires
        -ma <= a <= ma,
        -mb <= b <= mb,
        0 <= ma,
        0 <= mb,
    ensures
        -(ma * mb) <= a * b <= ma * mb,
{
    assert(-(ma * mb) <= a * b <= ma * mb) by (nonlinear_arith)
        requires
            -ma <= a <= ma,
            -mb <= b <= mb,
            0 <= ma,
            0 <= mb,
    ;
}

proof fn lemma_fees_within(ax: Account, months: Ratio)
    requires
        ax.in_range(),
        is_months(months),
    ensures
        -110_000_000_000_000_000_000_000_000 <= platform_fees(ax, months)
            <= 110_000_000_000_000_000_000_000_000,
        -9_300_000_000_000_000_000_000_000_000_000_000_000 <= ax.pamo * MILLION * months.num
            <= 9_300_000_000_000_000_000_000_000_000_000_000_000,
{
    let fee = ax.pamo * 1_000_000;
    let n = months.num as int;
    let d = months.den as int;
    lemma_product(fee, n, 1_000_000_000_000_000_000, 9_223_372_036_854_775_807);
    assert(-(110_000_000_000_000_000_000_000_000 * d) <= fee * n
        <= 110_000_000_000_000_000_000_000_000 * d) by (nonlinear_arith)
        requires
            -1_000_000_000_000_000_000 <= fee <= 1_000_000_000_000_000_000,
            0 <= n <= 110_000_000 * d,
    ;
    lemma_nearest_within(fee * n, d, 110_000_000_000_000_000_000_000_000);
}

fn fees_over(ax: &Account, months: Ratio) -> (r: i128)
    requires
        ax.in_range(),
        is_months(months),
    ensures
        r == platform_fees(*ax, months),
        -110_000_000_000_000_000_000_000_000 <= r <= 110_000_000_000_000_000_000_000_000,
{
    proof {
        lemma_fees_within(*ax, months);
    }
    let fee: i128 = ax.pamo as i128 * 1_000_000;
    round_div(fee * months.num as i128, months.den as i128)
}

/// `n` times a fraction, to the nearest.
fn scaled_nearest(n: i128, num: i128, den: i128) -> (r: i128)
    requires
        1 <= n <= 4_294_967_295,
        0 < den <= MAX_RATE_DEN,
        -(MAX_EV * den) <= num <= MAX_EV * den,
    ensures
        r == nearest(n * num, den as int),
{
    // Split off the whole part, so that neither product grows large.
    let q: i128 = floor_div(num, den);
    let rest: i128 = num - q * den;
    proof {
        lemma_product(n as int, q as int, 4_294_967_295, 130_000_000_000_000_000_000_000_001);
        assert(0 <= n * rest <= 4_294_967_295 * 2_147_483_647) by (nonlinear_arith)
            requires
                1 <= n <= 4_294_967_295,
                0 <= rest < den,
                den <= 2_147_483_647,
        ;
        let a = n * rest;
        let d = den as int;
        assert(2 * (n * num) + d == (n * q) * (2 * d) + (2 * a + d)) by (nonlinear_arith)
            requires
                num == q * d + rest,
                a == n * rest,
        ;
        vstd::arithmetic::div_mod::lemma_hoist_over_denominator(2 * a + d, n * q, (2 * d) as nat);
        assert(a <= 4_294_967_295 * d) by (nonlinear_arith)
            requires
                a == n * rest,
                1 <= n <= 4_294_967_295,
                0 <= rest < d,
        ;
        lemma_nearest_within(a, d, 4_294_967_295);
    }
    n * q + round_div(n * rest, den)
}

/// The whole part of a fraction, rounded down.
fn floor_div(num: i128, den: i128) -> (q: i128)
    requires
        0 < den <= MAX_RATE_DEN,
        -(MAX_EV * den) <= num <= MAX_EV * den,
    ensures
        q * den <= num < q * den + den,
        -MAX_EV <= q <= MAX_EV,
{
    proof {
        assert(-(130_000_000_000_000_000_000_000_000 * den) <= num
            <= 130_000_000_000_000_000_000_000_000 * den);
        lemma_product(
            130_000_000_000_000_000_000_000_000,
            den as int,
            130_000_000_000_000_000_000_000_000,
            2_147_483_647,
        );
    }
    let q: i128 = if num >= 0 {
        num / den
    } else {
        -((-num - 1) / den) - 1
    };
    proof {
        let d = den as int;
        let b: int = 130_000_000_000_000_000_000_000_000;
        if num >= 0 {
            vstd::arithmetic::div_mod::lemma_fundamental_div_mod(num as int, d);
            assert(q * d == d * (num as int / d)) by (nonlinear_arith)
                requires
                    q == num as int / d,
            ;
        } else {
            let m = -num - 1;
            vstd::arithmetic::div_mod::lemma_fundamental_div_mod(m, d);
            let k = m / d;
            assert(q * d == -(d * k) - d) by (nonlinear_arith)
                requires
                    q == -k - 1,
            ;
        }
        assert(q <= b) by (nonlinear_arith)
            requires
                q * d <= num,
                num <= b * d,
                d > 0,
        ;
        assert(q >= -b) by (nonlinear_arith)
            requires
                num < q * d + d,
                -(b * d) <= num,
                d > 0,
        ;
    }
    q
}

/// Compute expected value for one configuration on one account product.
pub fn evaluate(
    ax: &Account,
    pass_rate: Ratio,
    gross_ext: i64,
    p_ext_zero: Ratio,
    months_held: Ratio,
    p: &EvParams,
) -> (r: EvBreakdown)
    requires
        ax.in_range(),
        is_pass_rate(pass_rate),
        -10 * MAX_AMOUNT <= gross_ext <= 10 * MAX_AMOUNT,
        is_months(months_held),
        p.parallel_accounts <= MAX_PARALLEL,
    ensures
        breaks_down(r, *ax, pass_rate, gross_ext, p_ext_zero, months_held, *p),
        r == breakdown(*ax, pass_rate, gross_ext, p_ext_zero, months_held, *p),
        is_value(r.ev_per_attempt),
        is_value(r.legacy_error),
{
    let haircut: i128 = if p.payout_haircut < 0 {
        0
    } else if p.payout_haircut > MILLION {
        MILLION as i128
    } else {
        p.payout_haircut as i128
    };
    let months: Ratio = if months_held.num < months_held.den {
        Ratio { num: months_held.den, den: months_held.den }
    } else {
        months_held
    };
    let pr: i128 = pass_rate.num as i128;
    let den: i128 = pass_rate.den as i128;
    let gross: i128 = gross_ext as i128;
    let share: i128 = ax.trader_share(gross_ext) as i128;
    let act: i128 = ax.act as i128;
    let pamo: i128 = ax.pamo as i128;
    let fee: i128 = ax.fee as i128;
    proof {
        assert(months.num <= MAX_MONTHS * months.den);
        lemma_product(share as int, haircut as int, 10_000_000_000_000, 1_000_000);
    }
    let net: i128 = share * haircut;
    let costs: i128 = act * 1_000_000 + fees_over(ax, months);
    let fine_fee: i128 = fee * 1_000_000;
    let flat: i128 = (fee + act + pamo * 2) * 1_000_000;
    let left: i128 = net - costs;
    let fine_gross: i128 = gross * 1_000_000;
    proof {
        let (d, x) = (den as int, pr as int);
        let b: int = 120_000_000_000_000_000_000_000_000;
        lemma_product(x, left as int, 2_147_483_647, b);
        lemma_product(fine_fee as int, d, 1_000_000_000_000_000_000, 2_147_483_647);
        lemma_product(x, fine_gross as int, 2_147_483_647, 10_000_000_000_000_000_000);
        lemma_product(flat as int, d, 4_000_000_000_000_000_000, 2_147_483_647);
        assert(-(b * d) <= x * left <= b * d) by (nonlinear_arith)
            requires
                0 <= x <= d,
                -b <= left <= b,
                b > 0,
        ;
        let f = fine_fee as int;
        assert(-(1_000_000_000_000_000_000 * d) <= f * d <= 1_000_000_000_000_000_000 * d)
            by (nonlinear_arith)
            requires
                -1_000_000_000_000_000_000 <= f <= 1_000_000_000_000_000_000,
                d > 0,
        ;
        let g = fine_gross as int;
        assert(-(10_000_000_000_000_000_000 * d) <= x * g <= 10_000_000_000_000_000_000 * d)
            by (nonlinear_arith)
            requires
                0 <= x <= d,
                -10_000_000_000_000_000_000 <= g <= 10_000_000_000_000_000_000,
        ;
        let h = flat as int;
        assert(-(4_000_000_000_000_000_000 * d) <= h * d <= 4_000_000_000_000_000_000 * d)
            by (nonlinear_arith)
            requires
                -4_000_000_000_000_000_000 <= h <= 4_000_000_000_000_000_000,
                d > 0,
        ;
    }
    let value: i128 = pr * left - fine_fee * den;
    let legacy: i128 = pr * fine_gross - flat * den;
    let n: usize = if p.parallel_accounts < 1 {
        1
    } else {
        p.parallel_accounts
    };
    proof {
        lemma_product(fee as int, den as int, 1_000_000_000_000, 2_147_483_647);
        lemma_product(pr as int, act as int, 2_147_483_647, 1_000_000_000_000);
    }
    let outlay: i128 = fee * den + pr * act;
    proof {
        lemma_product(n as int, outlay as int, 4_294_967_295, 5_000_000_000_000_000_000_000);
    }
    EvBreakdown {
        pass_rate,
        gross_ext,
        net_ext: net,
        months_held: months,
        funded_costs: costs,
        eval_fee: ax.fee,
        ev_per_attempt: Fraction { num: value, den },
        ev_per_funded: if pass_rate.num > 0 {
            Some(Fraction { num: value, den: pr })
        } else {
            None
        },
        expected_attempts: if pass_rate.num > 0 {
            Some(Fraction { num: den, den: pr })
        } else {
            None
        },
        legacy_ev: Fraction { num: legacy, den },
        legacy_error: Fraction { num: legacy - value, den },
        n_parallel: n,
        // Every account pays its fee up front; a funded one also pays activation.
        bankroll_at_risk: Fraction { num: (n as i128) * outlay, den },
        ev_total: scaled_nearest(n as i128, value, den),
        p_total_zero: p_ext_zero,
    }
}

/// Closed-form error of the flat cost term, for a given account and
/// holding period, fine. Exposed so the correction can be held against the
/// published account constants rather than inferred from output.
pub fn legacy_cost_error(ax: &Account, pass_rate: Ratio, months: Ratio) -> (r: Fraction)
    requires
        ax.in_range(),
        is_pass_rate(pass_rate),
        is_months(months),
    ensures
        r.num == cost_error(*ax, pass_rate, months),
        r.den == pass_rate.den,
{
    let pr: i128 = pass_rate.num as i128;
    let den: i128 = pass_rate.den as i128;
    let act: i128 = ax.act as i128 * 1_000_000;
    let two: i128 = ax.pamo as i128 * 2 * 1_000_000;
    let fees: i128 = fees_over(ax, months);
    proof {
        lemma_product(act as int, pr - den, 1_000_000_000_000_000_000, 2_147_483_647);
        lemma_product(
            pr as int,
            fees as int,
            2_147_483_647,
            110_000_000_000_000_000_000_000_000,
        );
        lemma_product(two as int, den as int, 2_000_000_000_000_000_000, 2_147_483_647);
    }
    Fraction { num: act * (pr - den) + (pr * fees - two * den), den }
}

/// Pass rate at which the flat formula changes from understating expected
/// value to overstating it, as a fraction. The denominator is what a funded
/// account costs, fine: 0 for one that costs nothing.
pub fn legacy_error_crossover(ax: &Account, months: Ratio) -> (r: Fraction)
    requires
        ax.in_range(),
        is_months(months),
    ensures
        r.num == (ax.act + ax.pamo * LEGACY_MONTHS) * MILLION,
        r.den == costs_when_funded(*ax, months),
{
    Fraction {
        num: (ax.act as i128 + (ax.pamo as i128) * 2) * 1_000_000,
        den: (ax.act as i128) * 1_000_000 + fees_over(ax, months),
    }
}

// ---------------------------------------------------------------------------
// What holds of the cost model
// ---------------------------------------------------------------------------

/// The error of the flat formula is the closed form, at every pass rate,
/// on every account, where payouts are neither cut nor split.
pub proof fn the_legacy_error_is_its_closed_form(
    b: EvBreakdown,
    ax: Account,
    pass_rate: Ratio,
    gross_ext: i64,
    p_ext_zero: Ratio,
    months_held: Ratio,
    p: EvParams,
)
    requires
        breaks_down(b, ax, pass_rate, gross_ext, p_ext_zero, months_held, p),
        p.payout_haircut >= MILLION,
        gross_ext <= ax.split_full_up_to,
        months_held.num >= months_held.den,
    ensures
        b.legacy_error.num == cost_error(ax, pass_rate, months_held),
        b.legacy_error.den == pass_rate.den,
{
    let pr = pass_rate.num as int;
    let d = pass_rate.den as int;
    let g = gross_ext * 1_000_000;
    let act = ax.act * 1_000_000;
    let two = ax.pamo * 2 * 1_000_000;
    let fee = ax.fee * 1_000_000;
    let f = platform_fees(ax, months_held);
    assert(pr * (g - (act + f)) == pr * g - pr * act - pr * f) by (nonlinear_arith);
    assert((fee + act + two) * d == fee * d + act * d + two * d) by (nonlinear_arith);
    assert(act * (pr - d) == pr * act - act * d) by (nonlinear_arith);
    assert((ax.fee + ax.act + ax.pamo * 2) * 1_000_000 == fee + act + two);
}

/// The evaluation fee cancels from the error: accounts that differ in nothing but
/// fee, target, drawdown and the like have the same error.
pub proof fn the_evaluation_fee_cancels(a: Account, b: Account, pr: Ratio, months: Ratio)
    requires
        a.act == b.act,
        a.pamo == b.pamo,
    ensures
        cost_error(a, pr, months) == cost_error(b, pr, months),
{
}

/// The error changes sign at the crossover: it is negative below and positive
/// above, wherever a funded account costs anything.
pub proof fn the_error_changes_sign_at_the_crossover(ax: Account, pr: Ratio, months: Ratio)
    requires
        costs_when_funded(ax, months) > 0,
    ensures
        cost_error(ax, pr, months) < 0 <==> pr.num * costs_when_funded(ax, months) < (ax.act
            + ax.pamo * LEGACY_MONTHS) * MILLION * pr.den,
        cost_error(ax, pr, months) > 0 <==> pr.num * costs_when_funded(ax, months) > (ax.act
            + ax.pamo * LEGACY_MONTHS) * MILLION * pr.den,
{
    let act = ax.act * 1_000_000;
    let two = ax.pamo * 2 * 1_000_000;
    let f = platform_fees(ax, months);
    let p = pr.num as int;
    let d = pr.den as int;
    assert(act * (p - d) + (p * f - two * d) == p * (act + f) - (act + two) * d)
        by (nonlinear_arith);
    assert((ax.act + ax.pamo * 2) * 1_000_000 == act + two);
}

/// The value per attempt is the value per funded account times the pass rate, and
/// over the expected attempts.
pub proof fn attempts_and_funded_accounts_agree(
    b: EvBreakdown,
    ax: Account,
    pass_rate: Ratio,
    gross_ext: i64,
    p_ext_zero: Ratio,
    months_held: Ratio,
    p: EvParams,
)
    requires
        breaks_down(b, ax, pass_rate, gross_ext, p_ext_zero, months_held, p),
        pass_rate.num > 0,
    ensures
        b.ev_per_funded is Some,
        ({
            let (a, f, n) = (b.ev_per_attempt, b.ev_per_funded->0, b.expected_attempts->0);
            &&& a.num * (f.den * pass_rate.den) == (f.num * pass_rate.num) * a.den
            &&& (a.num * n.num) * f.den == f.num * (a.den * n.den)
        }),
{
    let v = b.ev_per_attempt.num as int;
    let (x, d) = (pass_rate.num as int, pass_rate.den as int);
    assert(v * (x * d) == (v * x) * d) by (nonlinear_arith);
    assert((v * d) * x == v * (d * x)) by (nonlinear_arith);
}

/// A configuration that never passes costs exactly one fee: no activation or
/// platform fee is incurred on an account never funded.
pub proof fn a_failing_configuration_costs_one_fee(
    b: EvBreakdown,
    ax: Account,
    pass_rate: Ratio,
    gross_ext: i64,
    p_ext_zero: Ratio,
    months_held: Ratio,
    p: EvParams,
)
    requires
        breaks_down(b, ax, pass_rate, gross_ext, p_ext_zero, months_held, p),
        pass_rate.num == 0,
    ensures
        b.ev_per_attempt.num == -(ax.fee * MILLION) * b.ev_per_attempt.den,
        b.ev_per_funded is None,
        b.expected_attempts is None,
{
    let x = b.net_ext - b.funded_costs;
    assert(0 * x == 0) by (nonlinear_arith);
    let f = ax.fee * 1_000_000;
    let d = pass_rate.den as int;
    assert(-(f * d) == -f * d) by (nonlinear_arith);
}

/// A haircut takes from the value and not from the cost: cutting payouts leaves
/// the costs, and lowers the value per attempt by the pass rate times what was
/// cut.
pub proof fn a_haircut_reduces_value_but_not_cost(
    full: EvBreakdown,
    cut: EvBreakdown,
    ax: Account,
    pass_rate: Ratio,
    gross_ext: i64,
    p_ext_zero: Ratio,
    months_held: Ratio,
    p: EvParams,
    q: EvParams,
)
    requires
        breaks_down(full, ax, pass_rate, gross_ext, p_ext_zero, months_held, p),
        breaks_down(cut, ax, pass_rate, gross_ext, p_ext_zero, months_held, q),
    ensures
        full.funded_costs == cut.funded_costs,
        full.ev_per_attempt.den == cut.ev_per_attempt.den,
        full.ev_per_attempt.num - cut.ev_per_attempt.num == pass_rate.num * (full.net_ext
            - cut.net_ext),
{
    let pr = pass_rate.num as int;
    let c = full.funded_costs as int;
    let a = full.net_ext as int;
    let b = cut.net_ext as int;
    assert(pr * (a - c) - pr * (b - c) == pr * (a - b)) by (nonlinear_arith);
}

/// Running a configuration on several accounts multiplies value and outlay, and
/// leaves the probability of extracting nothing as it is.
pub proof fn parallel_accounts_do_not_diversify(
    one: EvBreakdown,
    many: EvBreakdown,
    ax: Account,
    pass_rate: Ratio,
    gross_ext: i64,
    p_ext_zero: Ratio,
    months_held: Ratio,
    p: EvParams,
    n: usize,
)
    requires
        n >= 1,
        breaks_down(
            one,
            ax,
            pass_rate,
            gross_ext,
            p_ext_zero,
            months_held,
            EvParams { parallel_accounts: 1, ..p },
        ),
        breaks_down(
            many,
            ax,
            pass_rate,
            gross_ext,
            p_ext_zero,
            months_held,
            EvParams { parallel_accounts: n, ..p },
        ),
    ensures
        many.ev_total == nearest(n * one.ev_per_attempt.num, one.ev_per_attempt.den as int),
        many.bankroll_at_risk.num == n * one.bankroll_at_risk.num,
        many.bankroll_at_risk.den == one.bankroll_at_risk.den,
        many.p_total_zero == one.p_total_zero,
{
    let outlay = ax.fee * pass_rate.den + pass_rate.num * ax.act;
    assert(1 * outlay == outlay) by (nonlinear_arith);
    assert(one.bankroll_at_risk.num == outlay);
}

proof fn lemma_nearest_grows(a: int, b: int, c: int, d: int)
    requires
        b > 0,
        d > 0,
        a * d <= c * b,
    ensures
        nearest(a, b) <= nearest(c, d),
{
    let k = nearest(a, b);
    vstd::arithmetic::div_mod::lemma_fundamental_div_mod(2 * a + b, 2 * b);
    assert((2 * b) * k <= 2 * a + b);
    assert(k * (2 * d) <= 2 * c + d) by (nonlinear_arith)
        requires
            (2 * b) * k <= 2 * a + b,
            a * d <= c * b,
            b > 0,
            d > 0,
    ;
    vstd::arithmetic::div_mod::lemma_div_is_ordered(k * (2 * d), 2 * c + d, 2 * d);
    assert(k * (2 * d) == (2 * d) * k) by (nonlinear_arith);
    vstd::arithmetic::div_mod::lemma_div_multiples_vanish(k, 2 * d);
}

proof fn lemma_nearest_whole(x: int)
    ensures
        nearest(x, 1) == x,
{
    assert((2 * x + 1) / 2 == x);
}

/// Holding a funded account longer costs more, by the monthly fee, and is worth
/// less.
pub proof fn a_longer_holding_period_costs_more(
    short: EvBreakdown,
    long: EvBreakdown,
    ax: Account,
    pass_rate: Ratio,
    gross_ext: i64,
    p_ext_zero: Ratio,
    months_short: Ratio,
    months_long: Ratio,
    p: EvParams,
)
    requires
        breaks_down(short, ax, pass_rate, gross_ext, p_ext_zero, months_short, p),
        breaks_down(long, ax, pass_rate, gross_ext, p_ext_zero, months_long, p),
        0 < months_short.den <= months_short.num,
        0 < months_long.den <= months_long.num,
        months_short.num * months_long.den <= months_long.num * months_short.den,
        pass_rate.num >= 0,
        ax.pamo >= 0,
    ensures
        long.funded_costs >= short.funded_costs,
        months_short.den == 1 && months_long.den == 1 ==> long.funded_costs - short.funded_costs
            == ax.pamo * MILLION * (months_long.num - months_short.num),
        long.ev_per_attempt.den == short.ev_per_attempt.den,
        long.ev_per_attempt.num <= short.ev_per_attempt.num,
{
    let pr = pass_rate.num as int;
    let fee = ax.pamo * 1_000_000;
    let (sn, sd) = (months_short.num as int, months_short.den as int);
    let (ln, ld) = (months_long.num as int, months_long.den as int);
    assert((fee * sn) * ld <= (fee * ln) * sd) by (nonlinear_arith)
        requires
            sn * ld <= ln * sd,
            fee >= 0,
    ;
    lemma_nearest_grows(fee * sn, sd, fee * ln, ld);
    let net = short.net_ext as int;
    let cs = short.funded_costs as int;
    let cl = long.funded_costs as int;
    assert(fee * ln - fee * sn == fee * (ln - sn)) by (nonlinear_arith);
    lemma_nearest_whole(fee * sn);
    lemma_nearest_whole(fee * ln);
    assert(pr * (net - cl) <= pr * (net - cs)) by (nonlinear_arith)
        requires
            pr >= 0,
            cl >= cs,
    ;
}

} // verus!
