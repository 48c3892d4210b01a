//! How positions are sized, and what attempts, shares and trades cost and pay.

use vstd::prelude::*;

use crate::ev::{breaks_down, EvBreakdown, EvParams};
use crate::num::Ratio;
use crate::stat_laws::the_nearest_is_off_by_at_most_a_half;
use crate::types::{contracts, Account, InstCfg, SizeInputs};

verus! {

// ---------------------------------------------------------------------------
// Sizing
// ---------------------------------------------------------------------------

/// The most contracts that may be traded, at least one.
pub open spec fn cap_of(x: SizeInputs) -> int {
    if x.max_c < 1 {
        1
    } else {
        x.max_c
    }
}

/// How far the equity is above its peak less the drawdown, one cent where it is
/// not.
pub open spec fn room_of(x: SizeInputs) -> int {
    if x.eq - x.pk + x.mdd > 0 {
        x.eq - x.pk + x.mdd
    } else {
        10_000
    }
}

/// What one contract risks, in micro-dollars, one cent at the least.
pub open spec fn risk_of(x: SizeInputs, pv: int) -> int {
    if x.trade_risk * pv * 100 < 10_000 {
        10_000
    } else {
        x.trade_risk * pv * 100
    }
}

/// Whether `n` contracts are `a / b` of the cap, rounded down, and at least one.
pub open spec fn is_part_of_cap(n: int, cap: int, a: int, b: int) -> bool {
    &&& n >= 1
    &&& n == 1 || b * n <= a * cap
    &&& b * (n + 1) > a * cap
}

/// The fixed geometry trades one contract.
pub proof fn the_fixed_size_is_one(x: SizeInputs, long_wr: Ratio, short_wr: Ratio, pv: int)
    ensures
        contracts(0, x, long_wr, short_wr, pv) == 1,
{
}

/// Every geometry trades at least one contract and no more than the cap.
pub proof fn sizes_keep_to_the_cap(
    rg: int,
    x: SizeInputs,
    long_wr: Ratio,
    short_wr: Ratio,
    pv: int,
)
    ensures
        1 <= contracts(rg, x, long_wr, short_wr, pv) <= cap_of(x),
{
}

/// The floor-aware geometry trades the cap with more than seven tenths of the
/// drawdown left, half of it with more than four tenths, and one contract below.
pub proof fn the_floor_aware_size_shrinks_toward_the_floor(
    x: SizeInputs,
    long_wr: Ratio,
    short_wr: Ratio,
    pv: int,
)
    requires
        x.mdd > 0,
    ensures
        ({
            let n = contracts(1, x, long_wr, short_wr, pv);
            let (room, cap) = (room_of(x), cap_of(x));
            if 10 * room > 7 * x.mdd {
                n == cap
            } else if 10 * room > 4 * x.mdd {
                is_part_of_cap(n, cap, 1, 2)
            } else {
                n == 1
            }
        }),
{
}

/// The geometry on a share of the drawdown risks as many contracts as two fifths
/// of the room left pay for, within the cap.
pub proof fn the_drawdown_share_pays_for_the_size(
    x: SizeInputs,
    long_wr: Ratio,
    short_wr: Ratio,
    pv: int,
)
    ensures
        ({
            let n = contracts(2, x, long_wr, short_wr, pv);
            let (room, cap, risk) = (room_of(x), cap_of(x), risk_of(x, pv));
            &&& n == 1 || 5 * n * risk <= 2 * room
            &&& n == cap || 5 * (n + 1) * risk > 2 * room
        }),
{
    let (room, risk) = (room_of(x), risk_of(x, pv));
    lemma_quotient(room * 40, 100 * risk, contracts(2, x, long_wr, short_wr, pv), cap_of(x));
    let n = contracts(2, x, long_wr, short_wr, pv);
    lemma_regroup(n, risk);
    lemma_regroup(n + 1, risk);
}

proof fn lemma_regroup(n: int, risk: int)
    ensures
        n * (100 * risk) == 20 * (5 * n * risk),
        n * (10 * risk) == 10 * (n * risk),
{
    assert(n * (100 * risk) == 20 * (5 * n * risk)) by (nonlinear_arith);
    assert(n * (10 * risk) == 10 * (n * risk)) by (nonlinear_arith);
}

/// A quotient held between one and a cap.
proof fn lemma_quotient(a: int, d: int, n: int, cap: int)
    requires
        d > 0,
        cap >= 1,
        n == (if a / d < 1 {
            1
        } else if a / d > cap {
            cap
        } else {
            a / d
        }),
    ensures
        n == 1 || n * d <= a,
        n == cap || (n + 1) * d > a,
{
    let q = a / d;
    vstd::arithmetic::div_mod::lemma_fundamental_div_mod(a, d);
    let r = a % d;
    assert(n == 1 || n * d <= a) by (nonlinear_arith)
        requires
            a == d * q + r,
            0 <= r < d,
            n == 1 || n <= q,
            d > 0,
    ;
    assert(n == cap || (n + 1) * d > a) by (nonlinear_arith)
        requires
            a == d * q + r,
            0 <= r < d,
            n == cap || n >= q,
            d > 0,
    ;
}

/// The cushion geometry risks as many contracts as twice the cushion over nine
/// tenths of the drawdown pays for, within the cap.
pub proof fn twice_the_cushion_pays_for_the_size(
    x: SizeInputs,
    long_wr: Ratio,
    short_wr: Ratio,
    pv: int,
)
    ensures
        ({
            let n = contracts(3, x, long_wr, short_wr, pv);
            let (cap, risk) = (cap_of(x), risk_of(x, pv));
            &&& n == 1 || 10 * (n * risk) <= 2 * (10 * x.eq + 9 * x.mdd)
            &&& n == cap || 10 * ((n + 1) * risk) > 2 * (10 * x.eq + 9 * x.mdd)
        }),
{
    let risk = risk_of(x, pv);
    let n = contracts(3, x, long_wr, short_wr, pv);
    lemma_quotient(2 * (10 * x.eq + 9 * x.mdd), 10 * risk, n, cap_of(x));
    lemma_regroup(n, risk);
    lemma_regroup(n + 1, risk);
}

/// The time-decay geometry trades the cap in the first three tenths of the window,
/// and in the last three where the equity is short of half the target; one
/// contract there past four fifths of it; and half the cap otherwise.
pub proof fn the_time_decay_size_follows_the_clock(
    x: SizeInputs,
    long_wr: Ratio,
    short_wr: Ratio,
    pv: int,
)
    requires
        x.target > 0,
        x.max_days >= 1,
    ensures
        ({
            let n = contracts(4, x, long_wr, short_wr, pv);
            let cap = cap_of(x);
            if 10 * x.day > 7 * x.max_days && 2 * x.eq < x.target {
                n == cap
            } else if 10 * x.day > 7 * x.max_days && 5 * x.eq > 4 * x.target {
                n == 1
            } else if 10 * x.day < 3 * x.max_days {
                n == cap
            } else {
                is_part_of_cap(n, cap, 1, 2)
            }
        }),
{
}

/// The asymmetric geometry goes by the win rate of the trade's direction: the cap
/// above 55%, two thirds of it above a half, and one contract below.
pub proof fn the_asymmetric_size_follows_the_direction(
    x: SizeInputs,
    long_wr: Ratio,
    short_wr: Ratio,
    pv: int,
)
    ensures
        ({
            let n = contracts(5, x, long_wr, short_wr, pv);
            let cap = cap_of(x);
            let wr = if x.dir == 0 {
                long_wr
            } else {
                short_wr
            };
            if 100 * wr.num > 55 * wr.den {
                n == cap
            } else if 2 * wr.num > wr.den {
                is_part_of_cap(n, cap, 2, 3)
            } else {
                n == 1
            }
        }),
{
    let wr = if x.dir == 0 {
        long_wr
    } else {
        short_wr
    };
    assert(wr.num * 100 > 50 * wr.den <==> 2 * wr.num > wr.den);
}

/// The five gears trade the cap with more than nine tenths of the drawdown left,
/// and a fifth of it less with each two tenths fewer, down to one contract.
pub proof fn the_five_gears_shift_down_toward_the_floor(
    x: SizeInputs,
    long_wr: Ratio,
    short_wr: Ratio,
    pv: int,
)
    requires
        x.mdd > 0,
    ensures
        ({
            let n = contracts(6, x, long_wr, short_wr, pv);
            let (room, cap) = (room_of(x), cap_of(x));
            if 10 * room > 9 * x.mdd {
                n == cap
            } else if 10 * room > 7 * x.mdd {
                is_part_of_cap(n, cap, 4, 5)
            } else if 10 * room > 5 * x.mdd {
                is_part_of_cap(n, cap, 3, 5)
            } else if 10 * room > 3 * x.mdd {
                is_part_of_cap(n, cap, 2, 5)
            } else {
                n == 1
            }
        }),
{
}

// ---------------------------------------------------------------------------
// Shares and costs
// ---------------------------------------------------------------------------

/// The trader keeps all of a profit up to the full share, and of what is above it
/// the split's fraction, to the whole micro-dollar below.
pub proof fn the_split_applies_above_the_full_share(ax: Account, gross: int)
    requires
        ax.splits(),
    ensures
        gross <= ax.split_full_up_to ==> ax.share(gross) == gross,
        gross > ax.split_full_up_to ==> ({
            let (over, kept) = (
                gross - ax.split_full_up_to,
                ax.share(gross) - ax.split_full_up_to,
            );
            kept * ax.split_after.den <= over * ax.split_after.num < (kept + 1)
                * ax.split_after.den
        }),
{
    if gross > ax.split_full_up_to {
        let over = gross - ax.split_full_up_to;
        let (a, d) = (over * ax.split_after.num, ax.split_after.den as int);
        vstd::arithmetic::div_mod::lemma_fundamental_div_mod(a, d);
        let (q, r) = (a / d, a % d);
        assert(q * d <= a < (q + 1) * d) by (nonlinear_arith)
            requires
                a == d * q + r,
                0 <= r < d,
        ;
    }
}

/// A round turn costs the commission, and for each tick of slippage two ticks, one
/// on the way in and one on the way out, at the point value.
pub proof fn slippage_is_paid_both_ways(inst: InstCfg, ticks: int, commission: int)
    ensures
        inst.cost(0, commission) == commission,
        inst.cost(ticks + 1, commission) - inst.cost(ticks, commission) == 2 * (inst.tick_size
            * inst.point_value * 100),
{
    let (t, v) = (inst.tick_size as int, inst.point_value as int);
    assert((ticks + 1) * t * v == ticks * t * v + t * v) by (nonlinear_arith);
    assert(0 * t * v == 0) by (nonlinear_arith);
}

/// The ceiling of a trade is the target multiple of 200 ticks at the point value,
/// less the cost.
pub proof fn the_ceiling_is_the_target_on_the_widest_range(
    inst: InstCfg,
    mult: int,
    ticks: int,
    commission: int,
)
    ensures
        inst.ceiling(mult, ticks, commission) + inst.cost(ticks, commission) == mult * (200
            * inst.tick_size) * inst.point_value,
{
}

// ---------------------------------------------------------------------------
// Expected value
// ---------------------------------------------------------------------------

/// What a breakdown says of an attempt: with the pass rate it nets the trader's
/// share of the extraction after the haircut, less the activation and the platform
/// fees of the months held, at least one; always it costs the fee. The flat
/// formula counts activation and two months always. Several accounts multiply the
/// value and the outlay, and nothing else. Amounts are in micro-dollars, values in
/// millionths of those, platform fees to the nearest.
pub proof fn an_attempt_is_worth_its_chances(
    b: EvBreakdown,
    ax: Account,
    pass_rate: Ratio,
    gross_ext: i64,
    p_ext_zero: Ratio,
    months_held: Ratio,
    p: EvParams,
)
    requires
        breaks_down(b, ax, pass_rate, gross_ext, p_ext_zero, months_held, p),
        pass_rate.den > 0,
        months_held.den > 0,
        0 <= p.payout_haircut <= 1_000_000,
    ensures
        ({
            let (pr, den) = (pass_rate.num as int, pass_rate.den as int);
            let n = if p.parallel_accounts == 0 {
                1
            } else {
                p.parallel_accounts as int
            };
            let fees = b.funded_costs - ax.act * 1_000_000;
            let (m, d) = (b.months_held.num as int, b.months_held.den as int);
            &&& b.net_ext == ax.share(gross_ext as int) * p.payout_haircut
            &&& months_held.num >= months_held.den ==> b.months_held == months_held
            &&& months_held.num < months_held.den ==> m == d && d > 0
            &&& -d < 2 * (fees * d - ax.pamo * 1_000_000 * m) <= d
            &&& b.ev_per_attempt.den == den
            &&& b.ev_per_attempt.num == pr * (b.net_ext - b.funded_costs) - ax.fee * 1_000_000 * den
            &&& b.legacy_ev.den == den
            &&& b.legacy_ev.num == pr * (gross_ext * 1_000_000) - (ax.fee + ax.act + ax.pamo * 2)
                * 1_000_000 * den
            &&& b.legacy_error.den == den
            &&& b.legacy_error.num == b.legacy_ev.num - b.ev_per_attempt.num
            &&& pr > 0 ==> {
                &&& b.ev_per_funded matches Some(f) && f.den == pr && f.num == b.ev_per_attempt.num
                &&& b.expected_attempts matches Some(f) && f.num * pr == den * f.den && f.den > 0
            }
            &&& b.n_parallel == n
            &&& b.bankroll_at_risk.den == den
            &&& b.bankroll_at_risk.num == n * (ax.fee * den + pr * ax.act)
            &&& -den < 2 * (b.ev_total * den - n * b.ev_per_attempt.num) <= den
            &&& b.p_total_zero == p_ext_zero
            &&& b.pass_rate == pass_rate
            &&& b.gross_ext == gross_ext
            &&& b.eval_fee == ax.fee
        }),
{
    let (m, d) = (b.months_held.num as int, b.months_held.den as int);
    the_nearest_is_off_by_at_most_a_half(ax.pamo * 1_000_000 * m, d);
    let n = if p.parallel_accounts == 0 {
        1
    } else {
        p.parallel_accounts as int
    };
    the_nearest_is_off_by_at_most_a_half(n * b.ev_per_attempt.num, pass_rate.den as int);
    if pass_rate.num > 0 {
        let (x, y) = (pass_rate.num as int, pass_rate.den as int);
        assert(y * x == y * x);
    }
}

} // verus!
