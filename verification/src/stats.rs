//! Realised statistics for a set of one-contract trades.

use std::collections::HashSet;

use vstd::prelude::*;

use crate::num::{count_where, in_order, ints, largest, smallest, sorted, total, Fraction};
use crate::types::{RawTrade, MAX_PNL};

verus! {

/// Trading days per calendar month, for normalising a period return.
pub const TRADING_DAYS_PER_MONTH: i128 = 21;

/// Statistics of trades over a period. Amounts are in micro-dollars.
#[derive(Clone, Copy, Debug, PartialEq, Eq, Structural)]
pub struct RealizedStats {
    /// Monthly expectancy at one contract: total profit over the period,
    /// normalised by the length of the period.
    pub monthly_ev_1ct: Fraction,
    pub total_pnl_1ct: i128,
    pub avg_trade_pnl: Fraction,
    pub n_trades: usize,
    pub n_days_traded: usize,
    pub period_days: usize,
    pub win_rate: Fraction,
    /// Gross win over gross loss; `None` when there were no losing trades, so that
    /// "undefined" is not averaged in as if it were an ordinary large value.
    pub profit_factor: Option<Fraction>,
    pub max_dd_1ct: i128,
    pub best_trade: i64,
    pub worst_trade: i64,
}

/// The profits of trades, in order.
pub open spec fn profits(trades: Seq<RawTrade>) -> Seq<int> {
    trades.map_values(|t: RawTrade| t.pnl_1ct as int)
}

/// The winning trades' profits together.
pub open spec fn gross_win(s: Seq<int>) -> int
    decreases s.len(),
{
    if s.len() == 0 {
        0
    } else {
        gross_win(s.drop_last()) + if s.last() > 0 {
            s.last()
        } else {
            0
        }
    }
}

/// The losing trades' losses together.
pub open spec fn gross_loss(s: Seq<int>) -> int
    decreases s.len(),
{
    if s.len() == 0 {
        0
    } else {
        gross_loss(s.drop_last()) + if s.last() < 0 {
            -s.last()
        } else {
            0
        }
    }
}

/// The highest cumulative profit, from 0 on.
pub open spec fn peak_equity(s: Seq<int>) -> int
    decreases s.len(),
{
    if s.len() == 0 {
        0
    } else {
        let before = peak_equity(s.drop_last());
        if total(s) > before {
            total(s)
        } else {
            before
        }
    }
}

/// The deepest fall of the cumulative profit below its peak.
pub open spec fn deepest_drawdown(s: Seq<int>) -> int
    decreases s.len(),
{
    if s.len() == 0 {
        0
    } else {
        let before = deepest_drawdown(s.drop_last());
        let dd = peak_equity(s) - total(s);
        if dd > before {
            dd
        } else {
            before
        }
    }
}

/// The days on which trades were made.
pub open spec fn traded_days(trades: Seq<RawTrade>) -> Set<usize> {
    trades.map_values(|t: RawTrade| t.day_idx).to_set()
}

impl RealizedStats {
    /// The statistics when there is nothing to measure.
    pub open spec fn nothing(period_days: usize) -> RealizedStats {
        let none = Fraction { num: 0, den: 1 };
        RealizedStats {
            monthly_ev_1ct: none,
            total_pnl_1ct: 0,
            avg_trade_pnl: none,
            n_trades: 0,
            n_days_traded: 0,
            period_days,
            win_rate: none,
            profit_factor: None,
            max_dd_1ct: 0,
            best_trade: 0,
            worst_trade: 0,
        }
    }

    /// An expectancy that reports can average.
    pub open spec fn in_range(self) -> bool {
        let den = self.monthly_ev_1ct.den as int;
        &&& 0 < den <= 1_000_000_000
        &&& -5_000_000_000_000_000_000 * den <= self.monthly_ev_1ct.num <= 5_000_000_000_000_000_000
            * den
    }

    /// Whether these are the statistics of trades over a period.
    pub open spec fn describes(self, trades: Seq<RawTrade>, period_days: usize) -> bool {
        let s = profits(trades);
        &&& self.total_pnl_1ct == total(s)
        &&& self.monthly_ev_1ct.num == total(s) * TRADING_DAYS_PER_MONTH
        &&& self.monthly_ev_1ct.den == period_days
        &&& self.avg_trade_pnl.num == total(s)
        &&& self.avg_trade_pnl.den == trades.len()
        &&& self.n_trades == trades.len()
        &&& self.n_days_traded == traded_days(trades).len()
        &&& self.period_days == period_days
        &&& self.win_rate.num == count_where(s, |x: int| x > 0)
        &&& self.win_rate.den == trades.len()
        &&& self.profit_factor is Some <==> gross_loss(s) > 0
        &&& self.profit_factor matches Some(f) ==> f.num == gross_win(s) && f.den == gross_loss(s)
        &&& self.max_dd_1ct == deepest_drawdown(s)
        &&& self.best_trade == largest(s)
        &&& self.worst_trade == smallest(s)
    }
}

/// The most that `n` trades can make or lose.
pub open spec fn profit_reach(n: int) -> int {
    100_000_000_000_000_000 * n
}

pub fn realized_stats(trades: &[RawTrade], period_days: usize) -> (r: RealizedStats)
    requires
        forall|i: int|
            0 <= i < trades@.len() ==> -MAX_PNL <= (#[trigger] trades@[i]).pnl_1ct <= MAX_PNL,
    ensures
        trades@.len() == 0 || period_days == 0 ==> r == RealizedStats::nothing(period_days),
        trades@.len() > 0 && period_days > 0 ==> r.describes(trades@, period_days),
        r.monthly_ev_1ct.wf(),
        r.avg_trade_pnl.wf(),
        r.win_rate.wf(),
        -profit_reach(trades@.len() as int) <= r.total_pnl_1ct <= profit_reach(
            trades@.len() as int,
        ),
{
    broadcast use vstd::std_specs::hash::group_hash_axioms;

    let none: Fraction = Fraction { num: 0, den: 1 };
    if trades.len() == 0 || period_days == 0 {
        return RealizedStats {
            monthly_ev_1ct: none,
            total_pnl_1ct: 0,
            avg_trade_pnl: none,
            n_trades: 0,
            n_days_traded: 0,
            period_days,
            win_rate: none,
            profit_factor: None,
            max_dd_1ct: 0,
            best_trade: 0,
            worst_trade: 0,
        };
    }
    let n: usize = trades.len();
    let ghost s = profits(trades@);
    let ghost won = |x: int| x > 0;
    let mut sum: i128 = 0;
    let mut wins: i128 = 0;
    let mut win_sum: i128 = 0;
    let mut loss_sum: i128 = 0;
    let mut peak: i128 = 0;
    let mut max_dd: i128 = 0;
    let mut best: i64 = trades[0].pnl_1ct;
    let mut worst: i64 = trades[0].pnl_1ct;
    let mut days: HashSet<usize> = HashSet::new();
    let mut i: usize = 0;
    proof {
        assert(s.take(0) =~= Seq::<int>::empty());
        assert(traded_days(trades@.take(0)) =~= Set::<usize>::empty());
    }
    while i < n
        invariant
            n == trades@.len(),
            i <= n,
            n > 0,
            forall|k: int|
                0 <= k < trades@.len() ==> -MAX_PNL <= (#[trigger] trades@[k]).pnl_1ct <= MAX_PNL,
            s == profits(trades@),
            won == (|x: int| x > 0),
            sum == total(s.take(i as int)),
            -profit_reach(i as int) <= sum <= profit_reach(i as int),
            wins == count_where(s.take(i as int), won),
            0 <= wins <= i,
            win_sum == gross_win(s.take(i as int)),
            0 <= win_sum <= profit_reach(i as int),
            loss_sum == gross_loss(s.take(i as int)),
            0 <= loss_sum <= profit_reach(i as int),
            peak == peak_equity(s.take(i as int)),
            0 <= peak <= profit_reach(i as int),
            max_dd == deepest_drawdown(s.take(i as int)),
            0 <= max_dd <= 2 * profit_reach(i as int),
            i == 0 ==> best == s[0] && worst == s[0],
            i > 0 ==> best == largest(s.take(i as int)) && worst == smallest(s.take(i as int)),
            days@ == traded_days(trades@.take(i as int)),
        decreases n - i,
    {
        let t: RawTrade = trades[i];
        let x: i64 = t.pnl_1ct;
        proof {
            let now = s.take(i + 1);
            assert(now.drop_last() =~= s.take(i as int));
            assert(now.last() == x);
            let f = |t: RawTrade| t.day_idx;
            let before = trades@.take(i as int).map_values(f);
            assert(trades@.take(i + 1).map_values(f) =~= before.push(t.day_idx));
            assert(before.push(t.day_idx).to_set() =~= before.to_set().insert(t.day_idx)) by {
                broadcast use vstd::seq_lib::group_seq_properties;

            }
        }
        sum = sum + x as i128;
        if x > 0 {
            wins = wins + 1;
            win_sum = win_sum + x as i128;
        }
        if x < 0 {
            loss_sum = loss_sum - x as i128;
        }
        if sum > peak {
            peak = sum;
        }
        let dd: i128 = peak - sum;
        if dd > max_dd {
            max_dd = dd;
        }
        if x > best {
            best = x;
        }
        if x < worst {
            worst = x;
        }
        days.insert(t.day_idx);
        i = i + 1;
    }
    proof {
        assert(s.take(n as int) =~= s);
        assert(trades@.take(n as int) =~= trades@);
    }
    RealizedStats {
        monthly_ev_1ct: Fraction {
            num: sum * TRADING_DAYS_PER_MONTH,
            den: period_days as i128,
        },
        total_pnl_1ct: sum,
        avg_trade_pnl: Fraction { num: sum, den: n as i128 },
        n_trades: n,
        n_days_traded: days.len(),
        period_days,
        win_rate: Fraction { num: wins, den: n as i128 },
        profit_factor: if loss_sum > 0 {
            Some(Fraction { num: win_sum, den: loss_sum })
        } else {
            None
        },
        max_dd_1ct: max_dd,
        best_trade: best,
        worst_trade: worst,
    }
}

/// Monthly expectancy depends on the total profit and the period alone: the same
/// total over the same period is the same expectancy, in one trade or in many.
pub proof fn expectancy_depends_on_the_total_alone(
    a: Seq<RawTrade>,
    b: Seq<RawTrade>,
    period_days: usize,
    ra: RealizedStats,
    rb: RealizedStats,
)
    requires
        total(profits(a)) == total(profits(b)),
        ra.describes(a, period_days),
        rb.describes(b, period_days),
    ensures
        ra.monthly_ev_1ct == rb.monthly_ev_1ct,
{
}

// ---------------------------------------------------------------------------
// Samples with missing values
// ---------------------------------------------------------------------------

/// The values that a sample holds, in order.
pub open spec fn present(s: Seq<Option<i128>>) -> Seq<i128>
    decreases s.len(),
{
    if s.len() == 0 {
        Seq::empty()
    } else {
        match s.last() {
            Some(x) => present(s.drop_last()).push(x),
            None => present(s.drop_last()),
        }
    }
}

fn present_values(v: &[Option<i128>]) -> (r: Vec<i128>)
    ensures
        r@ == present(v@),
        r@.len() <= v@.len(),
{
    let mut r: Vec<i128> = Vec::new();
    let mut i: usize = 0;
    while i < v.len()
        invariant
            i <= v@.len(),
            r@ == present(v@.take(i as int)),
            r@.len() <= i,
        decreases v@.len() - i,
    {
        proof {
            assert(v@.take(i + 1).drop_last() =~= v@.take(i as int));
        }
        match v[i] {
            Some(x) => {
                r.push(x);
            },
            None => {},
        }
        i = i + 1;
    }
    proof {
        assert(v@.take(v@.len() as int) =~= v@);
    }
    r
}

/// The values of a sample in ascending order, missing ones left out.
pub fn sorted_copy(v: &[Option<i128>]) -> (r: Vec<i128>)
    ensures
        r@ == in_order(present(v@)),
        r@.len() == present(v@).len(),
{
    sorted(&present_values(v))
}

/// Largest value, in magnitude, that a mean or a median admits.
pub const MAX_SAMPLE: i128 = 1_000_000_000_000_000_000_000_000_000_000;

/// Most values that a sum admits.
pub const MAX_SAMPLE_LEN: usize = 40_000_000;

/// Whether the values of a sample are small enough to be added up.
pub open spec fn addable(s: Seq<i128>) -> bool {
    forall|i: int| 0 <= i < s.len() ==> -MAX_SAMPLE <= #[trigger] s[i] <= MAX_SAMPLE
}

/// The most that `n` values can add up to.
pub open spec fn sample_reach(n: int) -> int {
    1_000_000_000_000_000_000_000_000_000_000 * n
}

/// The sum of a sample.
pub fn sum_of(v: &Vec<i128>) -> (r: i128)
    requires
        addable(v@),
        v@.len() <= MAX_SAMPLE_LEN,
    ensures
        r == total(ints(v@)),
        -sample_reach(v@.len() as int) <= r <= sample_reach(v@.len() as int),
{
    let mut sum: i128 = 0;
    let mut i: usize = 0;
    proof {
        assert(ints(v@).take(0) =~= Seq::<int>::empty());
    }
    while i < v.len()
        invariant
            addable(v@),
            v@.len() <= MAX_SAMPLE_LEN,
            i <= v@.len(),
            sum == total(ints(v@).take(i as int)),
            -sample_reach(i as int) <= sum <= sample_reach(i as int),
        decreases v@.len() - i,
    {
        proof {
            assert(ints(v@).take(i + 1).drop_last() =~= ints(v@).take(i as int));
        }
        sum = sum + v[i];
        i = i + 1;
    }
    proof {
        assert(ints(v@).take(v@.len() as int) =~= ints(v@));
    }
    sum
}

/// The mean of a sample as a fraction, `None` where it holds no value.
pub fn mean_of(v: &[Option<i128>]) -> (r: Option<Fraction>)
    requires
        addable(present(v@)),
        v@.len() <= MAX_SAMPLE_LEN,
    ensures
        match r {
            Some(m) => present(v@).len() > 0 && m.num == total(ints(present(v@))) && m.den
                == present(v@).len(),
            None => present(v@).len() == 0,
        },
{
    let f: Vec<i128> = present_values(v);
    if f.len() == 0 {
        None
    } else {
        Some(Fraction { num: sum_of(&f), den: f.len() as i128 })
    }
}

/// The median of a sorted sample: the middle value, or the mean of the two middle
/// ones.
pub open spec fn median_of(s: Seq<i128>) -> Option<(int, int)> {
    let n = s.len() as int;
    if n == 0 {
        None
    } else if n % 2 == 0 {
        Some((s[n / 2 - 1] + s[n / 2], 2))
    } else {
        Some((s[n / 2] as int, 1))
    }
}

/// Median that averages the two middle elements of an even-length sample.
pub fn median(sorted: &[i128]) -> (r: Option<Fraction>)
    requires
        addable(sorted@),
    ensures
        match r {
            Some(m) => median_of(sorted@) == Some((m.num as int, m.den as int)),
            None => median_of(sorted@) is None,
        },
{
    let n: usize = sorted.len();
    if n == 0 {
        return None;
    }
    if n % 2 == 0 {
        Some(Fraction { num: sorted[n / 2 - 1] + sorted[n / 2], den: 2 })
    } else {
        Some(Fraction { num: sorted[n / 2], den: 1 })
    }
}

} // verus!
