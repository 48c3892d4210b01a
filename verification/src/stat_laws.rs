//! What the sums, ranks and statistics mean.

use vstd::prelude::*;

use crate::num::{
    ascending, count_where, in_order, largest, nearest, quantile, quantile_index, smallest, total,
};
use crate::stats::{
    deepest_drawdown, gross_loss, gross_win, median_of, peak_equity, present, profits,
    RealizedStats,
};
use crate::types::RawTrade;

verus! {

// ---------------------------------------------------------------------------
// Sums and counts
// ---------------------------------------------------------------------------

/// A sum adds up: nothing is nothing, one value is itself, and two runs together
/// are their sums together.
pub proof fn a_sum_adds_up(a: Seq<int>, b: Seq<int>, x: int)
    ensures
        total(Seq::<int>::empty()) == 0,
        total(seq![x]) == x,
        total(a + b) == total(a) + total(b),
    decreases b.len(),
{
    reveal_with_fuel(total, 2);
    assert(seq![x].drop_last() =~= Seq::<int>::empty());
    if b.len() == 0 {
        assert(a + b =~= a);
    } else {
        a_sum_adds_up(a, b.drop_last(), x);
        assert((a + b).drop_last() =~= a + b.drop_last());
    }
}

/// A count is the number of elements that a filter keeps.
pub proof fn a_count_is_what_a_filter_keeps<A>(s: Seq<A>, p: spec_fn(A) -> bool)
    ensures
        count_where(s, p) == s.filter(p).len(),
    decreases s.len(),
{
    reveal(Seq::filter);
    if s.len() > 0 {
        a_count_is_what_a_filter_keeps(s.drop_last(), p);
    }
}

/// The extremes of some values are among them, and no value is beyond.
pub proof fn extremes_are_among_the_values(s: Seq<int>)
    requires
        s.len() > 0,
    ensures
        s.contains(largest(s)),
        s.contains(smallest(s)),
        forall|i: int| 0 <= i < s.len() ==> smallest(s) <= #[trigger] s[i] <= largest(s),
    decreases s.len(),
{
    if s.len() == 1 {
        assert(s[0] == largest(s) && s[0] == smallest(s));
    } else {
        let t = s.drop_last();
        extremes_are_among_the_values(t);
        let (i, j) = (t.index_of(largest(t)), t.index_of(smallest(t)));
        assert(s[i] == t[i] && s[j] == t[j]);
        assert(s[s.len() - 1] == s.last());
        assert forall|k: int| 0 <= k < s.len() implies smallest(s) <= #[trigger] s[k]
            <= largest(s) by {
            if k < t.len() {
                assert(t[k] == s[k]);
            }
        }
    }
}

/// A quotient to the nearest is off by no more than a half; a half goes up.
pub proof fn the_nearest_is_off_by_at_most_a_half(a: int, b: int)
    requires
        b > 0,
    ensures
        -b < 2 * (nearest(a, b) * b - a) <= b,
{
    let n = nearest(a, b);
    vstd::arithmetic::div_mod::lemma_fundamental_div_mod(2 * a + b, 2 * b);
    let r = (2 * a + b) % (2 * b);
    assert(2 * (n * b) == (2 * b) * n) by (nonlinear_arith);
}

// ---------------------------------------------------------------------------
// Ranks
// ---------------------------------------------------------------------------

/// Putting values in order keeps each as often as it was, and makes them ascend.
pub proof fn an_ordered_sample_holds_the_same_values(s: Seq<i128>)
    ensures
        ascending(in_order(s)),
        in_order(s).to_multiset() == s.to_multiset(),
        in_order(s).len() == s.len(),
{
    let leq = |x: i128, y: i128| x <= y;
    s.lemma_sort_by_ensures(leq);
    let t = in_order(s);
    broadcast use vstd::seq_lib::group_to_multiset_ensures;

    assert(t.to_multiset().len() == t.len());
    assert(s.to_multiset().len() == s.len());
    assert forall|i: int, j: int| 0 <= i <= j < t.len() implies t[i] <= t[j] by {
        if i < j {
            assert(leq(t[i], t[j]));
        }
    }
}

/// A quantile is a value of the sample, at the place in its order that is nearest
/// to the share asked for.
pub proof fn a_quantile_stands_at_its_share(s: Seq<i128>, a: int, b: int)
    requires
        s.len() > 0,
        0 <= a <= b,
        0 < b,
    ensures
        ({
            let k = quantile_index(s.len() as int, a, b);
            &&& 0 <= k < s.len()
            &&& -b < 2 * (k * b - (s.len() - 1) * a) <= b
            &&& quantile(s, a, b) == in_order(s)[k]
        }),
{
    let n = s.len() - 1;
    the_nearest_is_off_by_at_most_a_half(n * a, b);
    let k = quantile_index(s.len() as int, a, b);
    assert(0 <= n * a <= n * b) by (nonlinear_arith)
        requires
            0 <= n,
            0 <= a <= b,
    ;
    assert(0 <= k <= n) by (nonlinear_arith)
        requires
            -b < 2 * (k * b - n * a) <= b,
            0 <= n * a <= n * b,
            b > 0,
    ;
}

/// The median of an ordered sample halves it: the middle value of an odd one, and
/// the mean of the two middle values of an even one.
pub proof fn a_median_halves_its_sample(s: Seq<i128>, k: int)
    requires
        k >= 0,
    ensures
        s.len() == 0 ==> median_of(s) is None,
        s.len() == 2 * k + 1 ==> ({
            let (num, den) = median_of(s)->0;
            median_of(s) is Some && num == s[k] * den && den > 0
        }),
        s.len() == 2 * k && k > 0 ==> ({
            let (num, den) = median_of(s)->0;
            median_of(s) is Some && 2 * num == (s[k - 1] + s[k]) * den && den > 0
        }),
{
}

/// The values present in a sample are those that are there, in order.
pub proof fn present_values_are_those_that_are_there(
    a: Seq<Option<i128>>,
    b: Seq<Option<i128>>,
    x: i128,
)
    ensures
        present(seq![Some(x)]) == seq![x],
        present(seq![None::<i128>]) == Seq::<i128>::empty(),
        present(a + b) == present(a) + present(b),
    decreases b.len(),
{
    reveal_with_fuel(present, 2);
    assert(seq![Some(x)].drop_last() =~= Seq::<Option<i128>>::empty());
    assert(seq![None::<i128>].drop_last() =~= Seq::<Option<i128>>::empty());
    assert(present(seq![Some(x)]) =~= seq![x]);
    if b.len() == 0 {
        assert(a + b =~= a);
        assert(present(a) + present(b) =~= present(a));
    } else {
        present_values_are_those_that_are_there(a, b.drop_last(), x);
        assert((a + b).drop_last() =~= a + b.drop_last());
        assert(present(a + b) =~= present(a) + present(b));
    }
}

// ---------------------------------------------------------------------------
// Realised statistics
// ---------------------------------------------------------------------------

proof fn lemma_gross(s: Seq<int>)
    ensures
        gross_win(s) - gross_loss(s) == total(s),
        gross_win(s) >= 0,
        gross_loss(s) >= 0,
        gross_loss(s) > 0 <==> exists|i: int| 0 <= i < s.len() && s[i] < 0,
    decreases s.len(),
{
    if s.len() > 0 {
        let t = s.drop_last();
        lemma_gross(t);
        if exists|i: int| 0 <= i < t.len() && t[i] < 0 {
            let i = choose|i: int| 0 <= i < t.len() && t[i] < 0;
            assert(s[i] < 0);
        }
        if s.last() < 0 {
            assert(s[s.len() - 1] < 0);
        }
        if exists|i: int| 0 <= i < s.len() && s[i] < 0 {
            let i = choose|i: int| 0 <= i < s.len() && s[i] < 0;
            if i < t.len() {
                assert(t[i] < 0);
            }
        }
    }
}

/// What the winners made adds up over runs of trades, each winner with its profit
/// and no loser with anything; and so do the losses.
pub proof fn gross_results_add_up(a: Seq<int>, b: Seq<int>, x: int)
    ensures
        gross_win(a + b) == gross_win(a) + gross_win(b),
        gross_loss(a + b) == gross_loss(a) + gross_loss(b),
        x >= 0 ==> gross_win(seq![x]) == x && gross_loss(seq![x]) == 0,
        x <= 0 ==> gross_win(seq![x]) == 0 && gross_loss(seq![x]) == -x,
    decreases b.len(),
{
    reveal_with_fuel(gross_win, 2);
    reveal_with_fuel(gross_loss, 2);
    assert(seq![x].drop_last() =~= Seq::<int>::empty());
    if b.len() == 0 {
        assert(a + b =~= a);
    } else {
        gross_results_add_up(a, b.drop_last(), x);
        assert((a + b).drop_last() =~= a + b.drop_last());
    }
}

proof fn lemma_peak(s: Seq<int>)
    ensures
        forall|i: int| 0 <= i <= s.len() ==> total(#[trigger] s.take(i)) <= peak_equity(s),
        exists|i: int| 0 <= i <= s.len() && total(#[trigger] s.take(i)) == peak_equity(s),
    decreases s.len(),
{
    assert(s.take(s.len() as int) =~= s);
    if s.len() == 0 {
        assert(total(s.take(0)) == peak_equity(s));
    } else {
        let t = s.drop_last();
        lemma_peak(t);
        assert forall|i: int| 0 <= i <= s.len() implies total(#[trigger] s.take(i))
            <= peak_equity(s) by {
            if i < s.len() {
                assert(s.take(i) =~= t.take(i));
            }
        }
        let k = choose|i: int| 0 <= i <= t.len() && total(#[trigger] t.take(i)) == peak_equity(t);
        assert(s.take(k) =~= t.take(k));
        if total(s) > peak_equity(t) {
            assert(total(s.take(s.len() as int)) == peak_equity(s));
        } else {
            assert(total(s.take(k)) == peak_equity(s));
        }
    }
}

/// A fall between two points of the running profit.
pub open spec fn fall(s: Seq<int>, i: int, j: int) -> int {
    total(s.take(i)) - total(s.take(j))
}

proof fn lemma_drawdown(s: Seq<int>)
    ensures
        forall|i: int, j: int|
            0 <= i <= j <= s.len() ==> #[trigger] fall(s, i, j) <= deepest_drawdown(s),
        exists|i: int, j: int|
            0 <= i <= j <= s.len() && #[trigger] fall(s, i, j) == deepest_drawdown(s),
    decreases s.len(),
{
    let n = s.len() as int;
    assert(s.take(n) =~= s);
    if n == 0 {
        assert(fall(s, 0, 0) == 0);
    } else {
        let t = s.drop_last();
        lemma_drawdown(t);
        lemma_peak(s);
        assert forall|i: int, j: int| 0 <= i <= j <= n implies #[trigger] fall(s, i, j)
            <= deepest_drawdown(s) by {
            if j < n {
                assert(s.take(i) =~= t.take(i) && s.take(j) =~= t.take(j));
                assert(fall(t, i, j) <= deepest_drawdown(t));
            } else {
                assert(total(s.take(i)) <= peak_equity(s));
            }
        }
        let dd = peak_equity(s) - total(s);
        if dd > deepest_drawdown(t) {
            let i = choose|i: int|
                0 <= i <= n && total(#[trigger] s.take(i)) == peak_equity(s);
            assert(fall(s, i, n) == deepest_drawdown(s));
        } else {
            let (i, j) = choose|i: int, j: int|
                0 <= i <= j <= t.len() && #[trigger] fall(t, i, j) == deepest_drawdown(t);
            assert(s.take(i) =~= t.take(i) && s.take(j) =~= t.take(j));
            assert(fall(s, i, j) == deepest_drawdown(s));
        }
    }
}

/// Realised statistics say of trades what they made, together, per trade and per
/// 21 days of the period; how many won, and what winners made over what losers
/// lost; the best and the worst trade; the deepest fall of the running profit from
/// any point to a later one; and how many days traded.
pub proof fn realised_statistics_describe_their_trades(
    r: RealizedStats,
    trades: Seq<RawTrade>,
    period_days: usize,
)
    requires
        r.describes(trades, period_days),
        trades.len() > 0,
        period_days > 0,
    ensures
        ({
            let s = trades.map_values(|t: RawTrade| t.pnl_1ct as int);
            &&& r.total_pnl_1ct == total(s)
            &&& r.monthly_ev_1ct.num * period_days == 21 * total(s) * r.monthly_ev_1ct.den
            &&& r.monthly_ev_1ct.den > 0
            &&& r.avg_trade_pnl.num * trades.len() == total(s) * r.avg_trade_pnl.den
            &&& r.avg_trade_pnl.den > 0
            &&& r.win_rate.num == trades.filter(|t: RawTrade| t.pnl_1ct > 0).len()
            &&& r.win_rate.den == trades.len()
            &&& r.profit_factor is None <==> forall|i: int|
                0 <= i < trades.len() ==> (#[trigger] trades[i]).pnl_1ct >= 0
            &&& r.profit_factor matches Some(f) ==> {
                &&& f.den > 0
                &&& f.num >= 0
                &&& f.num - f.den == total(s)
                &&& f.num == gross_win(s)
            }
            &&& exists|i: int| 0 <= i < trades.len() && (#[trigger] trades[i]).pnl_1ct
                == r.best_trade
            &&& exists|i: int| 0 <= i < trades.len() && (#[trigger] trades[i]).pnl_1ct
                == r.worst_trade
            &&& forall|i: int|
                0 <= i < trades.len() ==> r.worst_trade <= (#[trigger] trades[i]).pnl_1ct
                    <= r.best_trade
            &&& forall|i: int, j: int|
                0 <= i <= j <= s.len() ==> #[trigger] fall(s, i, j) <= r.max_dd_1ct
            &&& exists|i: int, j: int|
                0 <= i <= j <= s.len() && #[trigger] fall(s, i, j) == r.max_dd_1ct
            &&& r.n_trades == trades.len()
            &&& r.n_days_traded == trades.map_values(|t: RawTrade| t.day_idx).to_set().len()
        }),
{
    let s = trades.map_values(|t: RawTrade| t.pnl_1ct as int);
    assert(s =~= profits(trades));
    lemma_gross(s);
    lemma_drawdown(s);
    extremes_are_among_the_values(s);
    let (a, b) = (s.index_of(largest(s)), s.index_of(smallest(s)));
    assert(trades[a].pnl_1ct == largest(s) && trades[b].pnl_1ct == smallest(s));
    assert forall|i: int| 0 <= i < trades.len() implies smallest(s) <= (
    #[trigger] trades[i]).pnl_1ct <= largest(s) by {
        assert(s[i] == trades[i].pnl_1ct);
    }
    assert forall|i: int| 0 <= i < trades.len() implies (#[trigger] trades[i]).pnl_1ct
        == s[i] by {}
    if exists|i: int| 0 <= i < s.len() && s[i] < 0 {
        let i = choose|i: int| 0 <= i < s.len() && s[i] < 0;
        assert(trades[i].pnl_1ct < 0);
    }
    lemma_wins(trades);
    let t = total(s);
    assert((t * 21) * period_days == 21 * t * period_days) by (nonlinear_arith);
}

proof fn lemma_wins(trades: Seq<RawTrade>)
    ensures
        count_where(profits(trades), |x: int| x > 0) == trades.filter(
            |t: RawTrade| t.pnl_1ct > 0,
        ).len(),
    decreases trades.len(),
{
    reveal(Seq::filter);
    if trades.len() > 0 {
        lemma_wins(trades.drop_last());
        assert(profits(trades).drop_last() =~= profits(trades.drop_last()));
    }
}

} // verus!
