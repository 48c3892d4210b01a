//! What holds of the strategy on every input.

use vstd::prelude::*;

use crate::backtest::{
    bars_in_range, day_row, day_trades, entry_bar, entry_price, exit_price, fine, first_post, gain,
    of_day, opening_range, outcome_price, ranges_in_range, sessions_end_within, side_of,
    side_profit, side_trades, span_trades, stops, targets, trades_on, triggers, BacktestParams,
    DayRow, Side, MAX_COST, MAX_FINE,
};
use crate::types::{Bar, DayMeta, EntryMode, InstCfg, RawTrade, MAX_PNL};

verus! {

// ---------------------------------------------------------------------------
// Nothing outside the session is read
// ---------------------------------------------------------------------------

/// Whether two sequences of bars are the same in `s..e`.
pub open spec fn agree(a: Seq<Bar>, b: Seq<Bar>, s: int, e: int) -> bool {
    forall|i: int| s <= i < e ==> #[trigger] a[i] == b[i]
}

proof fn lemma_range_reads_session(
    a: Seq<Bar>,
    b: Seq<Bar>,
    s: int,
    e: int,
    open_mins: int,
    w: int,
)
    requires
        agree(a, b, s, e),
    ensures
        opening_range(a, s, e, open_mins, w) == opening_range(b, s, e, open_mins, w),
    decreases e - s,
{
    if s < e {
        lemma_range_reads_session(a, b, s, e - 1, open_mins, w);
        assert(a[e - 1] == b[e - 1]);
    }
}

proof fn lemma_post_reads_session(
    a: Seq<Bar>,
    b: Seq<Bar>,
    i: int,
    e: int,
    open_mins: int,
    w: int,
)
    requires
        agree(a, b, i, e),
        0 <= i,
        e <= usize::MAX,
    ensures
        first_post(a, i, e, open_mins, w) == first_post(b, i, e, open_mins, w),
        first_post(a, i, e, open_mins, w) matches Some(k) ==> i <= k < e,
    decreases e - i,
{
    if i < e {
        assert(a[i] == b[i]);
        lemma_post_reads_session(a, b, i + 1, e, open_mins, w);
    }
}

proof fn lemma_entry_reads_slice(
    a: Seq<Bar>,
    b: Seq<Bar>,
    lo: int,
    i: int,
    hi: int,
    side: Side,
)
    requires
        agree(a, b, lo, hi),
        lo <= i,
    ensures
        entry_bar(a, lo, i, hi, side) == entry_bar(b, lo, i, hi, side),
        entry_bar(a, lo, i, hi, side) matches Some(k) ==> i <= k < hi,
    decreases hi - i,
{
    if i < hi {
        assert(a[i] == b[i]);
        if i > lo {
            assert(a[i - 1] == b[i - 1]);
        }
        lemma_entry_reads_slice(a, b, lo, i + 1, hi, side);
    }
}

proof fn lemma_exit_reads_slice(
    a: Seq<Bar>,
    b: Seq<Bar>,
    i: int,
    hi: int,
    entry: int,
    side: Side,
)
    requires
        agree(a, b, i - 1, hi),
        i <= hi,
    ensures
        exit_price(a, i, hi, entry, side) == exit_price(b, i, hi, entry, side),
    decreases hi - i,
{
    assert(a[hi - 1] == b[hi - 1]);
    if i < hi {
        assert(a[i] == b[i]);
        lemma_exit_reads_slice(a, b, i + 1, hi, entry, side);
    }
}

proof fn lemma_side_reads_slice(
    a: Seq<Bar>,
    b: Seq<Bar>,
    lo: int,
    hi: int,
    side: Side,
    pv: int,
    cost: int,
)
    requires
        agree(a, b, lo, hi),
    ensures
        side_profit(a, lo, hi, side, pv, cost) == side_profit(b, lo, hi, side, pv, cost),
{
    lemma_entry_reads_slice(a, b, lo, lo, hi, side);
    if let Some(i) = entry_bar(a, lo, lo, hi, side) {
        assert(a[i] == b[i]);
        lemma_exit_reads_slice(a, b, i + 1, hi, entry_price(a, i, side), side);
    }
}

/// The rows of all days for one window, with the entropies measured.
pub open spec fn measured_rows(
    bars: Seq<Bar>,
    days: Seq<DayMeta>,
    inst: InstCfg,
    w: i32,
    entropies: Seq<Option<i64>>,
) -> Seq<DayRow> {
    Seq::new(
        days.len(),
        |d: int| DayRow { entropy: entropies[d], ..day_row(bars, days[d], inst, w) },
    )
}

/// Whether two sequences of bars are the same in the session of every day.
pub open spec fn agree_in_session(a: Seq<Bar>, b: Seq<Bar>, days: Seq<DayMeta>) -> bool {
    forall|d: int|
        0 <= d < days.len() ==> agree(
            a,
            b,
            (#[trigger] days[d]).sess_start as int,
            days[d].sess_end as int,
        )
}

proof fn lemma_rows_read_session(
    a: Seq<Bar>,
    b: Seq<Bar>,
    days: Seq<DayMeta>,
    inst: InstCfg,
    w: i32,
    entropies: Seq<Option<i64>>,
)
    requires
        agree_in_session(a, b, days),
    ensures
        measured_rows(a, days, inst, w, entropies) == measured_rows(b, days, inst, w, entropies),
{
    assert forall|d: int| 0 <= d < days.len() implies day_row(a, days[d], inst, w) == day_row(
        b,
        days[d],
        inst,
        w,
    ) by {
        let s = days[d].sess_start as int;
        let e = days[d].sess_end as int;
        lemma_range_reads_session(a, b, s, e, inst.open_mins as int, w as int);
        lemma_post_reads_session(a, b, s, e, inst.open_mins as int, w as int);
    }
    assert(measured_rows(a, days, inst, w, entropies) =~= measured_rows(
        b,
        days,
        inst,
        w,
        entropies,
    ));
}

/// Bars outside the sessions never matter: two price histories that are the same
/// inside every session, with the same entropies, produce the same trades,
/// whatever gaps lie between.
pub proof fn bars_outside_the_session_are_never_read(
    a: Seq<Bar>,
    b: Seq<Bar>,
    days: Seq<DayMeta>,
    inst: InstCfg,
    entropies: Seq<Option<i64>>,
    p: BacktestParams,
    regimes: Seq<u8>,
    hurst: Seq<Option<i64>>,
    from: int,
    to: int,
)
    requires
        agree_in_session(a, b, days),
        0 <= from,
        to <= days.len(),
    ensures
        span_trades(
            a,
            days,
            inst,
            measured_rows(a, days, inst, p.window, entropies),
            p,
            regimes,
            hurst,
            from,
            to,
        ) == span_trades(
            b,
            days,
            inst,
            measured_rows(b, days, inst, p.window, entropies),
            p,
            regimes,
            hurst,
            from,
            to,
        ),
    decreases to - from,
{
    lemma_rows_read_session(a, b, days, inst, p.window, entropies);
    if from < to {
        bars_outside_the_session_are_never_read(
            a,
            b,
            days,
            inst,
            entropies,
            p,
            regimes,
            hurst,
            from,
            to - 1,
        );
        let d = to - 1;
        let rows = measured_rows(a, days, inst, p.window, entropies);
        let s = days[d].sess_start as int;
        let e = days[d].sess_end as int;
        assert(agree(a, b, s, e));
        lemma_post_reads_session(a, b, s, e, inst.open_mins as int, p.window as int);
        if trades_on(days, inst, rows, p, regimes, hurst, d) {
            let lo = rows[d].post->0 as int;
            assert(s <= lo < e);
            assert(agree(a, b, lo, e));
            lemma_side_reads_slice(
                a,
                b,
                lo,
                e,
                side_of(days, rows, p, from, d, true),
                inst.point_value as int,
                p.cost_1ct as int,
            );
            lemma_side_reads_slice(
                a,
                b,
                lo,
                e,
                side_of(days, rows, p, from, d, false),
                inst.point_value as int,
                p.cost_1ct as int,
            );
        }
    }
}

// ---------------------------------------------------------------------------
// Bounds on what a trade makes
// ---------------------------------------------------------------------------

/// Whether the bars of a slice have their closes between their lows and highs.
pub open spec fn ordered_in(bars: Seq<Bar>, lo: int, hi: int) -> bool {
    forall|i: int| lo <= i < hi ==> (#[trigger] bars[i]).ordered()
}

proof fn lemma_exit_within_reach(
    bars: Seq<Bar>,
    i: int,
    hi: int,
    entry: int,
    side: Side,
)
    requires
        i <= hi,
        ordered_in(bars, i, hi),
        gain(side.is_long, entry, fine(side.stop)) <= side.reach,
        i < hi || gain(side.is_long, entry, fine(bars[hi - 1].close)) <= side.reach,
    ensures
        gain(side.is_long, entry, exit_price(bars, i, hi, entry, side)) <= side.reach,
    decreases hi - i,
{
    if i < hi && !stops(bars[i], side) && !targets(bars[i], entry, side) {
        assert(bars[i].ordered());
        lemma_exit_within_reach(bars, i + 1, hi, entry, side);
    }
}

proof fn lemma_entry_is_beyond(
    bars: Seq<Bar>,
    lo: int,
    i: int,
    hi: int,
    side: Side,
)
    ensures
        entry_bar(bars, lo, i, hi, side) matches Some(k) ==> i <= k < hi && triggers(
            bars,
            lo,
            k,
            side,
        ),
    decreases hi - i,
{
    if i < hi && !triggers(bars, lo, i, side) {
        lemma_entry_is_beyond(bars, lo, i + 1, hi, side);
    }
}

proof fn lemma_side_shape(
    days: Seq<DayMeta>,
    inst: InstCfg,
    rows: Seq<DayRow>,
    p: BacktestParams,
    regimes: Seq<u8>,
    hurst: Seq<Option<i64>>,
    from: int,
    d: int,
    is_long: bool,
)
    requires
        0 <= d < rows.len(),
        trades_on(days, inst, rows, p, regimes, hurst, d),
        ranges_in_range(rows),
        inst.in_range(),
        p.in_range(),
        0 <= p.lux_tper,
        0 <= p.target_mult(),
    ensures
        ({
            let side = side_of(days, rows, p, from, d, is_long);
            let (hi, lo) = rows[d].range->0;
            &&& side.reach == p.target_mult() * (hi - lo)
            &&& 0 <= side.reach
            &&& gain(is_long, side.level as int, fine(side.stop)) <= 0
            &&& side.in_range()
        }),
{
    let (hi, lo) = rows[d].range->0;
    let orr = hi - lo;
    let lux = p.lux_tper as int;
    let mult = p.target_mult();
    assert(0 <= lux * orr <= 2_000_000_000_000) by (nonlinear_arith)
        requires
            0 <= lux <= 10_000,
            0 <= orr <= 200_000_000,
    ;
    assert(0 <= mult * orr <= 2_000_000_000_000) by (nonlinear_arith)
        requires
            0 <= mult <= 10_000,
            0 <= orr <= 200_000_000,
    ;
}

proof fn lemma_side_under_ceiling(
    bars: Seq<Bar>,
    days: Seq<DayMeta>,
    inst: InstCfg,
    rows: Seq<DayRow>,
    p: BacktestParams,
    regimes: Seq<u8>,
    hurst: Seq<Option<i64>>,
    from: int,
    d: int,
    is_long: bool,
    slippage_ticks: int,
    commission: int,
)
    requires
        0 <= d < rows.len(),
        trades_on(days, inst, rows, p, regimes, hurst, d),
        ranges_in_range(rows),
        inst.in_range(),
        p.in_range(),
        0 <= p.lux_tper,
        0 <= p.target_mult(),
        p.cost_1ct == inst.cost(slippage_ticks, commission),
        ordered_in(bars, rows[d].post->0 as int, days[d].sess_end as int),
    ensures
        side_profit(
            bars,
            rows[d].post->0 as int,
            days[d].sess_end as int,
            side_of(days, rows, p, from, d, is_long),
            inst.point_value as int,
            p.cost_1ct as int,
        ) matches Some(pnl) ==> pnl <= inst.ceiling(
            p.target_mult(),
            slippage_ticks,
            commission,
        ),
{
    let lo = rows[d].post->0 as int;
    let hi = days[d].sess_end as int;
    let side = side_of(days, rows, p, from, d, is_long);
    lemma_side_shape(days, inst, rows, p, regimes, hurst, from, d, is_long);
    lemma_entry_is_beyond(bars, lo, lo, hi, side);
    if let Some(i) = entry_bar(bars, lo, lo, hi, side) {
        let entry = entry_price(bars, i, side);
        assert(gain(side.is_long, entry, fine(side.stop)) <= 0);
        if !(side.entry_mode == EntryMode::WickBreak && (stops(bars[i], side) || i == hi - 1)) {
            lemma_exit_within_reach(bars, i + 1, hi, entry, side);
        }
        let g = gain(side.is_long, entry, outcome_price(bars, i, hi, side));
        assert(g <= side.reach);
        let pv = inst.point_value as int;
        let mult = p.target_mult();
        let (oh, ol) = rows[d].range->0;
        let orr = oh - ol;
        let widest = inst.widest_range();
        assert(g * pv <= mult * widest * pv) by (nonlinear_arith)
            requires
                g <= mult * orr,
                orr <= widest,
                0 <= mult,
                0 <= pv,
        ;
    }
}

proof fn lemma_exit_bounded(bars: Seq<Bar>, i: int, hi: int, entry: int, side: Side)
    requires
        bars_in_range(bars),
        0 < hi <= bars.len(),
        side.in_range(),
        -MAX_FINE <= entry <= MAX_FINE,
    ensures
        -2 * MAX_FINE <= gain(side.is_long, entry, exit_price(bars, i, hi, entry, side)) <= 2
            * MAX_FINE,
    decreases hi - i,
{
    assert(bars[hi - 1].in_range());
    if i < hi && !stops(bars[i], side) && !targets(bars[i], entry, side) {
        lemma_exit_bounded(bars, i + 1, hi, entry, side);
    }
}

pub(crate) proof fn lemma_side_profit_bounded(
    bars: Seq<Bar>,
    lo: int,
    hi: int,
    side: Side,
    pv: int,
    cost: int,
)
    requires
        bars_in_range(bars),
        0 <= lo,
        0 < hi <= bars.len(),
        side.in_range(),
        0 <= pv <= 10_000,
        -MAX_COST <= cost <= MAX_COST,
    ensures
        side_profit(bars, lo, hi, side, pv, cost) matches Some(pnl) ==> -MAX_PNL <= pnl <= MAX_PNL,
{
    lemma_entry_is_beyond(bars, lo, lo, hi, side);
    if let Some(i) = entry_bar(bars, lo, lo, hi, side) {
        assert(bars[i].in_range());
        let entry = entry_price(bars, i, side);
        lemma_exit_bounded(bars, i + 1, hi, entry, side);
        let g = gain(side.is_long, entry, outcome_price(bars, i, hi, side));
        assert(-60_000_000_000_000_000 <= g * pv <= 60_000_000_000_000_000) by (nonlinear_arith)
            requires
                -6_000_000_000_000 <= g <= 6_000_000_000_000,
                0 <= pv <= 10_000,
        ;
    }
}

/// No trade nets more than its target multiple of the widest range allows, less
/// the cost: the per-trade ceiling.
pub proof fn no_trade_exceeds_the_ceiling(
    bars: Seq<Bar>,
    days: Seq<DayMeta>,
    inst: InstCfg,
    rows: Seq<DayRow>,
    p: BacktestParams,
    regimes: Seq<u8>,
    hurst: Seq<Option<i64>>,
    from: int,
    to: int,
    slippage_ticks: int,
    commission: int,
    k: int,
)
    requires
        0 <= from,
        to <= rows.len(),
        to <= days.len(),
        bars_in_range(bars),
        ordered_in(bars, 0, bars.len() as int),
        sessions_end_within(bars, days),
        ranges_in_range(rows),
        inst.in_range(),
        p.in_range(),
        0 <= p.lux_tper,
        0 <= p.target_mult(),
        p.cost_1ct == inst.cost(slippage_ticks, commission),
        0 <= k < span_trades(bars, days, inst, rows, p, regimes, hurst, from, to).len(),
    ensures
        span_trades(bars, days, inst, rows, p, regimes, hurst, from, to)[k].pnl_1ct
            <= inst.ceiling(p.target_mult(), slippage_ticks, commission),
    decreases to - from,
{
    if from < to {
        let before = span_trades(bars, days, inst, rows, p, regimes, hurst, from, to - 1);
        let d = to - 1;
        if k < before.len() {
            no_trade_exceeds_the_ceiling(
                bars,
                days,
                inst,
                rows,
                p,
                regimes,
                hurst,
                from,
                to - 1,
                slippage_ticks,
                commission,
                k,
            );
        } else {
            assert(trades_on(days, inst, rows, p, regimes, hurst, d));
            assert forall|is_long: bool| side_trades(
                bars,
                days,
                inst,
                rows,
                p,
                from,
                d,
                is_long,
            ).len() <= 1 && (#[trigger] side_trades(
                bars,
                days,
                inst,
                rows,
                p,
                from,
                d,
                is_long,
            ).len() == 1 ==> side_trades(bars, days, inst, rows, p, from, d, is_long)[0].pnl_1ct
                <= inst.ceiling(p.target_mult(), slippage_ticks, commission)) by {
                let side = side_of(days, rows, p, from, d, is_long);
                lemma_side_shape(days, inst, rows, p, regimes, hurst, from, d, is_long);
                lemma_side_under_ceiling(
                    bars,
                    days,
                    inst,
                    rows,
                    p,
                    regimes,
                    hurst,
                    from,
                    d,
                    is_long,
                    slippage_ticks,
                    commission,
                );
                lemma_side_profit_bounded(
                    bars,
                    rows[d].post->0 as int,
                    days[d].sess_end as int,
                    side,
                    inst.point_value as int,
                    p.cost_1ct as int,
                );
            }
            let l = side_trades(bars, days, inst, rows, p, from, d, true);
            let s = side_trades(bars, days, inst, rows, p, from, d, false);
            assert(l.len() <= 1 && s.len() <= 1);
        }
    }
}

/// A wick-break entry whose own bar trades through the stop is recorded, as the
/// loss from the level to the stop.
pub proof fn a_same_bar_stop_out_is_a_recorded_loss(
    bars: Seq<Bar>,
    lo: int,
    hi: int,
    side: Side,
    pv: int,
    cost: int,
    i: int,
)
    requires
        side.entry_mode == EntryMode::WickBreak,
        entry_bar(bars, lo, lo, hi, side) == Some(i),
        stops(bars[i], side),
        gain(side.is_long, side.level as int, fine(side.stop)) <= 0,
        0 <= pv,
    ensures
        side_profit(bars, lo, hi, side, pv, cost) == Some(
            gain(side.is_long, side.level as int, fine(side.stop)) * pv - cost,
        ),
        side_profit(bars, lo, hi, side, pv, cost)->0 <= -cost,
{
    let g = gain(side.is_long, side.level as int, fine(side.stop));
    assert(g * pv <= 0) by (nonlinear_arith)
        requires
            g <= 0,
            0 <= pv,
    ;
}

/// A feature that could not be measured fails its filter: with a Hurst floor or
/// an entropy cap set, a day without the measurement does not trade.
pub proof fn an_unmeasured_feature_fails_its_filter(
    days: Seq<DayMeta>,
    inst: InstCfg,
    rows: Seq<DayRow>,
    p: BacktestParams,
    regimes: Seq<u8>,
    hurst: Seq<Option<i64>>,
    d: int,
)
    ensures
        p.h_min is Some && hurst[d] is None ==> !trades_on(
            days,
            inst,
            rows,
            p,
            regimes,
            hurst,
            d,
        ),
        p.e_max is Some && rows[d].entropy is None ==> !trades_on(
            days,
            inst,
            rows,
            p,
            regimes,
            hurst,
            d,
        ),
{
}

// ---------------------------------------------------------------------------
// Trades of a day
// ---------------------------------------------------------------------------

proof fn lemma_of_day_concat(a: Seq<RawTrade>, b: Seq<RawTrade>, day: usize)
    ensures
        of_day(a + b, day) == of_day(a, day) + of_day(b, day),
{
    Seq::filter_distributes_over_add(a, b, |t: RawTrade| t.day_idx == day);
}

/// A day makes at most two trades, one in each direction.
pub proof fn a_day_makes_at_most_two_trades(
    bars: Seq<Bar>,
    days: Seq<DayMeta>,
    inst: InstCfg,
    rows: Seq<DayRow>,
    p: BacktestParams,
    regimes: Seq<u8>,
    hurst: Seq<Option<i64>>,
    from: int,
    to: int,
    day: usize,
)
    requires
        0 <= from,
        to <= usize::MAX,
    ensures
        of_day(span_trades(bars, days, inst, rows, p, regimes, hurst, from, to), day).len() <= 2,
        day >= to ==> of_day(
            span_trades(bars, days, inst, rows, p, regimes, hurst, from, to),
            day,
        ).len() == 0,
    decreases to - from,
{
    if from < to {
        a_day_makes_at_most_two_trades(
            bars,
            days,
            inst,
            rows,
            p,
            regimes,
            hurst,
            from,
            to - 1,
            day,
        );
        let before = span_trades(bars, days, inst, rows, p, regimes, hurst, from, to - 1);
        let today = day_trades(bars, days, inst, rows, p, regimes, hurst, from, to - 1);
        lemma_of_day_concat(before, today, day);
        let f = |t: RawTrade| t.day_idx == day;
        today.lemma_filter_len(f);
        if day != to - 1 {
            if of_day(today, day).len() > 0 {
                today.lemma_filter_pred(f, 0);
                today.lemma_filter_contains_rev(f, of_day(today, day)[0]);
            }
        }
    } else {
        let none = span_trades(bars, days, inst, rows, p, regimes, hurst, from, to);
        none.lemma_filter_len(|t: RawTrade| t.day_idx == day);
    }
}

} // verus!
