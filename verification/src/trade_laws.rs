//! How a trade is entered, left and paid, in terms of the bars.
//!
//! Prices are read in the direction of the trade: a long trade as they are, a
//! short one with the sign turned, so that more is always better.

use vstd::prelude::*;

use crate::backtest::{
    bars_in_range, day_direction, day_trades, double_mid, entry_bar, entry_price, exit_price,
    first_post, gain, opening_closes, opening_range, outcome_price, previous_double_mid,
    ranges_in_range, sessions_end_within, side_of, side_profit, side_trades, span_trades, stops,
    targets, trades_on, triggers, BacktestParams, DayRow, Side,
};
use crate::backtest_laws::lemma_side_profit_bounded;
use crate::features::eligible;
use crate::types::{Bar, BiasMode, DayMeta, EntryMode, ExitMode, InstCfg};

verus! {

// ---------------------------------------------------------------------------
// Prices in the direction of a trade
// ---------------------------------------------------------------------------

/// A fine price in the direction of a trade.
pub open spec fn toward(is_long: bool, x: int) -> int {
    if is_long {
        x
    } else {
        -x
    }
}

/// The best price of a bar in the direction of a trade, fine.
pub open spec fn best(b: Bar, is_long: bool) -> int {
    if is_long {
        100 * b.high
    } else {
        -100 * b.low
    }
}

/// The worst price of a bar in the direction of a trade, fine.
pub open spec fn worst(b: Bar, is_long: bool) -> int {
    if is_long {
        100 * b.low
    } else {
        -100 * b.high
    }
}

/// Whether bar `i` of a slice that begins at `lo` breaks the level: with its wick,
/// or with a close that follows one that had not.
pub open spec fn breaks_out(bars: Seq<Bar>, lo: int, i: int, side: Side) -> bool {
    let level = toward(side.is_long, side.level as int);
    match side.entry_mode {
        EntryMode::WickBreak => best(bars[i], side.is_long) > level,
        EntryMode::CloseCross => {
            &&& toward(side.is_long, 100 * bars[i].close) > level
            &&& i > lo ==> toward(side.is_long, 100 * bars[i - 1].close) <= level
        },
    }
}

/// Whether bar `i` is the first of `lo..hi` that breaks the level.
pub open spec fn first_breakout(bars: Seq<Bar>, lo: int, hi: int, side: Side, i: int) -> bool {
    &&& lo <= i < hi
    &&& breaks_out(bars, lo, i, side)
    &&& forall|j: int| lo <= j < i ==> !#[trigger] breaks_out(bars, lo, j, side)
}

/// Whether a bar after the entry leaves a trade open: it trades neither through
/// the stop nor to `entry + reach`.
pub open spec fn leaves_open(b: Bar, side: Side, entry: int) -> bool {
    &&& worst(b, side.is_long) > toward(side.is_long, 100 * side.stop)
    &&& best(b, side.is_long) < entry + side.reach
}

/// What a trade at `entry` that is left at `exit` makes, both in its direction.
pub open spec fn made(entry: int, exit: int, pv: int, cost: int) -> Option<int> {
    Some((exit - entry) * pv - cost)
}

proof fn lemma_triggers(bars: Seq<Bar>, lo: int, i: int, side: Side)
    requires
        lo <= i,
    ensures
        triggers(bars, lo, i, side) == breaks_out(bars, lo, i, side),
{
}

proof fn lemma_first_entry(bars: Seq<Bar>, lo: int, from: int, hi: int, side: Side, i: int)
    requires
        first_breakout(bars, lo, hi, side, i),
        lo <= from <= i,
    ensures
        entry_bar(bars, lo, from, hi, side) == Some(i),
    decreases i - from,
{
    lemma_triggers(bars, lo, from, side);
    if from < i {
        assert(!breaks_out(bars, lo, from, side));
        lemma_first_entry(bars, lo, from + 1, hi, side, i);
    }
}

proof fn lemma_no_entry(bars: Seq<Bar>, lo: int, from: int, hi: int, side: Side)
    requires
        lo <= from,
        forall|j: int| from <= j < hi ==> !#[trigger] breaks_out(bars, lo, j, side),
    ensures
        entry_bar(bars, lo, from, hi, side) is None,
    decreases hi - from,
{
    if from < hi {
        lemma_triggers(bars, lo, from, side);
        assert(!breaks_out(bars, lo, from, side));
        lemma_no_entry(bars, lo, from + 1, hi, side);
    }
}

proof fn lemma_still_open(bars: Seq<Bar>, from: int, k: int, hi: int, entry: int, side: Side)
    requires
        from <= k <= hi,
        forall|j: int|
            from <= j < k ==> #[trigger] leaves_open(
                bars[j],
                side,
                toward(side.is_long, entry),
            ),
    ensures
        exit_price(bars, from, hi, entry, side) == exit_price(bars, k, hi, entry, side),
    decreases k - from,
{
    if from < k {
        assert(leaves_open(bars[from], side, toward(side.is_long, entry)));
        lemma_still_open(bars, from + 1, k, hi, entry, side);
    }
}

// ---------------------------------------------------------------------------
// One direction of one day
// ---------------------------------------------------------------------------

/// A direction trades exactly where some bar of its slice breaks the level.
pub proof fn a_side_trades_where_its_level_is_broken(
    bars: Seq<Bar>,
    lo: int,
    hi: int,
    side: Side,
    pv: int,
    cost: int,
)
    ensures
        side_profit(bars, lo, hi, side, pv, cost) is Some <==> exists|i: int|
            lo <= i < hi && #[trigger] breaks_out(bars, lo, i, side),
{
    if exists|i: int| lo <= i < hi && #[trigger] breaks_out(bars, lo, i, side) {
        let i = choose|i: int| lo <= i < hi && #[trigger] breaks_out(bars, lo, i, side);
        lemma_first_of(bars, lo, hi, side, i);
    } else {
        lemma_no_entry(bars, lo, lo, hi, side);
    }
}

proof fn lemma_first_of(bars: Seq<Bar>, lo: int, hi: int, side: Side, i: int) -> (k: int)
    requires
        lo <= i < hi,
        breaks_out(bars, lo, i, side),
    ensures
        first_breakout(bars, lo, hi, side, k),
        entry_bar(bars, lo, lo, hi, side) == Some(k),
    decreases i - lo,
{
    if exists|j: int| lo <= j < i && #[trigger] breaks_out(bars, lo, j, side) {
        let j = choose|j: int| lo <= j < i && #[trigger] breaks_out(bars, lo, j, side);
        lemma_first_of(bars, lo, hi, side, j)
    } else {
        lemma_first_entry(bars, lo, lo, hi, side, i);
        i
    }
}

/// A wick entry whose own bar trades through the stop loses from the level to the
/// stop.
pub proof fn a_bar_that_sweeps_both_loses_to_the_stop(
    bars: Seq<Bar>,
    lo: int,
    hi: int,
    side: Side,
    pv: int,
    cost: int,
    i: int,
)
    requires
        first_breakout(bars, lo, hi, side, i),
        side.entry_mode == EntryMode::WickBreak,
        worst(bars[i], side.is_long) <= toward(side.is_long, 100 * side.stop),
    ensures
        side_profit(bars, lo, hi, side, pv, cost) == made(
            toward(side.is_long, side.level as int),
            toward(side.is_long, 100 * side.stop),
            pv,
            cost,
        ),
{
    lemma_first_entry(bars, lo, lo, hi, side, i);
}

/// The entry price of a trade in its direction: the level of a wick entry, the
/// close of a close entry.
pub open spec fn entered_at(bars: Seq<Bar>, side: Side, i: int) -> int {
    match side.entry_mode {
        EntryMode::WickBreak => toward(side.is_long, side.level as int),
        EntryMode::CloseCross => toward(side.is_long, 100 * bars[i].close),
    }
}

/// Whether a trade entered at bar `i` outlives that bar: a close entry does, a wick
/// entry where the bar keeps off the stop.
pub open spec fn outlives_entry(bars: Seq<Bar>, side: Side, i: int) -> bool {
    side.entry_mode == EntryMode::WickBreak ==> worst(bars[i], side.is_long) > toward(
        side.is_long,
        100 * side.stop,
    )
}

/// A trade that no bar after its entry had closed is stopped out by the first bar
/// that trades through the stop, whatever else that bar reaches and whatever
/// comes after: it makes the distance from entry to stop, less the cost.
pub proof fn the_first_bar_through_the_stop_ends_a_trade(
    bars: Seq<Bar>,
    lo: int,
    hi: int,
    side: Side,
    pv: int,
    cost: int,
    i: int,
    k: int,
)
    requires
        first_breakout(bars, lo, hi, side, i),
        outlives_entry(bars, side, i),
        i < k < hi,
        forall|j: int|
            i < j < k ==> #[trigger] leaves_open(bars[j], side, entered_at(bars, side, i)),
        worst(bars[k], side.is_long) <= toward(side.is_long, 100 * side.stop),
    ensures
        side_profit(bars, lo, hi, side, pv, cost) == made(
            entered_at(bars, side, i),
            toward(side.is_long, 100 * side.stop),
            pv,
            cost,
        ),
{
    lemma_first_entry(bars, lo, lo, hi, side, i);
    lemma_still_open(bars, i + 1, k, hi, entry_price(bars, i, side), side);
}

/// A trade that no bar after its entry had closed is paid by the first bar that
/// reaches the target without trading through the stop: it makes the reach of
/// the target, less the cost.
pub proof fn the_first_bar_at_the_target_pays_a_trade(
    bars: Seq<Bar>,
    lo: int,
    hi: int,
    side: Side,
    pv: int,
    cost: int,
    i: int,
    k: int,
)
    requires
        first_breakout(bars, lo, hi, side, i),
        outlives_entry(bars, side, i),
        i < k < hi,
        forall|j: int|
            i < j < k ==> #[trigger] leaves_open(bars[j], side, entered_at(bars, side, i)),
        worst(bars[k], side.is_long) > toward(side.is_long, 100 * side.stop),
        best(bars[k], side.is_long) >= entered_at(bars, side, i) + side.reach,
    ensures
        side_profit(bars, lo, hi, side, pv, cost) == Some(side.reach * pv - cost),
{
    lemma_first_entry(bars, lo, lo, hi, side, i);
    lemma_still_open(bars, i + 1, k, hi, entry_price(bars, i, side), side);
}

/// A trade that no bar after its entry closes is closed at the last close of the
/// session. One entered by a wick in the last bar gets no more than its target.
pub proof fn an_open_trade_is_closed_with_the_session(
    bars: Seq<Bar>,
    lo: int,
    hi: int,
    side: Side,
    pv: int,
    cost: int,
    i: int,
)
    requires
        first_breakout(bars, lo, hi, side, i),
        outlives_entry(bars, side, i),
        forall|j: int|
            i < j < hi ==> #[trigger] leaves_open(bars[j], side, entered_at(bars, side, i)),
    ensures
        ({
            let entry = entered_at(bars, side, i);
            let close = toward(side.is_long, 100 * bars[hi - 1].close);
            let capped = side.entry_mode == EntryMode::WickBreak && i == hi - 1 && close > entry
                + side.reach;
            side_profit(bars, lo, hi, side, pv, cost) == if capped {
                Some(side.reach * pv - cost)
            } else {
                made(entry, close, pv, cost)
            }
        }),
{
    lemma_first_entry(bars, lo, lo, hi, side, i);
    lemma_still_open(bars, i + 1, hi, hi, entry_price(bars, i, side), side);
}

/// Whether the bars of a slice have their closes between their lows and highs.
pub open spec fn closes_within(bars: Seq<Bar>, lo: int, hi: int) -> bool {
    forall|i: int| lo <= i < hi ==> (#[trigger] bars[i]).low <= bars[i].close <= bars[i].high
}

proof fn lemma_exit_not_beyond_stop(bars: Seq<Bar>, i: int, hi: int, entry: int, side: Side)
    requires
        i <= hi,
        closes_within(bars, i, hi),
        toward(side.is_long, 100 * side.stop) <= toward(side.is_long, entry),
        0 <= side.reach,
        i < hi || toward(side.is_long, 100 * side.stop) <= toward(
            side.is_long,
            100 * bars[hi - 1].close,
        ),
    ensures
        toward(side.is_long, 100 * side.stop) <= toward(
            side.is_long,
            exit_price(bars, i, hi, entry, side),
        ),
    decreases hi - i,
{
    if i < hi {
        assert(bars[i].low <= bars[i].close <= bars[i].high);
        if !stops(bars[i], side) && !targets(bars[i], entry, side) {
            lemma_exit_not_beyond_stop(bars, i + 1, hi, entry, side);
        }
    }
}

/// No trade loses more than the distance from its entry to its stop, and the cost.
pub proof fn no_trade_loses_more_than_its_stop(
    bars: Seq<Bar>,
    lo: int,
    hi: int,
    side: Side,
    pv: int,
    cost: int,
    i: int,
)
    requires
        first_breakout(bars, lo, hi, side, i),
        closes_within(bars, lo, hi),
        toward(side.is_long, 100 * side.stop) <= toward(side.is_long, side.level as int),
        0 <= side.reach,
        0 <= pv,
    ensures
        side_profit(bars, lo, hi, side, pv, cost) is Some,
        side_profit(bars, lo, hi, side, pv, cost)->0 >= (toward(side.is_long, 100 * side.stop)
            - entered_at(bars, side, i)) * pv - cost,
{
    lemma_first_entry(bars, lo, lo, hi, side, i);
    let entry = entry_price(bars, i, side);
    assert(bars[i].low <= bars[i].close <= bars[i].high);
    if outlives_entry(bars, side, i) {
        lemma_exit_not_beyond_stop(bars, i + 1, hi, entry, side);
    }
    let at = toward(side.is_long, entry);
    let stop = toward(side.is_long, 100 * side.stop);
    let left = outcome_price(bars, i, hi, side);
    let exit = toward(side.is_long, left);
    assert(stop <= exit);
    assert(gain(side.is_long, entry, left) == exit - at);
    assert((exit - at) * pv >= (stop - at) * pv) by (nonlinear_arith)
        requires
            stop <= exit,
            0 <= pv,
    ;
}

// ---------------------------------------------------------------------------
// The opening range
// ---------------------------------------------------------------------------

/// Whether a bar falls in the first `w` minutes from the open, across midnight.
pub open spec fn opens_with(b: Bar, open_mins: int, w: int) -> bool {
    (b.time_mins - open_mins) % 1440 < w
}

/// The opening range spans the bars of the first minutes: no such bar is above its
/// high or below its low, and both were traded.
pub proof fn the_opening_range_spans_its_bars(
    bars: Seq<Bar>,
    s: int,
    e: int,
    open_mins: int,
    w: int,
)
    ensures
        match opening_range(bars, s, e, open_mins, w) {
            Some((hi, lo)) => {
                &&& forall|i: int|
                    s <= i < e && opens_with(#[trigger] bars[i], open_mins, w) ==> lo
                        <= bars[i].low && bars[i].high <= hi
                &&& exists|i: int|
                    s <= i < e && opens_with(#[trigger] bars[i], open_mins, w) && bars[i].high == hi
                &&& exists|i: int|
                    s <= i < e && opens_with(#[trigger] bars[i], open_mins, w) && bars[i].low == lo
            },
            None => forall|i: int|
                s <= i < e ==> !opens_with(#[trigger] bars[i], open_mins, w),
        },
    decreases e - s,
{
    if s < e {
        the_opening_range_spans_its_bars(bars, s, e - 1, open_mins, w);
        let b = bars[e - 1];
        let before = opening_range(bars, s, e - 1, open_mins, w);
        if opens_with(b, open_mins, w) {
            let (hi, lo) = opening_range(bars, s, e, open_mins, w)->0;
            if before is Some {
                let (h, l) = before->0;
                let x = choose|i: int|
                    s <= i < e - 1 && opens_with(#[trigger] bars[i], open_mins, w) && bars[i].high
                        == h;
                let y = choose|i: int|
                    s <= i < e - 1 && opens_with(#[trigger] bars[i], open_mins, w) && bars[i].low
                        == l;
                assert(opens_with(bars[x], open_mins, w) && opens_with(bars[y], open_mins, w));
            }
        } else if before is Some {
            let (h, l) = before->0;
            let x = choose|i: int|
                s <= i < e - 1 && opens_with(#[trigger] bars[i], open_mins, w) && bars[i].high == h;
            let y = choose|i: int|
                s <= i < e - 1 && opens_with(#[trigger] bars[i], open_mins, w) && bars[i].low == l;
            assert(opens_with(bars[x], open_mins, w) && opens_with(bars[y], open_mins, w));
        }
    }
}

/// The slice that is traded begins with the first bar after the opening minutes.
pub proof fn trading_begins_after_the_opening_minutes(
    bars: Seq<Bar>,
    s: int,
    e: int,
    open_mins: int,
    w: int,
)
    requires
        0 <= s,
        e <= usize::MAX,
    ensures
        match first_post(bars, s, e, open_mins, w) {
            Some(k) => {
                &&& s <= k < e
                &&& !opens_with(bars[k as int], open_mins, w)
                &&& forall|i: int| s <= i < k ==> opens_with(#[trigger] bars[i], open_mins, w)
            },
            None => forall|i: int| s <= i < e ==> opens_with(#[trigger] bars[i], open_mins, w),
        },
    decreases e - s,
{
    if s < e {
        trading_begins_after_the_opening_minutes(bars, s + 1, e, open_mins, w);
    }
}

/// The closes of the opening range are those of its bars and of no others: one
/// for each bar of the first minutes, in order.
pub proof fn opening_closes_are_those_of_the_range(
    bars: Seq<Bar>,
    s: int,
    m: int,
    e: int,
    open_mins: int,
    w: int,
)
    requires
        s <= m <= e,
    ensures
        opening_closes(bars, s, e, open_mins, w) == opening_closes(bars, s, m, open_mins, w)
            + opening_closes(bars, m, e, open_mins, w),
        opening_closes(bars, m, m + 1, open_mins, w) == if opens_with(bars[m], open_mins, w) {
            seq![bars[m].close]
        } else {
            Seq::<i64>::empty()
        },
    decreases e - m,
{
    reveal_with_fuel(opening_closes, 3);
    if m < e {
        opening_closes_are_those_of_the_range(bars, s, m, e - 1, open_mins, w);
    }
    assert(opening_closes(bars, s, e, open_mins, w) =~= opening_closes(bars, s, m, open_mins, w)
        + opening_closes(bars, m, e, open_mins, w));
    assert(opening_closes(bars, m, m + 1, open_mins, w) =~= if opens_with(bars[m], open_mins, w) {
        seq![bars[m].close]
    } else {
        Seq::<i64>::empty()
    });
}

// ---------------------------------------------------------------------------
// The days of a span
// ---------------------------------------------------------------------------

/// Whether a day may trade: its year was asked for, its range is between 4 and 200
/// ticks, each measure with a limit was taken and keeps to it, its regime is
/// selected, and at least five session bars follow the range.
pub open spec fn may_trade(
    days: Seq<DayMeta>,
    inst: InstCfg,
    rows: Seq<DayRow>,
    p: BacktestParams,
    regimes: Seq<u8>,
    hurst: Seq<Option<i64>>,
    d: int,
) -> bool {
    &&& p.year_range matches Some((first, last)) ==> first <= days[d].year <= last
    &&& rows[d].range matches Some((hi, lo)) && 4 * inst.tick_size <= hi - lo <= 200
        * inst.tick_size
    &&& p.h_min matches Some(least) ==> hurst[d] is Some && hurst[d]->0 >= least
    &&& p.e_max matches Some(most) ==> rows[d].entropy is Some && rows[d].entropy->0 <= most
    &&& eligible(regimes[d], p.vol_regime_filter@)
    &&& rows[d].post matches Some(k) && days[d].sess_end - k >= 5
}

/// Whether the midpoint of day `d` is on the wrong side of the midpoint of the
/// latest earlier day of the span that has one: below it for a long trade, above
/// it for a short one.
pub open spec fn moved_against(
    days: Seq<DayMeta>,
    rows: Seq<DayRow>,
    p: BacktestParams,
    from: int,
    d: int,
    is_long: bool,
) -> bool {
    exists|e: int|
        from <= e < d && #[trigger] has_mid(days, rows, p, e) && (forall|j: int|
            e < j < d ==> !#[trigger] has_mid(days, rows, p, j)) && toward(
            is_long,
            twice_mid(rows[d]),
        ) < toward(is_long, twice_mid(rows[e]))
}

/// Twice the midpoint of a day's range.
pub open spec fn twice_mid(row: DayRow) -> int {
    let (hi, lo) = row.range->0;
    hi + lo
}

/// Whether a day counts for the bias: its year was asked for and it has a range.
pub open spec fn has_mid(
    days: Seq<DayMeta>,
    rows: Seq<DayRow>,
    p: BacktestParams,
    d: int,
) -> bool {
    &&& p.year_range matches Some((first, last)) ==> first <= days[d].year <= last
    &&& rows[d].range is Some
}

/// Whether a side is that of a day: it enters at the edge of the range, with the
/// daily bias on and the day moved against it only beyond the offset; it stops at
/// the other edge; and its target is the exit mode's multiple of the range.
pub open spec fn is_side_of(
    side: Side,
    days: Seq<DayMeta>,
    rows: Seq<DayRow>,
    p: BacktestParams,
    from: int,
    d: int,
) -> bool {
    let (hi, lo) = rows[d].range->0;
    let offset = if p.bias_mode == BiasMode::DailyBias && moved_against(
        days,
        rows,
        p,
        from,
        d,
        side.is_long,
    ) {
        p.lux_tper * (hi - lo)
    } else {
        0
    };
    &&& side.entry_mode == p.entry_mode
    &&& side.is_long ==> side.level == 100 * hi + offset && side.stop == lo
    &&& !side.is_long ==> side.level == 100 * lo - offset && side.stop == hi
    &&& side.reach == (match p.exit_mode {
        ExitMode::FixedRR => p.rr,
        ExitMode::LuxTargets => p.lux_tper,
    }) * (hi - lo)
}

proof fn lemma_may_trade(
    days: Seq<DayMeta>,
    inst: InstCfg,
    rows: Seq<DayRow>,
    p: BacktestParams,
    regimes: Seq<u8>,
    hurst: Seq<Option<i64>>,
    d: int,
)
    ensures
        trades_on(days, inst, rows, p, regimes, hurst, d) == may_trade(
            days,
            inst,
            rows,
            p,
            regimes,
            hurst,
            d,
        ),
{
}

proof fn lemma_previous_mid(
    days: Seq<DayMeta>,
    rows: Seq<DayRow>,
    p: BacktestParams,
    from: int,
    d: int,
)
    ensures
        match previous_double_mid(days, rows, p, from, d) {
            Some(m) => exists|e: int|
                from <= e < d && #[trigger] has_mid(days, rows, p, e) && (forall|j: int|
                    e < j < d ==> !#[trigger] has_mid(days, rows, p, j)) && m == twice_mid(rows[e]),
            None => forall|e: int| from <= e < d ==> !#[trigger] has_mid(days, rows, p, e),
        },
    decreases d - from,
{
    if from < d {
        lemma_previous_mid(days, rows, p, from, d - 1);
        assert(double_mid(days, rows, p, d - 1) is Some <==> has_mid(days, rows, p, d - 1));
        if has_mid(days, rows, p, d - 1) {
            assert(from <= d - 1 < d);
        } else if previous_double_mid(days, rows, p, from, d - 1) is Some {
            let m = previous_double_mid(days, rows, p, from, d - 1)->0;
            let e = choose|e: int|
                from <= e < d - 1 && #[trigger] has_mid(days, rows, p, e) && (forall|j: int|
                    e < j < d - 1 ==> !#[trigger] has_mid(days, rows, p, j)) && m
                    == twice_mid(rows[e]);
            assert(has_mid(days, rows, p, e));
            assert forall|j: int| e < j < d implies !#[trigger] has_mid(days, rows, p, j) by {
                if j < d - 1 {
                    assert(!has_mid(days, rows, p, j));
                }
            }
        }
    }
}

proof fn lemma_against(
    days: Seq<DayMeta>,
    rows: Seq<DayRow>,
    p: BacktestParams,
    from: int,
    d: int,
    is_long: bool,
)
    requires
        has_mid(days, rows, p, d),
    ensures
        moved_against(days, rows, p, from, d, is_long) <==> day_direction(days, rows, p, from, d)
            == if is_long {
            -1int
        } else {
            1int
        },
{
    lemma_previous_mid(days, rows, p, from, d);
    let prev = previous_double_mid(days, rows, p, from, d);
    if prev is Some {
        let m = prev->0;
        let e = choose|e: int|
            from <= e < d && #[trigger] has_mid(days, rows, p, e) && (forall|j: int|
                e < j < d ==> !#[trigger] has_mid(days, rows, p, j)) && m == twice_mid(rows[e]);
        assert(has_mid(days, rows, p, e));
        if moved_against(days, rows, p, from, d, is_long) {
            let f = choose|e: int|
                from <= e < d && #[trigger] has_mid(days, rows, p, e) && (forall|j: int|
                    e < j < d ==> !#[trigger] has_mid(days, rows, p, j)) && toward(
                    is_long,
                    twice_mid(rows[d]),
                ) < toward(is_long, twice_mid(rows[e]));
            assert(has_mid(days, rows, p, f));
            assert(e == f);
        }
    } else if moved_against(days, rows, p, from, d, is_long) {
        let f = choose|e: int|
            from <= e < d && #[trigger] has_mid(days, rows, p, e) && (forall|j: int|
                e < j < d ==> !#[trigger] has_mid(days, rows, p, j)) && toward(
                is_long,
                twice_mid(rows[d]),
            ) < toward(is_long, twice_mid(rows[e]));
        assert(has_mid(days, rows, p, f));
    }
}

proof fn lemma_side(
    days: Seq<DayMeta>,
    inst: InstCfg,
    rows: Seq<DayRow>,
    p: BacktestParams,
    regimes: Seq<u8>,
    hurst: Seq<Option<i64>>,
    from: int,
    d: int,
    is_long: bool,
)
    requires
        0 <= d < rows.len(),
        may_trade(days, inst, rows, p, regimes, hurst, d),
        ranges_in_range(rows),
        inst.in_range(),
        p.in_range(),
    ensures
        is_side_of(side_of(days, rows, p, from, d, is_long), days, rows, p, from, d),
        side_of(days, rows, p, from, d, is_long).is_long == is_long,
        side_of(days, rows, p, from, d, is_long).in_range(),
{
    lemma_against(days, rows, p, from, d, is_long);
    let (hi, lo) = rows[d].range->0;
    let orr = hi - lo;
    let lux = p.lux_tper as int;
    let rr = p.rr as int;
    assert(-2_000_000_000_000 <= lux * orr <= 2_000_000_000_000) by (nonlinear_arith)
        requires
            -10_000 <= lux <= 10_000,
            0 <= orr <= 200_000_000,
    ;
    assert(-2_000_000_000_000 <= rr * orr <= 2_000_000_000_000) by (nonlinear_arith)
        requires
            -10_000 <= rr <= 10_000,
            0 <= orr <= 200_000_000,
    ;
}

/// Whether a direction was asked for.
pub open spec fn asks_for(p: BacktestParams, is_long: bool) -> bool {
    p.direction@ == "both"@ || p.direction@ == if is_long {
        "long"@
    } else {
        "short"@
    }
}

proof fn lemma_side_trade(
    bars: Seq<Bar>,
    days: Seq<DayMeta>,
    inst: InstCfg,
    rows: Seq<DayRow>,
    p: BacktestParams,
    regimes: Seq<u8>,
    hurst: Seq<Option<i64>>,
    from: int,
    d: int,
    is_long: bool,
)
    requires
        0 <= d < rows.len(),
        d < days.len() <= usize::MAX,
        may_trade(days, inst, rows, p, regimes, hurst, d),
        bars_in_range(bars),
        sessions_end_within(bars, days),
        ranges_in_range(rows),
        inst.in_range(),
        p.in_range(),
    ensures
        ({
            let (hi, lo) = rows[d].range->0;
            let side = side_of(days, rows, p, from, d, is_long);
            let r = side_trades(bars, days, inst, rows, p, from, d, is_long);
            let pnl = side_profit(
                bars,
                rows[d].post->0 as int,
                days[d].sess_end as int,
                side,
                inst.point_value as int,
                p.cost_1ct as int,
            );
            &&& r.len() == if pnl is Some {
                1int
            } else {
                0
            }
            &&& r.len() > 0 ==> {
                &&& pnl == Some(r[0].pnl_1ct as int)
                &&& r[0].risk_1ct == hi - lo
                &&& r[0].day_idx == d
                &&& r[0].dir == if is_long {
                    0int
                } else {
                    1
                }
            }
        }),
{
    lemma_side(days, inst, rows, p, regimes, hurst, from, d, is_long);
    lemma_side_profit_bounded(
        bars,
        rows[d].post->0 as int,
        days[d].sess_end as int,
        side_of(days, rows, p, from, d, is_long),
        inst.point_value as int,
        p.cost_1ct as int,
    );
}

/// Every trade of a span is one of a day that may trade, in a direction that was
/// asked for, at risk of the day's range, and made what its side of that day
/// makes between the opening range and the end of the session.
pub proof fn every_trade_follows_the_rules(
    bars: Seq<Bar>,
    days: Seq<DayMeta>,
    inst: InstCfg,
    rows: Seq<DayRow>,
    p: BacktestParams,
    regimes: Seq<u8>,
    hurst: Seq<Option<i64>>,
    from: int,
    to: int,
    k: int,
) -> (side: Side)
    requires
        0 <= from,
        to <= rows.len(),
        to <= days.len() <= usize::MAX,
        bars_in_range(bars),
        sessions_end_within(bars, days),
        ranges_in_range(rows),
        inst.in_range(),
        p.in_range(),
        0 <= k < span_trades(bars, days, inst, rows, p, regimes, hurst, from, to).len(),
    ensures
        ({
            let t = span_trades(bars, days, inst, rows, p, regimes, hurst, from, to)[k];
            let d = t.day_idx as int;
            let (hi, lo) = rows[d].range->0;
            &&& from <= d < to
            &&& may_trade(days, inst, rows, p, regimes, hurst, d)
            &&& is_side_of(side, days, rows, p, from, d)
            &&& t.dir == if side.is_long {
                0int
            } else {
                1
            }
            &&& asks_for(p, side.is_long)
            &&& t.risk_1ct == hi - lo
            &&& side_profit(
                bars,
                rows[d].post->0 as int,
                days[d].sess_end as int,
                side,
                inst.point_value as int,
                p.cost_1ct as int,
            ) == Some(t.pnl_1ct as int)
        }),
    decreases to - from,
{
    let before = span_trades(bars, days, inst, rows, p, regimes, hurst, from, to - 1);
    let d = to - 1;
    if k < before.len() {
        every_trade_follows_the_rules(
            bars,
            days,
            inst,
            rows,
            p,
            regimes,
            hurst,
            from,
            to - 1,
            k,
        )
    } else {
        lemma_may_trade(days, inst, rows, p, regimes, hurst, d);
        lemma_side_trade(bars, days, inst, rows, p, regimes, hurst, from, d, true);
        lemma_side_trade(bars, days, inst, rows, p, regimes, hurst, from, d, false);
        lemma_side(days, inst, rows, p, regimes, hurst, from, d, true);
        lemma_side(days, inst, rows, p, regimes, hurst, from, d, false);
        let t = span_trades(bars, days, inst, rows, p, regimes, hurst, from, to)[k];
        side_of(days, rows, p, from, d, t.dir == 0)
    }
}

/// Every day that may trade does, in each direction that was asked for whose side
/// makes something.
pub proof fn every_setup_is_traded(
    bars: Seq<Bar>,
    days: Seq<DayMeta>,
    inst: InstCfg,
    rows: Seq<DayRow>,
    p: BacktestParams,
    regimes: Seq<u8>,
    hurst: Seq<Option<i64>>,
    from: int,
    to: int,
    d: int,
    side: Side,
) -> (k: int)
    requires
        0 <= from <= d < to,
        to <= rows.len(),
        to <= days.len() <= usize::MAX,
        bars_in_range(bars),
        sessions_end_within(bars, days),
        ranges_in_range(rows),
        inst.in_range(),
        p.in_range(),
        may_trade(days, inst, rows, p, regimes, hurst, d),
        is_side_of(side, days, rows, p, from, d),
        asks_for(p, side.is_long),
        side_profit(
            bars,
            rows[d].post->0 as int,
            days[d].sess_end as int,
            side,
            inst.point_value as int,
            p.cost_1ct as int,
        ) is Some,
    ensures
        ({
            let trades = span_trades(bars, days, inst, rows, p, regimes, hurst, from, to);
            &&& 0 <= k < trades.len()
            &&& trades[k].day_idx == d
            &&& trades[k].dir == if side.is_long {
                0int
            } else {
                1
            }
        }),
    decreases to - from,
{
    let before = span_trades(bars, days, inst, rows, p, regimes, hurst, from, to - 1);
    if d < to - 1 {
        every_setup_is_traded(
            bars,
            days,
            inst,
            rows,
            p,
            regimes,
            hurst,
            from,
            to - 1,
            d,
            side,
        )
    } else {
        lemma_may_trade(days, inst, rows, p, regimes, hurst, d);
        lemma_side_trade(bars, days, inst, rows, p, regimes, hurst, from, d, true);
        lemma_side_trade(bars, days, inst, rows, p, regimes, hurst, from, d, false);
        lemma_side(days, inst, rows, p, regimes, hurst, from, d, side.is_long);
        assert(side == side_of(days, rows, p, from, d, side.is_long));
        if side.is_long {
            before.len() as int
        } else {
            before.len() + day_trades(bars, days, inst, rows, p, regimes, hurst, from, d).len() - 1
        }
    }
}

/// The trades of a span come day by day, and within a day the long one before the
/// short one: no day trades a direction twice.
pub proof fn trades_come_in_order(
    bars: Seq<Bar>,
    days: Seq<DayMeta>,
    inst: InstCfg,
    rows: Seq<DayRow>,
    p: BacktestParams,
    regimes: Seq<u8>,
    hurst: Seq<Option<i64>>,
    from: int,
    to: int,
    i: int,
    j: int,
)
    requires
        0 <= from,
        to <= rows.len(),
        to <= days.len() <= usize::MAX,
        bars_in_range(bars),
        sessions_end_within(bars, days),
        ranges_in_range(rows),
        inst.in_range(),
        p.in_range(),
        0 <= i < j < span_trades(bars, days, inst, rows, p, regimes, hurst, from, to).len(),
    ensures
        ({
            let trades = span_trades(bars, days, inst, rows, p, regimes, hurst, from, to);
            ||| trades[i].day_idx < trades[j].day_idx
            ||| trades[i].day_idx == trades[j].day_idx && trades[i].dir < trades[j].dir
        }),
    decreases to - from,
{
    let before = span_trades(bars, days, inst, rows, p, regimes, hurst, from, to - 1);
    let d = to - 1;
    if j < before.len() {
        trades_come_in_order(bars, days, inst, rows, p, regimes, hurst, from, to - 1, i, j);
    } else {
        lemma_may_trade(days, inst, rows, p, regimes, hurst, d);
        lemma_side_trade(bars, days, inst, rows, p, regimes, hurst, from, d, true);
        lemma_side_trade(bars, days, inst, rows, p, regimes, hurst, from, d, false);
        if i < before.len() {
            let side = every_trade_follows_the_rules(
                bars,
                days,
                inst,
                rows,
                p,
                regimes,
                hurst,
                from,
                to - 1,
                i,
            );
        }
    }
}

} // verus!
