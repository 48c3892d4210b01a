use orb_vol::backtest::{
    backtest, group_trades_by_day, mins_since_open, range_closes, span_for_years, year_spans,
    BacktestParams, DayCache,
};
use orb_vol::features::{day_eligible, REGIME_UNKNOWN};
use orb_vol::num::POINT;
use orb_vol::session::index_sessions;
use orb_vol::types::{get_inst, Bar, BiasMode, DayMeta, EntryMode, ExitMode, RawTrade};
use rand::rngs::StdRng;
use rand::{Rng, SeedableRng};

#[test]
fn mins_since_open_is_monotonic_across_midnight() {
    // Asia opens 20:00.
    assert_eq!(mins_since_open(1200, 1200), 0);
    assert_eq!(mins_since_open(1439, 1200), 239);
    assert_eq!(mins_since_open(0, 1200), 240);
    assert_eq!(mins_since_open(119, 1200), 359);
    // NY opens 09:30.
    assert_eq!(mins_since_open(570, 570), 0);
    assert_eq!(mins_since_open(600, 570), 30);
    assert_eq!(mins_since_open(959, 570), 389);
}

#[test]
fn year_spans_are_contiguous_and_exclusive() {
    let days: Vec<DayMeta> = [2021, 2021, 2022, 2022, 2022, 2023]
        .iter()
        .enumerate()
        .map(|(i, &y)| DayMeta { year: y, date_code: 0, start: i, end: i + 1, sess_start: i, sess_end: i + 1 })
        .collect();
    let spans = year_spans(&days);
    assert_eq!(spans[&2021], (0, 2));
    assert_eq!(spans[&2022], (2, 5));
    assert_eq!(spans[&2023], (5, 6));
    assert_eq!(span_for_years(&spans, 2021, 2022), (0, 5));
    assert_eq!(span_for_years(&spans, 2030, 2031), (0, 0));
}

#[test]
fn unknown_regime_only_trades_under_all() {
    assert!(day_eligible(REGIME_UNKNOWN, "all"));
    for r in ["calm", "normal", "elevated", "stressed", "crisis", "not_high"] {
        assert!(!day_eligible(REGIME_UNKNOWN, r), "unknown regime leaked into {r}");
    }
}

fn b(t: i32, high: i64, low: i64, close: i64) -> Bar {
    Bar { high: high * POINT, low: low * POINT, close: close * POINT, volume: 1, time_mins: t, date_id: 0 }
}

fn params(entry: EntryMode, exit: ExitMode) -> BacktestParams<'static> {
    BacktestParams {
        window: 30,
        rr: 100,
        direction: "long",
        cost_1ct: 0,
        h_min: None,
        e_max: None,
        year_range: None,
        entry_mode: entry,
        bias_mode: BiasMode::NoBias,
        exit_mode: exit,
        lux_tper: 100,
        vol_regime_filter: "all",
    }
}

fn one_day(bars: &[Bar]) -> Vec<DayMeta> {
    let n = bars.len();
    let mut days = vec![DayMeta {
        year: 2024,
        date_code: 20240315,
        start: 0,
        end: n,
        sess_start: 0,
        sess_end: n,
    }];
    index_sessions(bars, &mut days, 570, 960);
    days
}

/// One NY day of a 24-hour instrument. The opening range is 09:30-10:00 and
/// is never broken during the session, but price gaps far above it in the
/// evening. A correct engine takes no trade.
fn overnight_gap_day() -> (Vec<Bar>, Vec<DayMeta>) {
    let mut bars = Vec::new();
    // Overnight before the open: must be invisible.
    for t in [0, 120, 300, 560] {
        bars.push(b(t, 5000, 4990, 4995));
    }
    // Opening range 09:30-09:59: 5000 / 4990.
    for t in 570..600 {
        bars.push(b(t, 5000, 4990, 4995));
    }
    // Session 10:00-15:59: stays strictly inside the range.
    for t in 600..960 {
        bars.push(b(t, 4999, 4991, 4995));
    }
    // Evening: gaps 60 points above the range high.
    for t in [1080, 1200, 1380, 1439] {
        bars.push(b(t, 5060, 5055, 5058));
    }
    let days = one_day(&bars);
    (bars, days)
}

#[test]
fn no_trade_is_taken_outside_the_session() {
    let (bars, days) = overnight_gap_day();
    let inst = get_inst("NQ");
    let cache = DayCache::build(&bars, &days, &inst, vec![30]);
    let p = params(EntryMode::WickBreak, ExitMode::FixedRR);
    let trades = backtest(&bars, &days, &inst, &cache, &p, &[0], &[None], (0, 1));
    assert!(
        trades.is_empty(),
        "the range was never broken in-session; the 60-point evening gap must not fill: {trades:?}"
    );
}

/// Whatever trades are produced, their entry and exit must lie inside the
/// session window.
#[test]
fn every_trade_lies_inside_the_session_window() {
    let (bars, days) = overnight_gap_day();
    let inst = get_inst("NQ");
    let cache = DayCache::build(&bars, &days, &inst, vec![30]);
    let (s, e) = (days[0].sess_start, days[0].sess_end);
    for i in s..e {
        let m = mins_since_open(bars[i].time_mins, inst.open_mins);
        assert!(m < 960 - 570, "bar at {} is outside the NY session", bars[i].time_mins);
    }
    let mut p = params(EntryMode::WickBreak, ExitMode::FixedRR);
    p.direction = "both";
    let trades = backtest(&bars, &days, &inst, &cache, &p, &[0], &[None], (0, 1));
    for t in &trades {
        assert_eq!(t.day_idx, 0);
    }
}

/// A wick-break entry whose own bar sweeps the whole range is a loss, not a
/// silently dropped signal.
#[test]
fn same_bar_stop_out_is_recorded_as_a_loss() {
    let mut bars = Vec::new();
    for t in 570..600 {
        bars.push(b(t, 5000, 4990, 4995));
    }
    // 10:00: one bar spanning above the range high and below the range low.
    bars.push(b(600, 5010, 4980, 4985));
    for t in 601..960 {
        bars.push(b(t, 4995, 4993, 4994));
    }
    let days = one_day(&bars);
    let inst = get_inst("NQ");
    let cache = DayCache::build(&bars, &days, &inst, vec![30]);
    let p = params(EntryMode::WickBreak, ExitMode::FixedRR);
    let trades = backtest(&bars, &days, &inst, &cache, &p, &[0], &[None], (0, 1));

    assert_eq!(trades.len(), 1, "the sweep bar must produce exactly one trade");
    let t = trades[0];
    assert!(t.pnl_1ct < 0, "a same-bar sweep is a loss, got {}", t.pnl_1ct);
    // Entry at the range high 5000, stop at the range low 4990: -10 points.
    assert_eq!(t.pnl_1ct, -10 * inst.point_value * 1_000_000, "got {}", t.pnl_1ct);
    assert_eq!((t.risk_1ct, t.dir), (10 * POINT, 0));
}

/// A close-cross entry fills at the bar's close, so the bar's low is already
/// history and must not be treated as a same-bar stop.
#[test]
fn close_cross_entry_has_no_same_bar_stop() {
    let mut bars = Vec::new();
    for t in 570..600 {
        bars.push(b(t, 5000, 4990, 4995));
    }
    bars.push(b(600, 5010, 4980, 5005)); // sweeps low, closes above the high
    for t in 601..960 {
        bars.push(b(t, 5006, 5004, 5005));
    }
    let days = one_day(&bars);
    let inst = get_inst("NQ");
    let cache = DayCache::build(&bars, &days, &inst, vec![30]);
    let p = params(EntryMode::CloseCross, ExitMode::FixedRR);
    let trades = backtest(&bars, &days, &inst, &cache, &p, &[0], &[None], (0, 1));
    assert_eq!(trades.len(), 1);
    // Entered at 5005, drifts sideways, exits at the session close 5005: flat.
    assert_eq!(trades[0].pnl_1ct, 0, "got {}", trades[0].pnl_1ct);
}

/// No trade can net more than the richest target on the widest range.
#[test]
fn no_trade_exceeds_the_engine_ceiling() {
    let mut rng = StdRng::seed_from_u64(99);
    let inst = get_inst("NQ");
    let lux = 150;
    let ceiling = inst.per_trade_ceiling(lux, 0, 0);

    let mut bars = Vec::new();
    let mut px = 18000.0f64;
    let units = |x: f64| (x * POINT as f64).round() as i64;
    for t in 570..960 {
        px *= 1.0 + (rng.gen::<f64>() - 0.5) * 0.004;
        let hi = px * (1.0 + rng.gen::<f64>() * 0.002);
        let lo = px * (1.0 - rng.gen::<f64>() * 0.002);
        bars.push(Bar {
            high: units(hi),
            low: units(lo),
            close: units(px.clamp(lo, hi)),
            volume: 1,
            time_mins: t,
            date_id: 0,
        });
    }
    let days = one_day(&bars);
    let cache = DayCache::build(&bars, &days, &inst, vec![5, 30, 60]);
    let mut made = 0;
    for &w in &[5, 30, 60] {
        for dirn in ["long", "short", "both"] {
            let mut p = params(EntryMode::WickBreak, ExitMode::LuxTargets);
            p.window = w;
            p.direction = dirn;
            p.lux_tper = lux;
            for t in backtest(&bars, &days, &inst, &cache, &p, &[0], &[None], (0, 1)) {
                made += 1;
                assert!(
                    t.pnl_1ct <= ceiling,
                    "trade of {} exceeds the {ceiling} ceiling (w={w}, {dirn})",
                    t.pnl_1ct
                );
            }
        }
    }
    println!("{made} trades");
}

/// A day that breaks out and runs to its target.
fn breakout_day() -> (Vec<Bar>, Vec<DayMeta>) {
    let mut bars = Vec::new();
    for t in 570..600 {
        bars.push(b(t, 5000, 4990, 4995));
    }
    for t in 600..960 {
        bars.push(b(t, 5020, 4996, 5015));
    }
    let days = one_day(&bars);
    (bars, days)
}

#[test]
fn a_breakout_is_paid_at_its_target_less_costs() {
    let (bars, days) = breakout_day();
    let inst = get_inst("NQ");
    let cache = DayCache::build(&bars, &days, &inst, vec![30]);
    let mut p = params(EntryMode::WickBreak, ExitMode::FixedRR);
    p.cost_1ct = 24_500_000;
    let trades = backtest(&bars, &days, &inst, &cache, &p, &[0], &[None], (0, 1));
    // Ten points at $20, less $24.50.
    assert_eq!(trades.len(), 1);
    assert_eq!(trades[0].pnl_1ct, 175_500_000);
    // A third of the range for a target pays a third of it.
    p.rr = 33;
    let trades = backtest(&bars, &days, &inst, &cache, &p, &[0], &[None], (0, 1));
    assert_eq!(trades[0].pnl_1ct, 66_000_000 - 24_500_000);
}

#[test]
fn filters_keep_unmeasured_days_out() {
    let (bars, days) = breakout_day();
    let inst = get_inst("NQ");
    let mut cache = DayCache::build(&bars, &days, &inst, vec![30]);
    let n = |cache: &DayCache, p: &BacktestParams, regime: u8, hurst: Option<i64>| {
        backtest(&bars, &days, &inst, cache, p, &[regime], &[hurst], (0, 1)).len()
    };
    let mut p = params(EntryMode::WickBreak, ExitMode::FixedRR);
    p.h_min = Some(480_000_000_000);
    assert_eq!(n(&cache, &p, 0, None), 0);
    assert_eq!(n(&cache, &p, 0, Some(479_999_999_999)), 0);
    assert_eq!(n(&cache, &p, 0, Some(480_000_000_000)), 1);
    p.h_min = None;
    p.e_max = Some(1_000_000_000_000);
    assert_eq!(n(&cache, &p, 0, None), 0);
    let wi = cache.window_index(30);
    cache.set_entropy(wi, 0, Some(1_000_000_000_000));
    assert_eq!(n(&cache, &p, 0, None), 1);
    p.e_max = None;
    p.vol_regime_filter = "calm";
    assert_eq!(n(&cache, &p, 0, None), 0);
    assert_eq!(n(&cache, &p, 1, None), 1);
    p.vol_regime_filter = "all";
    p.year_range = Some((2020, 2023));
    assert_eq!(n(&cache, &p, 1, None), 0);
}

#[test]
fn windows_are_cached_once_each() {
    let (bars, days) = breakout_day();
    let inst = get_inst("NQ");
    let cache = DayCache::build(&bars, &days, &inst, vec![60, 30, 60, 5]);
    assert_eq!(cache.windows, vec![5, 30, 60]);
    assert_eq!(cache.find_window(45), None);
    let row = cache.get(cache.window_index(30), 0);
    assert_eq!(row.range, Some((5000 * POINT, 4990 * POINT)));
    assert_eq!(row.post, Some(30));
    assert_eq!(range_closes(&bars, &days[0], &inst, 5), vec![4995 * POINT; 5]);
}

#[test]
fn trades_group_by_day() {
    let t = |day: usize, pnl: i64| RawTrade { pnl_1ct: pnl, risk_1ct: 1, dir: 0, day_idx: day };
    let groups = group_trades_by_day(&[t(4, 1), t(2, 2), t(4, 3), t(9, 4)]);
    let seen: Vec<(usize, Vec<i64>)> =
        groups.iter().map(|g| (g[0].day_idx, g.iter().map(|x| x.pnl_1ct).collect())).collect();
    assert_eq!(seen, vec![(2, vec![2]), (4, vec![1, 3]), (9, vec![4])]);
}

/// A break on the session's last bar is closed at once, and for no more than
/// its target.
#[test]
fn a_break_on_the_last_bar_is_paid_no_more_than_its_target() {
    let inst = get_inst("NQ");
    let p = params(EntryMode::WickBreak, ExitMode::FixedRR);
    let pnl = |close: i64| {
        let mut bars: Vec<Bar> = (570..600).map(|t| b(t, 5000, 4990, 4995)).collect();
        bars.extend((600..959).map(|t| b(t, 4999, 4991, 4995)));
        bars.push(b(959, 5100, 4996, close));
        let days = one_day(&bars);
        let cache = DayCache::build(&bars, &days, &inst, vec![30]);
        let trades = backtest(&bars, &days, &inst, &cache, &p, &[0], &[None], (0, 1));
        assert_eq!(trades.len(), 1);
        trades[0].pnl_1ct
    };
    // Entered at 5000 for a target of 5010, at $20 a point.
    assert_eq!(pnl(5100), 200_000_000);
    assert_eq!(pnl(5004), 80_000_000);
    assert_eq!(pnl(4998), -40_000_000);
}
