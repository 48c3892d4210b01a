use orb_vol::num::Fraction;
use orb_vol::stats::{mean_of, median, realized_stats, sorted_copy, sum_of};
use orb_vol::types::RawTrade;

/// A one-contract result in micro-dollars, from cents.
fn t(cents: i64, day: usize) -> RawTrade {
    RawTrade { pnl_1ct: cents * 10_000, risk_1ct: 100_000, dir: 0, day_idx: day }
}

fn dollars(f: Fraction) -> f64 {
    f.num as f64 / f.den as f64 / 1e6
}

/// One trade must not be scaled to a month's expectancy.
#[test]
fn one_trade_in_a_year_is_not_a_months_expectancy() {
    let s = realized_stats(&[t(147_550, 42)], 252);
    // 1475.50 over 252 trading days, scaled to 21 days.
    let expect = 1475.50 / 252.0 * 21.0;
    let monthly = dollars(s.monthly_ev_1ct);
    assert!((monthly - expect).abs() < 1e-9);
    assert!(monthly < 130.0, "a single trade produced a monthly expectancy of ${monthly:.0}");
    // Thirty times the average trade would have reported this:
    let legacy = dollars(s.avg_trade_pnl) * 30.0;
    assert!((legacy - 44_265.0).abs() < 1e-6, "legacy formula check: {legacy}");
    assert!(legacy / monthly > 300.0, "the two differ by orders of magnitude");
}

#[test]
fn expectancy_scales_with_activity_not_trade_size() {
    // Same total profit, same period: identical monthly expectancy whether
    // it came from 1 trade or 100.
    let few = realized_stats(&[t(100_000, 1)], 252);
    let many: Vec<RawTrade> = (0..100).map(|i| t(1_000, i)).collect();
    let many = realized_stats(&many, 252);
    assert_eq!(few.monthly_ev_1ct, many.monthly_ev_1ct);
    // But a strategy earning the same per trade, more often, is worth more.
    let busy: Vec<RawTrade> = (0..200).map(|i| t(1_000, i)).collect();
    assert!(dollars(realized_stats(&busy, 252).monthly_ev_1ct) > dollars(many.monthly_ev_1ct));
}

#[test]
fn profit_factor_is_undefined_rather_than_a_sentinel() {
    let all_wins = realized_stats(&[t(10_000, 0), t(5_000, 1)], 252);
    assert!(all_wins.profit_factor.is_none(), "no losses means no ratio, not 999");
    let mixed = realized_stats(&[t(10_000, 0), t(-5_000, 1)], 252);
    let pf = mixed.profit_factor.unwrap();
    assert_eq!(pf.num, 2 * pf.den);
}

#[test]
fn drawdown_and_extremes() {
    let s = realized_stats(&[t(10_000, 0), t(-3_000, 1), t(-4_000, 2), t(2_000, 3)], 252);
    assert_eq!(s.max_dd_1ct, 70_000_000);
    assert_eq!(s.best_trade, 100_000_000);
    assert_eq!(s.worst_trade, -40_000_000);
    assert_eq!(s.n_days_traded, 4);
    assert_eq!(s.win_rate.num * 2, s.win_rate.den);
}

#[test]
fn empty_input_is_zero_not_negative_infinity() {
    let s = realized_stats(&[], 252);
    assert_eq!(s.monthly_ev_1ct, Fraction { num: 0, den: 1 });
    assert_eq!(s.n_trades, 0);
    assert_eq!(s.worst_trade, 0);
}

#[test]
fn a_period_without_days_has_no_statistics() {
    let s = realized_stats(&[t(100, 0)], 0);
    assert_eq!(s.n_trades, 0);
    assert_eq!(s.period_days, 0);
}

#[test]
fn trades_of_one_day_count_as_one_day() {
    let s = realized_stats(&[t(100, 7), t(-50, 7), t(25, 3)], 10);
    assert_eq!(s.n_days_traded, 2);
    assert_eq!(s.total_pnl_1ct, 750_000);
}

#[test]
fn median_averages_the_middle_pair() {
    assert_eq!(median(&[1, 2, 3, 4]), Some(Fraction { num: 5, den: 2 }));
    assert_eq!(median(&[1, 2, 3]), Some(Fraction { num: 2, den: 1 }));
    assert_eq!(median(&[]), None);
}

#[test]
fn missing_values_are_left_out() {
    let v = [Some(3), None, Some(-1), Some(7), None];
    assert_eq!(sorted_copy(&v), vec![-1, 3, 7]);
    assert_eq!(mean_of(&v), Some(Fraction { num: 9, den: 3 }));
    assert_eq!(mean_of(&[None, None]), None);
    assert_eq!(sum_of(&vec![4, -9]), -5);
}
