use orb_vol::ev::{evaluate, legacy_cost_error, legacy_error_crossover, EvParams};
use orb_vol::num::{Fraction, Ratio};
use orb_vol::types::{all_apex, apex_accounts, topstep_accounts, Account};

const DOLLAR: i64 = 1_000_000;
/// One dollar in the unit of a funded account's amounts and of expected values.
const FINE: i128 = 1_000_000_000_000;

fn acct(key: &str) -> Account {
    all_apex().into_iter().find(|a| a.key == key).unwrap()
}

fn ppm(x: f64) -> i64 {
    (x * 1e6).round() as i64
}

fn rate(x: f64) -> Ratio {
    Ratio { num: ppm(x), den: 1_000_000 }
}

fn months(n: i64) -> Ratio {
    Ratio { num: n, den: 1 }
}

/// Whether a fraction is a whole number.
fn is(f: Fraction, whole: i128) -> bool {
    f.num == whole * f.den
}

fn zero(percent: i64) -> Ratio {
    Ratio { num: percent, den: 100 }
}

/// The correction must equal the closed-form error exactly, at every pass
/// rate and on every account product.
#[test]
fn legacy_error_matches_closed_form() {
    let p = EvParams::default();
    for ax in all_apex() {
        for &pr in &[0.0, 0.05, 0.25, 0.4228, 0.4417, 0.6, 0.9, 1.0] {
            for m in [1, 2, 6] {
                let b = evaluate(&ax, rate(pr), 8000 * DOLLAR, zero(30), months(m), &p);
                let expect = legacy_cost_error(&ax, rate(pr), months(m));
                assert_eq!(b.legacy_error, expect, "{} pr={pr} M={m}", ax.key);
            }
        }
    }
}

/// The evaluation fee cancels, so all six products collapse onto two curves.
#[test]
fn evaluation_fee_cancels_from_the_error() {
    let m = months(6);
    let eod: Vec<Fraction> = ["eod50", "eod100", "eod150"]
        .iter()
        .map(|k| legacy_cost_error(&acct(k), rate(0.25), m))
        .collect();
    let it: Vec<Fraction> = ["it50", "it100", "it150"]
        .iter()
        .map(|k| legacy_cost_error(&acct(k), rate(0.25), m))
        .collect();
    assert!(eod.windows(2).all(|w| w[0] == w[1]), "{eod:?}");
    assert!(it.windows(2).all(|w| w[0] == w[1]), "{it:?}");
    assert!((eod[0].num - it[0].num).abs() > FINE * eod[0].den, "EOD and IT should differ by their activation fee");
}

/// The published numbers.
#[test]
fn crossover_and_endpoints_are_as_reported() {
    let m = months(6);
    let eod = acct("eod50");
    let it = acct("it50");
    let at = |ax: &Account| {
        let f = legacy_error_crossover(ax, m);
        f.num as f64 / f.den as f64
    };
    assert!((at(&eod) - 0.4417).abs() < 5e-4);
    assert!((at(&it) - 0.4228).abs() < 5e-4);
    assert!(is(legacy_cost_error(&eod, rate(0.0), m), -269 * FINE));
    assert!(is(legacy_cost_error(&it, rate(0.0), m), -249 * FINE));
    assert!(is(legacy_cost_error(&eod, rate(1.0), m), 340 * FINE));
    assert!(is(legacy_cost_error(&it, rate(1.0), m), 340 * FINE));
    // Sign really does change inside the observed 5.4%-64.2% band.
    assert!(legacy_cost_error(&eod, rate(0.054), m).num < 0);
    assert!(legacy_cost_error(&eod, rate(0.642), m).num > 0);
}

/// A configuration that never passes is worth exactly minus the fee: no
/// activation or platform fees are incurred on an account never funded.
#[test]
fn a_failing_config_costs_exactly_one_fee() {
    let ax = acct("eod150");
    let b = evaluate(&ax, rate(0.0), 0, zero(100), months(6), &EvParams::default());
    assert!(is(b.ev_per_attempt, -(ax.fee as i128) * 1_000_000), "got {:?}", b.ev_per_attempt);
    assert!(b.ev_per_funded.is_none());
    assert!(b.expected_attempts.is_none());
}

#[test]
fn ev_per_funded_accounts_for_failed_attempts() {
    let ax = acct("it100");
    let b = evaluate(&ax, rate(0.25), 9000 * DOLLAR, zero(20), months(6), &EvParams::default());
    // Four attempts expected per funded account.
    let attempts = b.expected_attempts.unwrap();
    assert_eq!(attempts.num, 4 * attempts.den);
    // In millionths of a micro-dollar.
    let expect = (9000 * DOLLAR - (ax.act + ax.pamo * 6) - ax.fee * 4) as i128 * 1_000_000;
    let per_funded = b.ev_per_funded.unwrap();
    assert_eq!(per_funded.num, expect * per_funded.den);
    // And the per-attempt figure is consistent with it.
    assert!(is(Fraction { num: 4 * b.ev_per_attempt.num, ..b.ev_per_attempt }, expect));
}

#[test]
fn payout_haircut_reduces_value_but_not_cost() {
    let ax = acct("eod100");
    let full = evaluate(&ax, rate(0.5), 10_000 * DOLLAR, zero(20), months(6), &EvParams::default());
    let cut = evaluate(
        &ax,
        rate(0.5),
        10_000 * DOLLAR,
        zero(20),
        months(6),
        &EvParams { payout_haircut: ppm(0.8), parallel_accounts: 1 },
    );
    assert_eq!(cut.net_ext, 8000 * FINE);
    let lost = full.ev_per_attempt.num - cut.ev_per_attempt.num;
    assert_eq!(lost, 1000 * FINE * full.ev_per_attempt.den);
    assert_eq!(full.funded_costs, cut.funded_costs);
}

#[test]
fn a_haircut_is_held_between_nothing_and_everything() {
    let ax = acct("eod100");
    let with = |h: i64| {
        let p = EvParams { payout_haircut: h, parallel_accounts: 1 };
        evaluate(&ax, rate(0.5), 10_000 * DOLLAR, zero(20), months(6), &p).net_ext
    };
    assert_eq!(with(-5), 0);
    assert_eq!(with(2_000_000), 10_000 * FINE);
}

/// Running the same configuration on several accounts multiplies value and
/// outlay, and does not reduce the chance of extracting nothing.
#[test]
fn parallel_accounts_do_not_diversify() {
    let ax = acct("it50");
    let one = evaluate(&ax, rate(0.4), 6000 * DOLLAR, zero(35), months(6), &EvParams::default());
    let twenty = evaluate(
        &ax,
        rate(0.4),
        6000 * DOLLAR,
        zero(35),
        months(6),
        &EvParams { payout_haircut: ppm(1.0), parallel_accounts: 20 },
    );
    assert!(is(
        Fraction { num: 20 * one.ev_per_attempt.num, ..one.ev_per_attempt },
        twenty.ev_total
    ));
    assert_eq!(twenty.bankroll_at_risk.num, 20 * one.bankroll_at_risk.num);
    assert_eq!(
        twenty.p_total_zero, one.p_total_zero,
        "accounts sharing one price path share one outcome; risk of zero must not fall"
    );
}

#[test]
fn longer_holding_period_costs_more() {
    let ax = acct("eod50");
    let short = evaluate(&ax, rate(0.5), 9000 * DOLLAR, zero(20), months(2), &EvParams::default());
    let long = evaluate(&ax, rate(0.5), 9000 * DOLLAR, zero(20), months(6), &EvParams::default());
    assert!(long.funded_costs > short.funded_costs);
    assert!(long.ev_per_attempt.num < short.ev_per_attempt.num);
    assert_eq!(long.funded_costs - short.funded_costs, 4 * ax.pamo as i128 * 1_000_000);
}

#[test]
fn less_than_a_month_is_charged_as_a_month() {
    let ax = acct("eod50");
    let fifth = Ratio { num: 1, den: 5 };
    let b = evaluate(&ax, rate(0.5), 0, zero(20), fifth, &EvParams::default());
    assert_eq!(b.months_held, Ratio { num: 5, den: 5 });
    assert_eq!(b.funded_costs, (ax.act + ax.pamo) as i128 * 1_000_000);
}

/// What is valued is the trader's share after the profit split.
#[test]
fn the_split_decides_what_is_paid() {
    let p = EvParams::default();
    let apex = &apex_accounts()[0];
    let b = evaluate(apex, rate(0.5), 35_000 * DOLLAR, zero(20), months(6), &p);
    assert_eq!(apex.trader_share(35_000 * DOLLAR), 34_000 * DOLLAR);
    assert_eq!(b.net_ext, 34_000 * FINE);
    assert_eq!(b.gross_ext, 35_000 * DOLLAR);
    let b = evaluate(apex, rate(0.5), 25_000 * DOLLAR, zero(20), months(6), &p);
    assert_eq!(b.net_ext, 25_000 * FINE);
    // Topstep splits from the first dollar.
    let ts = &topstep_accounts()[0];
    let b = evaluate(ts, rate(0.5), 10_000 * DOLLAR, zero(20), months(6), &p);
    assert_eq!(b.net_ext, 9_000 * FINE);
}

/// A rate that no decimal holds enters as it is.
#[test]
fn a_third_is_a_third() {
    let ax = acct("it50");
    let third = Ratio { num: 1, den: 3 };
    let p = EvParams { payout_haircut: 1_000_000, parallel_accounts: 2 };
    let b = evaluate(&ax, third, 9000 * DOLLAR, zero(20), Ratio { num: 7, den: 3 }, &p);
    let fees = (ax.pamo as i128 * 7_000_000 * 2 + 3) / 6;
    let costs = ax.act as i128 * 1_000_000 + fees;
    assert_eq!(b.funded_costs, costs);
    let fee = ax.fee as i128 * 1_000_000;
    assert_eq!(b.ev_per_attempt, Fraction { num: 9000 * FINE - costs - 3 * fee, den: 3 });
    assert_eq!(b.expected_attempts, Some(Fraction { num: 3, den: 1 }));
    assert!((3 * b.ev_total - 2 * b.ev_per_attempt.num).abs() <= 1);
}
