use orb_vol::engine::Cell;
use orb_vol::ev::EvBreakdown;
use orb_vol::mc::{ChallengeResult, FundedDist};
use orb_vol::num::{Fraction, Ratio};
use orb_vol::ranking::{
    aggregate, count_passers, group_key, is_noise, measure, outcome, permutation_null,
    shuffle_stratum, spread, strata_of, Aggregated, Gate, Gates, Measure, Outcome, Weights,
};
use orb_vol::stats::RealizedStats;
use orb_vol::types::{BiasMode, EntryMode, ExitMode};
use orb_vol::walk::FoldRecord;
use rand::rngs::StdRng;
use rand::{Rng, SeedableRng};

const DOLLAR: i64 = 1_000_000;
/// One dollar in the unit of expected values.
const FINE: i128 = 1_000_000_000_000;
/// One dollar in the unit of scores.
const FINEST: i128 = 1_000_000_000_000_000_000;
/// One percent in the unit of rates.
const PERCENT: i64 = 10_000_000_000_000_000;

fn ratio(num: i64, den: i64) -> Ratio {
    Ratio { num, den }
}

/// An expected value given in micro-dollars, over some denominator.
fn dollars(micro: i128) -> Fraction {
    Fraction { num: micro * 1_000_000 * 7, den: 7 }
}

/// A record with an expected value in dollars and a pass rate in millionths.
fn fold(cfg: usize, year: i32, ev: f64, pass: f64) -> FoldRecord {
    let ev = dollars((ev * 1e6).round() as i128);
    let pass_rate = ratio((pass * 1e6).round() as i64, 1_000_000);
    FoldRecord {
        instrument: "ES".to_string(),
        cell: Cell {
            variant: (EntryMode::WickBreak, BiasMode::NoBias, ExitMode::FixedRR),
            lux: 100,
            window: cfg as i32,
            rr: 100,
            dir: "long",
            fmode: "none",
            hmin: 0,
            emax: 0,
            regime: "all",
        },
        rg_eval: 0,
        rg_funded: 0,
        account: "it50".to_string(),
        test_year: year,
        total_period_days: 252,
        inner_train_ev: Fraction { num: 1_000_000, den: 1 },
        inner_val_ev: Fraction { num: 1_000_000, den: 1 },
        shrinkage_ratio: Some(Fraction { num: 1, den: 1 }),
        realized: RealizedStats {
            monthly_ev_1ct: Fraction { num: 10_000_000, den: 1 },
            total_pnl_1ct: 100_000_000,
            avg_trade_pnl: Fraction { num: 2_000_000, den: 1 },
            n_trades: 50,
            n_days_traded: 40,
            period_days: 252,
            win_rate: Fraction { num: 1, den: 2 },
            profit_factor: Some(Fraction { num: 11, den: 10 }),
            max_dd_1ct: 50_000_000,
            best_trade: 30_000_000,
            worst_trade: -30_000_000,
        },
        avg_hurst_used: None,
        challenge: ChallengeResult { pass_rate, avg_days_to_pass: ratio(12, 1) },
        funded: FundedDist {
            mean_ext: 5000 * DOLLAR,
            median_ext: 4000 * DOLLAR,
            p5_ext: 100 * DOLLAR,
            p_ext_zero: ratio(1, 10),
            p_ext_2500: ratio(1, 2),
            p_ext_10k: ratio(1, 5),
            p_ext_20k: ratio(0, 1),
            blowup_rate: ratio(1, 10),
            max_pa_dd_median: 500_000_000,
            max_pa_dd_p95: 900_000_000,
            mean_days_held: ratio(126, 1),
        },
        ev: EvBreakdown {
            pass_rate,
            gross_ext: 5000 * DOLLAR,
            net_ext: 0,
            months_held: ratio(6, 1),
            funded_costs: 0,
            eval_fee: 0,
            ev_per_attempt: ev,
            ev_per_funded: None,
            expected_attempts: None,
            legacy_ev: ev,
            legacy_error: dollars(0),
            n_parallel: 1,
            bankroll_at_risk: dollars(0),
            ev_total: ev.num / 7,
            p_total_zero: ratio(1, 10),
        },
    }
}

fn gates() -> Gates {
    Gates {
        e1_min_folds: 3,
        e2_min_worst_pass: 20 * PERCENT,
        e3_max_blowup: 50 * PERCENT,
        e4_min_p5_ext: 0,
        e5_min_positive_ev_folds: 3,
        e6_min_bear_ev: -100 * FINE,
        bear_year: 2022,
    }
}

fn weights() -> Weights {
    Weights { realized: 0, mc: 1_000_000 }
}

fn ready(folds: &Vec<FoldRecord>) -> f64 {
    aggregate(folds, &weights(), &gates()).iter().filter(|a| a.deploy_ready).count() as f64
}

fn null_mean(folds: &Vec<FoldRecord>) -> f64 {
    let null = permutation_null(folds, &gates(), 42, 4).expect("null computed");
    assert_eq!(null.counts.len(), 4);
    let (mean, _) = spread(&null.counts);
    mean.num as f64 / mean.den as f64
}

/// With outcomes that are pure noise, roughly as many configurations clear
/// the gates under the shuffled null as in the real data, which is the whole
/// point of reporting the null next to the observed count.
#[test]
fn permutation_null_matches_observed_when_there_is_no_signal() {
    let mut rng = StdRng::seed_from_u64(3);
    let mut folds = Vec::new();
    for cfg in 0..400 {
        for year in 2020..=2023 {
            folds.push(fold(cfg, year, rng.gen::<f64>() * 400.0 - 150.0, rng.gen::<f64>()));
        }
    }
    let observed = ready(&folds);
    let mean = null_mean(&folds);
    assert!(observed > 0.0, "fixture produced no passers to compare against");
    let ratio = observed / mean.max(1.0);
    assert!(
        (0.4..2.5).contains(&ratio),
        "noise-only data: {observed} observed vs {mean} under the null (ratio {ratio:.2})"
    );
}

/// When one configuration really is better, the observed count exceeds the
/// null: the comparison must not flag genuine signal as noise.
#[test]
fn permutation_null_falls_below_observed_when_signal_is_real() {
    let mut folds = Vec::new();
    for cfg in 0..200 {
        let good = cfg < 60;
        for year in 2020..=2023 {
            let (ev, pass) = if good { (300.0, 0.8) } else { (-200.0, 0.05) };
            folds.push(fold(cfg, year, ev, pass));
        }
    }
    let observed = ready(&folds);
    let mean = null_mean(&folds);
    assert!(observed >= 55.0, "expected the 60 good configs to pass, got {observed}");
    assert!(mean < observed * 0.6, "null {mean} should sit well below observed {observed}");
}

/// The shuffles are those that the seeded generator draws: in each test year and
/// account product, one pick a position from the last down to the second.
#[test]
fn the_null_shuffles_as_the_seed_says() {
    let mut folds = Vec::new();
    for cfg in 0..40 {
        for year in 2020..=2023 {
            let good = (cfg * 7 + year as usize) % 3 != 0;
            folds.push(fold(cfg, year, if good { 80.0 } else { -200.0 }, 0.5));
        }
    }
    let null = permutation_null(&folds, &gates(), 77, 3).unwrap();
    let outcomes: Vec<Outcome> = folds.iter().map(|f| outcome(f, 2022)).collect();
    let mut rng = StdRng::seed_from_u64(77 ^ 0x5045_524D);
    for p in 0..3 {
        let mut moved = outcomes.clone();
        for idx in strata_of(&folds) {
            for k in (1..idx.len()).rev() {
                let j = rng.gen_range(0..=k);
                moved.swap(idx[k], idx[j]);
            }
        }
        let expect = count_passers(&null.group_of, &moved, null.groups.len(), &gates());
        assert_eq!(null.counts[p], expect);
        assert_ne!(moved, outcomes);
    }
    // The same seed gives the same counts, and leaving all in place the observed one.
    assert_eq!(permutation_null(&folds, &gates(), 77, 3).unwrap().counts, null.counts);
    let observed = count_passers(&null.group_of, &outcomes, null.groups.len(), &gates());
    assert_eq!(observed as f64, ready(&folds));
}

#[test]
fn a_pass_rate_of_a_third_is_held_to_eighteen_places() {
    let mut folds = passing();
    folds[0].ev.pass_rate = ratio(1, 3);
    let mut g = gates();
    g.e2_min_worst_pass = 333_333_333_333_333_333;
    assert!(only(&folds, &g).deploy_ready);
    g.e2_min_worst_pass = 333_333_333_333_333_334;
    assert_eq!(only(&folds, &g).reasons, vec![Gate::WorstPass]);
}

#[test]
fn there_is_no_null_without_folds_or_shuffles() {
    let folds = vec![fold(1, 2022, 10.0, 0.5)];
    assert!(permutation_null(&folds, &gates(), 1, 0).is_none());
    assert!(permutation_null(&Vec::new(), &gates(), 1, 3).is_none());
    let null = permutation_null(&folds, &gates(), 1, 2).unwrap();
    assert_eq!(null.counts, vec![0, 0]);
    assert_eq!(null.group_of, vec![0]);
}

/// Four folds of one configuration, bear year and all.
fn passing() -> Vec<FoldRecord> {
    (2020..=2023).map(|y| fold(7, y, 50.0, 0.5)).collect()
}

fn only(folds: &Vec<FoldRecord>, g: &Gates) -> Aggregated {
    let mut a = aggregate(folds, &weights(), g);
    assert_eq!(a.len(), 1);
    a.remove(0)
}

#[test]
fn a_configuration_is_summarised_over_its_folds() {
    let mut folds = passing();
    folds[0].ev.ev_per_attempt = dollars(10_000_000);
    folds[1].ev.pass_rate = ratio(3, 10);
    let a = only(&folds, &gates());
    assert!(a.deploy_ready && a.reasons.is_empty());
    assert_eq!(a.members, vec![0, 1, 2, 3]);
    let s = a.summary;
    assert_eq!(s.folds, 4);
    assert_eq!(s.avg_ev_per_attempt, Fraction { num: 160 * FINE, den: 4 });
    assert_eq!(s.median_ev_per_attempt, Fraction { num: 100 * FINE, den: 2 });
    assert_eq!(s.worst_ev_per_attempt, 10 * FINE);
    assert_eq!(s.positive_ev_folds, 4);
    assert_eq!(s.bear_ev, Some(Fraction { num: 50 * FINE, den: 1 }));
    assert_eq!(s.avg_pass, Fraction { num: 180 * PERCENT as i128, den: 4 });
    assert_eq!(s.worst_pass, 30 * PERCENT as i128);
    assert_eq!(s.avg_blowup, Fraction { num: 40 * PERCENT as i128, den: 4 });
    assert_eq!(s.avg_p5_ext, Fraction { num: 400_000_000, den: 4 });
    assert_eq!(s.avg_months_held, Fraction { num: 24_000_000_000_000, den: 4 });
    assert_eq!(s.avg_n_trades, Fraction { num: 200, den: 4 });
    // 40 of 252 days, in millionths of a percent.
    assert_eq!(s.avg_coverage, Fraction { num: 4 * 15_873_016, den: 4 });
    // A weight of one on a mean of $40.
    assert_eq!(s.combined_score, 40 * FINEST);
}

#[test]
fn each_gate_blocks_on_its_own() {
    let blocked = |change: fn(&mut Vec<FoldRecord>, &mut Gates)| {
        let (mut folds, mut g) = (passing(), gates());
        change(&mut folds, &mut g);
        only(&folds, &g).reasons
    };
    assert!(blocked(|_, _| {}).is_empty());
    assert_eq!(blocked(|_, g| g.e1_min_folds = 5), vec![Gate::Folds]);
    assert_eq!(blocked(|f, _| f[0].ev.pass_rate = ratio(199_999, 1_000_000)), vec![Gate::WorstPass]);
    assert_eq!(blocked(|_, g| g.e3_max_blowup = 10 * PERCENT - 1), vec![Gate::Blowup]);
    assert_eq!(blocked(|_, g| g.e4_min_p5_ext = 100 * DOLLAR + 1), vec![Gate::TailExtraction]);
    assert_eq!(
        blocked(|f, _| {
            f[0].ev.ev_per_attempt = dollars(0);
            f[1].ev.ev_per_attempt = dollars(-1);
        }),
        vec![Gate::PositiveFolds]
    );
    assert_eq!(blocked(|f, _| f[2].ev.ev_per_attempt = dollars(-101_000_000)), vec![Gate::BearYear]);
    assert_eq!(blocked(|_, g| g.bear_year = 2008), vec![Gate::NoBearYear]);
    // Thresholds are met by equality.
    assert!(blocked(|f, g| {
        f[0].ev.pass_rate = ratio(1, 5);
        g.e3_max_blowup = 10 * PERCENT;
        g.e4_min_p5_ext = 100 * DOLLAR;
        f[2].ev.ev_per_attempt = dollars(-100_000_000);
    })
    .is_empty());
}

#[test]
fn the_ranking_puts_deployable_and_richer_first() {
    let mut folds = Vec::new();
    for year in 2020..=2023 {
        folds.push(fold(3, year, 900.0, 0.1)); // rich, but rarely passes
        folds.push(fold(5, year, 20.0, 0.5));
        folds.push(fold(4, year, 30.0, 0.5));
        folds.push(fold(2, year, 20.0, 0.5)); // ties with 5 but for the key
    }
    let got: Vec<(i32, bool)> = aggregate(&folds, &weights(), &gates())
        .iter()
        .map(|a| (a.cell.window, a.deploy_ready))
        .collect();
    assert_eq!(got, vec![(4, true), (2, true), (5, true), (3, false)]);
    // With weight on the realised expectancy, a steadier signal can win.
    for f in folds.iter_mut().filter(|f| f.cell.window == 2) {
        f.realized.monthly_ev_1ct = Fraction { num: 50_000_000, den: 1 };
    }
    let w = Weights { realized: 1_000_000, mc: 1_000_000 };
    assert_eq!(aggregate(&folds, &w, &gates())[0].cell.window, 2);
}

#[test]
fn keys_tell_configurations_apart() {
    let mut r = fold(30, 2022, 1.0, 0.5);
    r.cell.hmin = 48;
    r.rg_funded = 3;
    assert_eq!(
        group_key(&r),
        "ES|wick/nobias/fixedrr|30|1.00|long|1.00|none|0.480|0.000|all|fixed_1|cppi|it50"
    );
    // Another year is the same configuration, another account is not.
    let mut other = fold(30, 2021, 5.0, 0.5);
    other.cell.hmin = 48;
    other.rg_funded = 3;
    assert_eq!(group_key(&r), group_key(&other));
    other.account = "it100".to_string();
    assert_ne!(group_key(&r), group_key(&other));
}

#[test]
fn passers_are_counted_by_group() {
    let o = |ev: i128, bear: bool| Outcome { ev, pass: 50 * PERCENT, blowup: 0, p5: 0, is_bear: bear };
    let outcomes = vec![o(1, false), o(1, true), o(1, false), o(-1, true), o(1, false), o(1, false)];
    // The second group has one fold in the red, the third has none at all.
    let group_of = vec![0, 0, 0, 1, 1, 1];
    assert_eq!(count_passers(&group_of, &outcomes, 3, &gates()), 1);
    let mut lax = gates();
    lax.e5_min_positive_ev_folds = 2;
    assert_eq!(count_passers(&group_of, &outcomes, 3, &lax), 2);
    assert_eq!(count_passers(&Vec::new(), &Vec::new(), 2, &lax), 0);
}

#[test]
fn a_shuffle_moves_only_its_stratum() {
    let mut source: Vec<usize> = (0..8).collect();
    let idx = vec![1, 3, 6, 7];
    shuffle_stratum(&mut source, &idx, &vec![0, 0, 2, 1]);
    // The last trades with the second, the third stays, the second with the first.
    assert_eq!(source, vec![0, 7, 2, 1, 4, 5, 6, 3]);
}

#[test]
fn strata_are_years_and_accounts() {
    let mut folds = vec![fold(1, 2021, 0.0, 0.1), fold(2, 2020, 0.0, 0.1), fold(3, 2021, 0.0, 0.1)];
    folds[2].account = "eod50".to_string();
    folds.push(fold(4, 2021, 0.0, 0.1));
    assert_eq!(strata_of(&folds), vec![vec![1], vec![2], vec![0, 3]]);
}

#[test]
fn measures_and_outcomes_read_the_record() {
    let r = fold(1, 2022, 12.5, 0.25);
    assert_eq!(measure(&r, Measure::Ev), 12_500_000_000_000);
    assert_eq!(measure(&r, Measure::Pass), 25 * PERCENT as i128);
    assert_eq!(measure(&r, Measure::Blowup), 10 * PERCENT as i128);
    assert_eq!(measure(&r, Measure::MeanExt), 5_000_000_000);
    assert_eq!(measure(&r, Measure::Realized), 10_000_000_000_000);
    assert_eq!(measure(&r, Measure::LegacyError), 0);
    let o = outcome(&r, 2022);
    assert!(o.is_bear && !outcome(&r, 2021).is_bear);
    assert_eq!((o.pass, o.blowup, o.p5), (25 * PERCENT, 10 * PERCENT, 100_000_000));
}

#[test]
fn counts_have_a_mean_and_a_spread() {
    let (mean, var) = spread(&vec![2, 4, 4, 6]);
    assert_eq!((mean.num, mean.den), (16, 4));
    assert_eq!(var, Some(Fraction { num: 32, den: 16 }));
    assert_eq!(spread(&vec![3]).1, None);
    assert!(is_noise(6, &mean));
    assert!(!is_noise(7, &mean));
}
