use orb_vol::backtest::DayCache;
use orb_vol::data::Loader;
use orb_vol::data::RowPrices;
use orb_vol::engine::{filter_configs, grid_cells, grid_configs, vol_regimes, Cell};
use orb_vol::ev::{legacy_cost_error, EvParams};
use orb_vol::features::TailFit;
use orb_vol::mc::{McConfig, McConfigError};
use orb_vol::num::{Fraction, RATE};
use orb_vol::ranking::{aggregate, permutation_null, Gates, Weights};
use orb_vol::session::index_sessions;
use orb_vol::types::{
    apex_accounts, get_inst, parse_variants, topstep_accounts, Account, Bar, DayMeta, InstCfg,
};
use orb_vol::walk::{
    collect_outcomes, evaluate_cell, evaluate_cells, kill_for, plan_fold, variant_name,
    year_bounds, DailyPnlRow, FoldOutcome, FoldRecord, Market, RunConfig, RunConfigError,
};

/// Deterministic pseudo-random generator, so fixtures never shift.
struct Lcg(u64);

impl Lcg {
    fn next_f64(&mut self) -> f64 {
        self.0 = self.0.wrapping_mul(6_364_136_223_846_793_005).wrapping_add(1_442_695_040_888_963_407);
        ((self.0 >> 11) as f64) / ((1u64 << 53) as f64)
    }
    fn gauss(&mut self) -> f64 {
        // Irwin-Hall approximation; adequate for a price-path fixture.
        (0..6).map(|_| self.next_f64()).sum::<f64>() - 3.0
    }
}

struct Data {
    bars: Vec<Bar>,
    days: Vec<DayMeta>,
    inst: InstCfg,
    cache: DayCache,
    regimes: Vec<u8>,
    hurst: Vec<Option<i64>>,
}

/// Years of ten-minute bars around the clock, twenty days to a month. Overnight
/// bars are there on purpose: an engine that scans past the session close will
/// find them.
fn fixture(years: std::ops::RangeInclusive<i32>) -> Data {
    let mut rng = Lcg(0x5EED_1234);
    let mut px = 4200.0f64;
    let mut l = Loader::new();
    let units = |x: f64| (x * 100.0).round() as i64 * 100;
    for year in years {
        for month in 1..=12u32 {
            for day in 1..=20u32 {
                for slot in (0..1440).step_by(10) {
                    // Mild intraday drift so breakout folds have a real in-sample edge.
                    let drift = if (570..960).contains(&slot) { 0.00012 } else { -0.00004 };
                    px *= 1.0 + rng.gauss() * 0.0006 + drift;
                    let hi = px * (1.0 + rng.next_f64() * 0.0008);
                    let lo = px * (1.0 - rng.next_f64() * 0.0008);
                    let at = Some((slot, year as u32 * 10000 + month * 100 + day, year));
                    let row = RowPrices { high: units(hi), low: units(lo), close: units(px) };
                    l.add_bar(at, Some(row), 100);
                }
            }
        }
    }
    let (bars, mut days, _) = l.finish();
    let inst = get_inst("ES");
    index_sessions(&bars, &mut days, inst.open_mins, inst.close_mins);
    let windows = grid_configs().iter().map(|c| c.0).collect();
    let cache = DayCache::build(&bars, &days, &inst, windows);
    let n = days.len();
    Data { bars, days, inst, cache, regimes: vec![0; n], hurst: vec![None; n] }
}

impl Data {
    fn market(&self) -> Market<'_> {
        let cost = self.inst.round_turn_cost(2, 4_500_000);
        Market::new("ES", &self.bars, &self.days, self.inst, &self.cache, &self.regimes, &self.hurst, cost)
            .unwrap()
    }
}

fn config(seed: u64) -> RunConfig {
    RunConfig {
        outer_train_years: 3,
        inner_train_years: 2,
        shrinkage_cutoff: -99_000_000,
        mc: McConfig {
            n_challenge_sims: 200,
            n_funded_sims: 100,
            eval_max_days: 0,
            funded_max_days: 120,
            block_days: 5,
            dll_is_breach: true,
        },
        eval_untimed_cap: 120,
        mc_funded_min_pr: 20_000,
        ev: EvParams { payout_haircut: 1_000_000, parallel_accounts: 1 },
        split_risk_geo: true,
        rng_seed: seed,
    }
}

fn cells() -> Vec<Cell> {
    grid_cells(
        "ES",
        &parse_variants("wick/nobias/fixedrr"),
        &grid_configs(),
        &filter_configs(true),
        &vol_regimes(),
        &None,
    )
}

fn accounts() -> Vec<Account> {
    apex_accounts().into_iter().filter(|a| a.key == "it50" || a.key == "eod50").collect()
}

fn run(data: &Data, cfg: &RunConfig) -> Vec<Vec<FoldOutcome>> {
    assert_eq!(cfg.validate(), Ok(()));
    let m = data.market();
    let (lo, hi) = year_bounds(&data.days).unwrap();
    let cells = cells();
    assert!(cells.iter().all(|c| c.can_run_on(&m)));
    let rgs = vec![0, 3];
    evaluate_cells(&m, &cells, cfg, lo, hi, &accounts(), &rgs, &rgs, &|_: &TailFit| 0)
}

fn records(outcomes: &[Vec<FoldOutcome>]) -> Vec<&FoldRecord> {
    outcomes.iter().flatten().flat_map(|o| o.records.iter().flatten()).collect()
}

fn daily(outcomes: &[Vec<FoldOutcome>]) -> Vec<&DailyPnlRow> {
    outcomes.iter().flatten().flat_map(|o| o.daily.iter()).collect()
}

/// No day's profit may exceed what the rules physically allow.
#[test]
fn no_daily_pnl_exceeds_the_engine_ceiling() {
    let data = fixture(2015..=2020);
    let out = run(&data, &config(42));
    // At most two trades a day, each capped by the richest target the rules
    // allow.
    let ceiling = get_inst("ES").per_trade_ceiling(100, 2, 4_500_000) as i128 * 2;
    let rows = daily(&out);
    assert!(!rows.is_empty(), "no daily rows produced");
    for r in &rows {
        let n = r.n_trades_day;
        assert!((1..=2).contains(&n), "{n} trades in one day for a single-direction-pair config");
        assert!(
            r.daily_pnl_1ct <= ceiling,
            "daily profit {} exceeds the {ceiling} ceiling",
            r.daily_pnl_1ct
        );
        assert!((2018..=2020).contains(&(r.date_code / 10000)));
    }
}

/// Two runs with the same seed must produce identical output.
#[test]
fn runs_are_reproducible_from_the_seed() {
    let data = fixture(2015..=2019);
    let gates = Gates {
        e1_min_folds: 2,
        e2_min_worst_pass: RATE / 10,
        e3_max_blowup: RATE / 2,
        e4_min_p5_ext: 0,
        e5_min_positive_ev_folds: 1,
        e6_min_bear_ev: 0,
        bear_year: 2018,
    };
    let weights = Weights { realized: 500_000, mc: 500_000 };
    // Records, daily rows, ranking and permutation null.
    let text = |seed: u64| {
        let (folds, rows) = collect_outcomes(run(&data, &config(seed)));
        let ranked = aggregate(&folds, &weights, &gates);
        assert!(ranked.len() > 1, "there is something to rank");
        let null = permutation_null(&folds, &gates, seed, 2).map(|n| n.counts);
        (
            format!("{folds:?}"),
            format!("{rows:?}"),
            format!("{ranked:?}"),
            format!("{null:?}"),
        )
    };
    let (a, b) = (text(1234), text(1234));
    assert_eq!(a, b, "two identically seeded runs differ");
    assert!(a.0.len() > 200 && a.1.len() > 200 && a.2.len() > 200, "suspiciously small output");
    // A different seed must actually change the simulation.
    let c = text(9999);
    assert_ne!(a.0, c.0, "changing the seed changed nothing");
    assert_ne!(a.2, c.2, "changing the seed left the ranking as it was");
    assert_eq!(a.1, c.1, "the realised days do not depend on the seed");
}

/// The expected-value columns must reconcile with the cost model by hand, and
/// the error of the flat cost formula must match its closed form.
#[test]
fn expected_value_columns_reconcile_with_the_cost_model() {
    let data = fixture(2015..=2019);
    let out = run(&data, &config(42));
    let accounts = apex_accounts();
    let value = |f: Fraction| f.num as f64 / f.den as f64 / 1e12;
    let rows = records(&out);
    let mut checked = 0usize;
    for r in &rows {
        let ax = accounts.iter().find(|a| a.key == r.account).expect("known account");
        let pr = r.challenge.pass_rate.num as f64 / r.challenge.pass_rate.den as f64;
        let ext = r.funded.mean_ext as f64 / 1e6;
        let m = r.funded.months_held();
        let months = m.num as f64 / m.den as f64;
        // Extraction is gross account profit; the split decides what is paid.
        let net = ax.trader_share(r.funded.mean_ext) as f64 / 1e6;
        let (act, pamo, fee) = (ax.act as f64 / 1e6, ax.pamo as f64 / 1e6, ax.fee as f64 / 1e6);
        let ev = value(r.ev.ev_per_attempt);
        let expect_ev = pr * (net - (act + pamo * months)) - fee;
        assert!((ev - expect_ev).abs() < 0.05, "{} ev {ev} vs {expect_ev}", ax.key);
        let legacy = value(r.ev.legacy_ev);
        let expect_legacy = pr * ext - (fee + act + pamo * 2.0);
        assert!((legacy - expect_legacy).abs() < 0.05, "{} legacy {legacy} vs {expect_legacy}", ax.key);
        let closed_form = legacy_cost_error(ax, r.challenge.pass_rate, m);
        assert_eq!(r.ev.legacy_error, closed_form, "{} error vs closed form", ax.key);
        // A configuration that never passes costs exactly one evaluation fee.
        if r.ev.pass_rate.num == 0 {
            assert!((ev + fee).abs() < 0.05, "zero pass rate should cost exactly the fee, got {ev}");
        }
        checked += 1;
    }
    assert!(checked > 50, "only checked {checked} rows");
    assert!(rows.iter().any(|r| r.ev.pass_rate.num > 0));
}

/// Sweeping the two phases independently must produce mixed pairs, not only the
/// diagonal.
#[test]
fn risk_geometry_is_swept_per_phase() {
    let data = fixture(2015..=2019);
    let mut cfg = config(42);
    let out = run(&data, &cfg);
    let mixed = records(&out).iter().filter(|r| r.rg_eval != r.rg_funded).count();
    let diagonal = records(&out).iter().filter(|r| r.rg_eval == r.rg_funded).count();
    assert!(mixed > 0, "no mixed (eval, funded) geometry pairs were produced");
    assert!(diagonal > 0, "the diagonal pairs are missing");
    assert_eq!(mixed, diagonal);
    // Without the split only the diagonal is left.
    cfg.split_risk_geo = false;
    let out = run(&data, &cfg);
    assert_eq!(records(&out).iter().filter(|r| r.rg_eval != r.rg_funded).count(), 0);
    assert_eq!(records(&out).len(), diagonal);
}

#[test]
fn a_fold_is_planned_from_the_years_before_it() {
    let data = fixture(2015..=2018);
    let m = data.market();
    let c = cells()[0];
    let cfg = config(42);
    let fold = plan_fold(&m, &c, &cfg, 2018).unwrap();
    assert_eq!(fold.test_days, 240);
    assert!(fold.train.iter().all(|t| data.days[t.day_idx].year < 2018));
    assert!(fold.test.iter().all(|t| data.days[t.day_idx].year == 2018));
    assert_eq!(fold.realized.n_trades, fold.test.len());
    assert_eq!(fold.avg_hurst_used, None);
    let wins = fold.train.iter().filter(|t| t.pnl_1ct > 0).count();
    assert_eq!((fold.long_wr.num, fold.long_wr.den), (wins as i64, fold.train.len() as i64));
    // No short trades in a long configuration.
    assert_eq!((fold.short_wr.num, fold.short_wr.den), (1, 2));
    // There is no data for the year after.
    assert!(plan_fold(&m, &c, &cfg, 2019).is_none());
    // A cutoff that no fold survives.
    let mut strict = cfg;
    strict.shrinkage_cutoff = 1_000_000_000;
    assert!(plan_fold(&m, &c, &strict, 2018).is_none());
}

#[test]
fn one_cell_gives_one_outcome_a_year() {
    let data = fixture(2015..=2019);
    let m = data.market();
    let c = cells()[0];
    let rgs = vec![0];
    let out = evaluate_cell(&m, &c, &config(7), 2015, 2019, &accounts(), &rgs, &rgs, &|_: &TailFit| 0);
    let years: Vec<i32> = out.iter().map(|o| o.fold.test_year).collect();
    assert_eq!(years, vec![2018, 2019]);
    for o in &out {
        assert_eq!(o.records.len(), 2);
        assert!(o.records.iter().all(|r| r.len() == 1));
        let total: i128 = o.daily.iter().map(|d| d.daily_pnl_1ct).sum();
        assert_eq!(total, o.fold.realized.total_pnl_1ct);
    }
}

#[test]
fn unusable_settings_are_named() {
    let fault = |f: fn(&mut RunConfig)| {
        let mut c = config(1);
        f(&mut c);
        c.validate()
    };
    assert_eq!(fault(|_| {}), Ok(()));
    assert_eq!(
        fault(|c| c.mc.block_days = 0),
        Err(RunConfigError::Simulation(McConfigError::BlockDays))
    );
    assert_eq!(
        fault(|c| c.eval_untimed_cap = 0),
        Err(RunConfigError::Simulation(McConfigError::EvalMaxDays))
    );
    assert_eq!(fault(|c| c.inner_train_years = 3), Err(RunConfigError::InnerYears));
    assert_eq!(fault(|c| c.ev.payout_haircut = 1_000_001), Err(RunConfigError::Haircut));
    assert_eq!(fault(|c| c.mc.funded_max_days = i32::MAX as usize + 1), Err(RunConfigError::Limit));
}

#[test]
fn the_evaluation_runs_as_long_as_the_product_allows() {
    let mut c = config(1);
    assert_eq!(c.mc_for_account(&apex_accounts()[0]).eval_max_days, 21);
    assert_eq!(c.mc_for_account(&topstep_accounts()[0]).eval_max_days, 120);
    c.mc.eval_max_days = 40;
    assert_eq!(c.mc_for_account(&apex_accounts()[0]).eval_max_days, 40);
    assert_eq!(c.mc_for_account(&topstep_accounts()[0]).eval_max_days, 40);
}

#[test]
fn a_tail_limit_beyond_every_loss_limits_nothing_more() {
    assert_eq!(kill_for(&TailFit::Off, 5), None);
    assert_eq!(kill_for(&TailFit::At(7), 5), Some(7));
    assert_eq!(kill_for(&TailFit::Fit(7, vec![1]), 9), Some(9));
    assert_eq!(kill_for(&TailFit::Fit(7, vec![1]), i128::MAX), Some(100_000_000_000_000_000));
}

#[test]
fn data_that_does_not_fit_makes_no_market() {
    let data = fixture(2015..=2015);
    let short: Vec<u8> = vec![0; 3];
    let m = Market::new("ES", &data.bars, &data.days, data.inst, &data.cache, &short, &data.hurst, 0);
    assert!(m.is_none());
    let mut wide = data.bars.clone();
    wide[0].high = i64::MAX;
    let m = Market::new("ES", &wide, &data.days, data.inst, &data.cache, &data.regimes, &data.hurst, 0);
    assert!(m.is_none());
    let mut unknown = cells()[0];
    unknown.window = 7;
    assert!(!unknown.can_run_on(&data.market()));
}

#[test]
fn variants_are_named_by_their_words() {
    let v = parse_variants("close/daily/luxtgt")[0];
    assert_eq!(variant_name(v), "close/daily/luxtgt");
    assert_eq!(year_bounds(&Vec::new()), None);
}

/// What is collected is every record and row, cell by cell.
#[test]
fn outcomes_are_collected_in_order() {
    let data = fixture(2015..=2018);
    let out = run(&data, &config(42));
    let (folds, rows) = (format!("{:?}", records(&out)), format!("{:?}", daily(&out)));
    let (got, days) = collect_outcomes(out);
    assert_eq!(format!("{got:?}"), folds);
    assert_eq!(format!("{days:?}"), rows);
}

/// Settings far beyond the ordinary still run.
#[test]
fn large_settings_are_admitted() {
    let mut c = config(42);
    c.shrinkage_cutoff = i64::MAX;
    c.ev.parallel_accounts = 4_000_000_000;
    assert_eq!(c.validate(), Ok(()));
    // No edge survives such a cutoff.
    let data = fixture(2015..=2018);
    assert!(plan_fold(&data.market(), &cells()[0], &c, 2018).is_none());
    c.shrinkage_cutoff = i64::MIN;
    assert!(plan_fold(&data.market(), &cells()[0], &c, 2018).is_some());
}
