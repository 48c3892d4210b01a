use orb_vol::mc::{
    config_seed, draw_days, mc_challenge, mc_funded, ChallengeResult, FundedDist, McConfig,
    McConfigError,
};
use orb_vol::num::Ratio;
use orb_vol::types::{all_apex, Account, RawTrade};
use rand::rngs::StdRng;
use rand::SeedableRng;

const DOLLAR: i64 = 1_000_000;

fn cfg() -> McConfig {
    McConfig {
        n_challenge_sims: 400,
        n_funded_sims: 200,
        eval_max_days: 30,
        funded_max_days: 120,
        block_days: 5,
        dll_is_breach: true,
    }
}

fn acct(key: &str) -> Account {
    all_apex().into_iter().find(|a| a.key == key).unwrap()
}

fn trade(dollars: i64, day: usize) -> RawTrade {
    RawTrade { pnl_1ct: dollars * DOLLAR, risk_1ct: 100_000, dir: 0, day_idx: day }
}

fn days_of(dollars: i64, n: usize) -> Vec<Vec<RawTrade>> {
    (0..n).map(|d| vec![trade(dollars, d)]).collect()
}

fn half() -> Ratio {
    Ratio { num: 1, den: 2 }
}

fn challenge(
    d: &[Vec<RawTrade>],
    ax: &Account,
    rg: usize,
    c: &McConfig,
    kill: Option<i64>,
    seed: u64,
) -> ChallengeResult {
    mc_challenge(d, ax, rg, c, 20, half(), half(), kill, seed)
}

fn funded(d: &[Vec<RawTrade>], ax: &Account, rg: usize, seed: u64) -> FundedDist {
    mc_funded(d, ax, rg, &cfg(), 20, half(), half(), None, seed)
}

fn rate(r: Ratio) -> f64 {
    r.num as f64 / r.den as f64
}

#[test]
fn block_days_zero_is_rejected_not_hung() {
    let mut c = cfg();
    c.block_days = 0;
    assert!(c.validate().is_err());
}

#[test]
fn every_unusable_setting_is_named() {
    assert_eq!(cfg().validate(), Ok(()));
    let fault = |f: fn(&mut McConfig)| {
        let mut c = cfg();
        f(&mut c);
        c.validate()
    };
    assert_eq!(fault(|c| c.block_days = 0), Err(McConfigError::BlockDays));
    assert_eq!(fault(|c| c.eval_max_days = 0), Err(McConfigError::EvalMaxDays));
    assert_eq!(fault(|c| c.funded_max_days = 0), Err(McConfigError::FundedMaxDays));
    assert_eq!(fault(|c| c.n_challenge_sims = 0), Err(McConfigError::ChallengeSims));
}

#[test]
fn draw_days_terminates_and_fills() {
    let mut rng = StdRng::seed_from_u64(1);
    for block in [1usize, 5, 7] {
        for want in [1usize, 30, 120] {
            let v = draw_days(&mut rng, 9, block, want);
            assert_eq!(v.len(), want);
            assert!(v.iter().all(|&i| i < 9));
        }
    }
}

#[test]
fn blocks_run_on_past_the_last_day() {
    let mut rng = StdRng::seed_from_u64(77);
    let v = draw_days(&mut rng, 5, 4, 40);
    for b in v.chunks(4) {
        for w in b.windows(2) {
            assert_eq!(w[1], (w[0] + 1) % 5);
        }
    }
    // Ten blocks do not all start on one day.
    assert!(v.chunks(4).any(|b| b[0] != v[0]));
}

/// An intraday-trailing account that breaches its drawdown must be recorded
/// as blown, including when the breach comes from a tail-capped loss.
#[test]
fn intraday_drawdown_breach_is_detected() {
    let ax = acct("it50"); // is_eod = false, dd = 2500, no daily loss limit
    // One trade a day, each losing more than the whole drawdown allowance.
    let losers = days_of(-4000, 8);
    let r = challenge(&losers, &ax, 0, &cfg(), None, 7);
    assert_eq!(r.pass_rate.num, 0, "an account losing 4000 a day cannot pass a 2500 drawdown");

    // Now with the tail cap active and set below the drawdown: the capped
    // loss still accumulates and must still be able to blow the account.
    let r2 = challenge(&losers, &ax, 0, &cfg(), Some(900 * DOLLAR), 7);
    assert_eq!(r2.pass_rate.num, 0, "tail-capped losses must not bypass the drawdown check");
}

/// With the daily loss limit treated as a breach, a strategy that trips it
/// every day cannot pass; treated as a cap, it survives to trade again.
#[test]
fn daily_loss_limit_as_breach_is_stricter_than_as_cap() {
    let ax = acct("eod50"); // dll = 1000, dd = 2500, target = 3000
    let mut sequence = days_of(-1200, 6); // trips the 1000 limit every day
    sequence.push(vec![trade(4000, 6)]);

    let mut breach = cfg();
    breach.dll_is_breach = true;
    let mut cap = cfg();
    cap.dll_is_breach = false;

    let pr_breach = rate(challenge(&sequence, &ax, 0, &breach, None, 3).pass_rate);
    let pr_cap = rate(challenge(&sequence, &ax, 0, &cap, None, 3).pass_rate);
    assert!(
        pr_breach <= pr_cap,
        "treating the daily limit as a breach cannot be more permissive: {pr_breach} vs {pr_cap}"
    );
}

/// A longer evaluation window cannot lower the pass rate: the same paths are
/// still available, plus later ones.
#[test]
fn longer_evaluation_window_never_lowers_pass_rate() {
    let ax = acct("eod50");
    // Small positive drift: needs many days to reach a 3000 target.
    let grind = days_of(120, 40);
    let mut short = cfg();
    short.eval_max_days = 20;
    let mut long = cfg();
    long.eval_max_days = 60;
    let pr_short = rate(challenge(&grind, &ax, 0, &short, None, 5).pass_rate);
    let pr_long = rate(challenge(&grind, &ax, 0, &long, None, 5).pass_rate);
    assert!(pr_long >= pr_short, "60-day window {pr_long} below 20-day {pr_short}");
    assert!(pr_long > 0.0, "a steady grinder must eventually pass a longer evaluation");
}

/// $120 a day reaches $3,000 on day 25, on every path.
#[test]
fn a_steady_grinder_passes_on_the_day_the_target_is_reached() {
    let ax = acct("eod50");
    let grind = days_of(120, 40);
    let r = challenge(&grind, &ax, 0, &cfg(), None, 5);
    assert_eq!(r.pass_rate.num, 400);
    assert_eq!(r.pass_rate.den, 400);
    assert_eq!(r.avg_days_to_pass.num, 25 * r.avg_days_to_pass.den);
}

#[test]
fn same_seed_reproduces_exactly() {
    let ax = acct("it150");
    let d = days_of(250, 12);
    let a = challenge(&d, &ax, 2, &cfg(), None, 42);
    let b = challenge(&d, &ax, 2, &cfg(), None, 42);
    assert_eq!(a.pass_rate, b.pass_rate);
    assert_eq!(a.avg_days_to_pass, b.avg_days_to_pass);
    let f1 = funded(&d, &ax, 2, 42);
    let f2 = funded(&d, &ax, 2, 42);
    assert_eq!(f1.mean_ext, f2.mean_ext);
    assert_eq!(f1.blowup_rate, f2.blowup_rate);
}

/// Days that differ make the result depend on which of them are drawn.
#[test]
fn another_seed_draws_other_paths() {
    let ax = acct("it50");
    let d: Vec<Vec<RawTrade>> =
        (0..40).map(|i| vec![trade(if i % 3 == 0 { -700 } else { 450 }, i)]).collect();
    let rates: Vec<i64> =
        (0..8).map(|s| challenge(&d, &ax, 0, &cfg(), None, s).pass_rate.num).collect();
    assert!(rates.iter().any(|&r| r != rates[0]), "{rates:?}");
}

/// Configurations differing in a single field must get different bootstrap
/// draws.
#[test]
fn seed_distinguishes_every_config_axis() {
    let base = 42u64;
    let mut seen = std::collections::HashSet::new();
    for inst in ["ES", "NQ"] {
        for variant in ["wick/nobias/fixedrr", "close/daily/luxtgt"] {
            for fmode in ["none", "hurst", "both"] {
                for regime in ["all", "calm", "crisis"] {
                    for lux in [500i64, 1000, 1500] {
                        let s = config_seed(
                            base,
                            &[inst, variant, fmode, regime],
                            &[lux, 1000, 500, 0],
                            &[30, 2024, 0, 3],
                        );
                        assert!(
                            seen.insert(s),
                            "seed collision on {inst}/{variant}/{fmode}/{regime}/{lux}"
                        );
                    }
                }
            }
        }
    }
    assert_eq!(seen.len(), 2 * 2 * 3 * 3 * 3);
}

#[test]
fn funded_reports_holding_period_for_the_fee_model() {
    let ax = acct("it150");
    let d = days_of(400, 20);
    let f = funded(&d, &ax, 0, 9);
    let held = rate(f.mean_days_held);
    assert!(held > 0.0);
    assert!(rate(f.months_held()) >= 1.0);
    assert!(
        held <= cfg().funded_max_days as f64,
        "held {} days beyond the {} day horizon",
        held,
        cfg().funded_max_days
    );
}

#[test]
fn a_losing_strategy_extracts_nothing_and_blows_up() {
    let ax = acct("it50");
    let d = days_of(-300, 15);
    let f = funded(&d, &ax, 0, 4);
    assert_eq!(f.mean_ext, 0);
    let blown = rate(f.blowup_rate);
    assert!(blown > 0.9, "blowup rate {blown} too low for a pure loser");
}

#[test]
fn a_winning_account_is_paid_within_its_ladder() {
    let ax = acct("it150");
    let f = funded(&days_of(400, 20), &ax, 0, 9);
    let most: i64 = ax.ladder.iter().sum();
    assert!(f.mean_ext > 0 && f.mean_ext <= most, "{}", f.mean_ext);
    assert_eq!(f.blowup_rate.num, 0);
    assert_eq!(f.p_ext_zero.num, 0);
}

#[test]
fn nothing_to_simulate_is_nothing() {
    let ax = acct("it150");
    let none: Vec<Vec<RawTrade>> = Vec::new();
    assert_eq!(challenge(&none, &ax, 0, &cfg(), None, 1).pass_rate, Ratio { num: 0, den: 1 });
    let f = funded(&none, &ax, 0, 1);
    assert_eq!(f.mean_ext, 0);
    assert_eq!(rate(f.months_held()), 1.0);
}

/// An account without a daily loss limit is simulated alike either way.
#[test]
fn without_a_limit_breach_and_cap_pass_alike() {
    let mut ax = acct("eod50");
    ax.dll = 0;
    let mut sequence = days_of(-1200, 3);
    sequence.extend(days_of(1500, 5));
    let mut cap = cfg();
    cap.dll_is_breach = false;
    for seed in [1, 2, 3] {
        let a = challenge(&sequence, &ax, 0, &cfg(), None, seed).pass_rate;
        let b = challenge(&sequence, &ax, 0, &cap, None, seed).pass_rate;
        assert_eq!(a, b);
    }
}

/// Integers that lie close together, numbers a few hundredths apart, texts of the
/// same length and other bases never share a seed.
#[test]
fn nearby_configurations_have_different_seeds() {
    let mut seen = std::collections::HashSet::new();
    let seed = |base: u64, text: &str, nums: &[i64], ints: &[i64]| {
        config_seed(base, &["ES", text], nums, ints)
    };
    for window in [5i64, 15, 30, 45, 60] {
        for year in 2010i64..2030 {
            for rg in 0i64..7 {
                for phase in [1i64, 2] {
                    assert!(seen.insert(seed(42, "long", &[1000, 500], &[window, year, rg, phase])));
                }
            }
        }
    }
    seen.clear();
    for lux in (500i64..=1500).step_by(250) {
        for rr in [330i64, 500, 1000] {
            for hmin in [0i64, 500, 550] {
                assert!(seen.insert(seed(42, "long", &[lux, rr, hmin, 0], &[30])));
            }
        }
    }
    let plain = seed(7, "both", &[1000], &[30]);
    assert_ne!(plain, seed(8, "both", &[1000], &[30]));
    assert_ne!(plain, seed(7, "long", &[1000], &[30]));
    assert_ne!(plain, seed(7, "none", &[1000], &[30]));
    assert_ne!(plain, seed(7, "both", &[-1000], &[30]));
}
