use orb_vol::features::{
    classify_all_regimes, compute_vol_features, entropy_counts, entropy_pairs, evt_tail,
    hurst_window, lagged_features, precompute_daily_closes, precompute_hurst_prev, proxy_window,
    return_pairs, rv_pairs, session_closes, TailFit, VolFeatures, HURST_WIN, REGIME_LOOKBACK,
    REGIME_UNKNOWN,
};
use orb_vol::types::{get_inst, Bar, DayMeta};
use rand::rngs::StdRng;
use rand::{Rng, SeedableRng};

/// A measure in trillionths.
fn scaled(x: f64) -> i64 {
    (x * 1e12).round() as i64
}

fn feats(rv: f64, atr14: f64, vix_proxy: f64) -> VolFeatures {
    VolFeatures { rv: scaled(rv), atr14: scaled(atr14), vix_proxy: scaled(vix_proxy) }
}

fn ramp_feats(n: usize) -> Vec<VolFeatures> {
    // Volatility rising smoothly then falling, so every quintile is populated.
    (0..n)
        .map(|i| {
            let phase = (i as f64) * 0.017;
            let v = 0.10 + 0.08 * phase.sin() + 0.00002 * i as f64;
            feats(v, v * 12.0, v * 0.9)
        })
        .collect()
}

fn assert_balanced(regimes: &[u8]) {
    let mut counts = [0usize; 6];
    for &r in regimes {
        counts[r as usize] += 1;
    }
    let classified: usize = counts[1..].iter().sum();
    assert!(classified > 1500, "expected most days classified, got {classified}");
    for (r, &c) in counts.iter().enumerate().skip(1) {
        let share = c as f64 / classified as f64;
        assert!(
            (0.13..0.28).contains(&share),
            "regime {r} holds {:.1}% of days; quintiles should be near 20% (counts {counts:?})",
            share * 100.0
        );
    }
}

/// Strongly correlated indicators, as the three real measures are: one
/// common volatility factor plus a little idiosyncratic noise each.
#[test]
fn regime_quintiles_are_balanced_when_indicators_agree() {
    let mut rng = StdRng::seed_from_u64(5);
    let f: Vec<VolFeatures> = (0..3000)
        .map(|_| {
            let common = rng.gen::<f64>();
            let jitter = |r: &mut StdRng| (r.gen::<f64>() - 0.5) * 0.06;
            let rv = 0.05 + common * 0.20 + jitter(&mut rng) * 0.2;
            let atr = 12.0 * (0.05 + common * 0.20) + jitter(&mut rng);
            let vp = 0.9 * (0.05 + common * 0.20) + jitter(&mut rng) * 0.2;
            feats(rv, atr, vp)
        })
        .collect();
    assert_balanced(&classify_all_regimes(&f));
}

/// Independent indicators: the case a fixed cut on the mean of three ranks
/// gets wrong, because that mean concentrates around 0.5.
#[test]
fn regime_quintiles_are_balanced_when_indicators_are_independent() {
    let mut rng = StdRng::seed_from_u64(21);
    let f: Vec<VolFeatures> = (0..3000)
        .map(|_| {
            let rv = 0.05 + rng.gen::<f64>() * 0.2;
            let atr = 1.0 + rng.gen::<f64>() * 20.0;
            let vp = 0.05 + rng.gen::<f64>() * 0.3;
            feats(rv, atr, vp)
        })
        .collect();
    assert_balanced(&classify_all_regimes(&f));
}

#[test]
fn regime_needs_two_lookback_windows() {
    let r = classify_all_regimes(&ramp_feats(800));
    assert!(r[..2 * REGIME_LOOKBACK].iter().all(|&x| x == REGIME_UNKNOWN));
    assert!(r[2 * REGIME_LOOKBACK..].iter().any(|&x| x != REGIME_UNKNOWN));
}

#[test]
fn a_regime_does_not_see_the_days_after_it() {
    let long = ramp_feats(800);
    let short = classify_all_regimes(&long[..700]);
    assert_eq!(classify_all_regimes(&long)[..700], short[..]);
}

#[test]
fn hurst_prev_uses_no_sentinel() {
    let closes: Vec<i64> = (0..300).map(|i| 1_000_000 + i * 1_000).collect();
    assert!(
        (0..HURST_WIN).all(|d| hurst_window(&closes, d).is_none()),
        "early days have no estimate"
    );
    assert!((HURST_WIN..300).any(|d| hurst_window(&closes, d).is_some()));
    let hp = precompute_hurst_prev(&closes, &|w: &Vec<i64>| Some(w[w.len() - 1]));
    assert_eq!(hp.len(), 300);
    assert!(hp[..HURST_WIN].iter().all(|h| h.is_none()), "no sentinel before the first estimate");
    assert_eq!(hp[HURST_WIN], Some(closes[HURST_WIN - 1]));
    assert_eq!(hp[299], Some(closes[298]));
    // Only closes strictly before the day.
    let w = hurst_window(&closes, HURST_WIN).unwrap();
    assert_eq!(w, closes[..HURST_WIN].to_vec());
}

#[test]
fn hurst_is_nan_when_it_cannot_be_estimated() {
    assert!(hurst_window(&[], 0).is_none());
    // A hundred days of which too few traded.
    let mut closes = vec![0i64; 100];
    for c in closes.iter_mut().take(19) {
        *c = 1_000_000;
    }
    assert!(hurst_window(&closes, 100).is_none());
    closes[50] = 1_000_000;
    assert_eq!(hurst_window(&closes, 100).unwrap().len(), 20);
}

#[test]
fn returns_are_taken_of_positive_pairs_only() {
    assert_eq!(return_pairs(&[5, 0, 7, 8, -1, 3, 4]), vec![(7, 8), (3, 4)]);
    assert!(return_pairs(&[5]).is_empty());
}

#[test]
fn volatility_samples_need_enough_returns() {
    assert_eq!(rv_pairs(&[1, 2, 3, 4, 5, 6]), None);
    assert_eq!(rv_pairs(&[1, 2, 3, 4, 5, 6, 7]).unwrap().len(), 6);
    let mut closes: Vec<i64> = (0..40).map(|i| 100 + i).collect();
    closes[20] = 0;
    assert!(proxy_window(&closes, 29).is_none());
    let w = proxy_window(&closes, 30).unwrap();
    assert_eq!(w.len(), 30);
    assert_eq!(w[0], Some((100, 101)));
    assert_eq!(w[29], Some((129, 130)));
    assert_eq!((w[19], w[20]), (None, None));
}

fn entropy(data: &[i64]) -> Option<f64> {
    entropy_counts(&data.to_vec()).map(|(b, a)| (b as f64 / a as f64).ln())
}

#[test]
fn entropy_is_nan_on_degenerate_input() {
    assert!(entropy(&[]).is_none());
    assert!(entropy(&[10_000; 20]).is_none(), "zero-variance input has no entropy");
}

#[test]
fn entropy_orders_regular_below_random() {
    let mut rng = StdRng::seed_from_u64(11);
    let whole = scaled;
    let periodic: Vec<i64> = (0..120).map(|i| whole(((i as f64) * 0.5).sin())).collect();
    let noise: Vec<i64> = (0..120).map(|_| whole(rng.gen::<f64>() - 0.5)).collect();
    let ep = entropy(&periodic).unwrap();
    let en = entropy(&noise).unwrap();
    assert!(ep < en, "periodic entropy {ep:.3} should be below noise entropy {en:.3}");
}

/// Two values alternating: every template of either length matches those an even
/// number of places away, over the same positions.
#[test]
fn an_alternating_sample_has_no_entropy_to_speak_of() {
    let data: Vec<i64> = (0..12).map(|i| if i % 2 == 0 { 100_000 } else { 200_000 }).collect();
    let (b, a) = entropy_counts(&data).unwrap();
    assert_eq!((b, a), (20, 20));
}

/// The tolerance is a fifth of the standard deviation, the bound taken in.
#[test]
fn the_entropy_tolerance_is_exact() {
    // Deviation 5,000, so values 1,000 apart are just near enough.
    let at_the_bound: Vec<i64> =
        [2, 0, 14, 13, 12, 11, 3, 10, 11, 14].iter().map(|x| x * 1_000).collect();
    assert_eq!(entropy_counts(&at_the_bound), Some((2, 1)));
    let steps = |d: i64| vec![0, 0, 0, 0, d, d, d, d];
    assert_eq!(entropy_counts(&steps(1_000)), Some((4, 2)));
    // Below a deviation of 500 there is nothing to measure.
    assert_eq!(entropy_counts(&steps(999)), None);
}

#[test]
fn an_entropy_sample_needs_enough_returns() {
    assert_eq!(entropy_pairs(&[5, 6, 7, 8]), None);
    assert_eq!(entropy_pairs(&[5, 6, 0, 7, 8]), None);
    assert_eq!(entropy_pairs(&[5, 6, 7, 8, 9]), Some(vec![(5, 6), (6, 7), (7, 8), (8, 9)]));
}

fn exponential_losses() -> Vec<i128> {
    let mut rng = StdRng::seed_from_u64(3);
    (0..400).map(|_| (-(1.0 - rng.gen::<f64>()).ln() * 100.0 * 1e6).round() as i128).collect()
}

#[test]
fn evt_threshold_exceeds_the_body_of_the_loss_distribution() {
    let losses = exponential_losses();
    let mut s = losses.clone();
    s.sort_unstable();
    let p90 = s[(s.len() as f64 * 0.9) as usize];
    let tail = evt_tail(&losses);
    match &tail {
        TailFit::Fit(u, exc) => {
            assert_eq!(*u, p90);
            assert_eq!(exc.len(), s.iter().filter(|&&x| x > p90).count());
            assert_eq!(exc[0], s[361] - p90);
        }
        other => panic!("{other:?}"),
    }
    // Whatever a fit comes to, the limit is not below the percentile.
    assert_eq!(tail.threshold(0), Some(p90), "tail threshold below the 90th percentile {p90}");
    assert_eq!(tail.threshold(2 * p90), Some(2 * p90));
}

#[test]
fn evt_threshold_disabled_when_undersampled() {
    let tail = evt_tail(&vec![1_000_000, 2_000_000, 3_000_000]);
    // No limit, whatever the quantile.
    assert_eq!(tail.threshold(0), None);
    assert_eq!(tail.threshold(500_000_000), None);
}

#[test]
fn a_tail_without_spread_needs_no_fit() {
    // Too few losses beyond the percentile: the largest loss.
    let mut few: Vec<i128> = vec![5; 30];
    few[29] = 9;
    assert_eq!(evt_tail(&few).threshold(1_000), Some(9));
    // Enough of them, but all alike: the percentile itself.
    let mut alike: Vec<i128> = vec![5; 100];
    for x in alike.iter_mut().skip(92) {
        *x = 8;
    }
    assert_eq!(evt_tail(&alike).threshold(1_000), Some(5));
}

fn bar(t: i32, high: i64, low: i64, close: i64) -> Bar {
    Bar { high, low, close, volume: 1, time_mins: t, date_id: 0 }
}

fn whole_day(i: usize, n: usize) -> DayMeta {
    DayMeta { year: 2024, date_code: 20240101, start: i, end: i + n, sess_start: i, sess_end: i + n }
}

#[test]
fn daily_closes_are_the_last_in_session() {
    let inst = get_inst("ES");
    let bars = vec![bar(570, 20, 10, 15), bar(959, 30, 5, 25), bar(1000, 90, 80, 85)];
    let days = vec![whole_day(0, 3), whole_day(3, 0)];
    assert_eq!(precompute_daily_closes(&bars, &days, &inst), vec![25, 0]);
    assert_eq!(session_closes(&bars, &days[0], &inst), vec![15, 25]);
}

#[test]
fn features_are_lagged_by_a_day() {
    let inst = get_inst("ES");
    let n = 20usize;
    let bars: Vec<Bar> = (0..n).map(|_| bar(600, 110, 100, 105)).collect();
    let days: Vec<DayMeta> = (0..n).map(|i| whole_day(i, 1)).collect();
    let rv: Vec<i64> = (0..n as i64).collect();
    let vp: Vec<i64> = (0..n as i64).map(|i| 100 + i).collect();
    let f = lagged_features(&bars, &days, &inst, &rv, &vp);
    assert_eq!(f[0], VolFeatures::default());
    assert_eq!(f[5].rv, 4);
    assert_eq!(f[5].vix_proxy, 104);
    // Fourteen true ranges of 10 are known from the fifteenth day on.
    assert_eq!(f[13].atr14, 0);
    assert_eq!(f[14].atr14, 140);
    assert_eq!(f[19].atr14, 140);
}

/// Sessions of eight bars whose closes drift, with the volatilities measured on
/// their samples.
fn measured_features(bars: &[Bar], days: &[DayMeta]) -> Vec<VolFeatures> {
    let rv = |p: &Vec<(i64, i64)>| {
        let sq: f64 = p.iter().map(|&(a, b)| (b as f64 / a as f64).ln().powi(2)).sum();
        scaled(sq.sqrt() * 252.0_f64.sqrt())
    };
    let vp = |w: &Vec<Option<(i64, i64)>>| {
        let r: Vec<f64> = w
            .iter()
            .map(|p| p.map_or(0.0, |(a, b)| (b as f64 / a as f64).ln()))
            .collect();
        let mean = r.iter().sum::<f64>() / r.len() as f64;
        let var = r.iter().map(|x| (x - mean).powi(2)).sum::<f64>() / r.len() as f64;
        scaled(var.sqrt() * 252.0_f64.sqrt())
    };
    compute_vol_features(bars, days, &get_inst("ES"), &rv, &vp)
}

#[test]
fn volatility_features_see_only_complete_days() {
    let n = 40usize;
    let closes = |i: usize| 10_000 + ((i * 37) % 101) as i64;
    let mut bars: Vec<Bar> =
        (0..8 * n).map(|i| bar(600 + (i % 8) as i32, 10_200, 9_900, closes(i))).collect();
    let days: Vec<DayMeta> = (0..n).map(|d| whole_day(8 * d, 8)).collect();
    let a = measured_features(&bars, &days);
    assert_eq!(a.len(), n);
    assert_eq!(a[0], VolFeatures::default());
    assert!(a[1].rv > 0 && a[30].vix_proxy == 0 && a[31].vix_proxy > 0);
    // Another day 35 changes nothing up to it, and what follows.
    for b in bars.iter_mut().skip(8 * 35).take(8) {
        b.high += 500;
        b.close += (b.time_mins % 3) as i64 * 50;
    }
    let b = measured_features(&bars, &days);
    assert_eq!(a[..=35], b[..=35]);
    assert_ne!(a[36].rv, b[36].rv);
    assert_ne!(a[36].atr14, b[36].atr14);
}
