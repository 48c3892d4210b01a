use orb_vol::num::Ratio;
use orb_vol::types::{
    all_apex, all_variants, apex_accounts, calc_cts, find_inst, get_inst, parse_variants, rg_name,
    topstep_accounts, try_parse_variants, Account, BiasMode, EntryMode, ExitMode, Firm,
    N_RISK_GEOS,
};

const DOLLAR: i64 = 1_000_000;

fn named(list: &[Account], key: &str) -> Account {
    list.iter().find(|x| x.key == key).unwrap().clone()
}

#[test]
fn per_trade_ceiling_matches_hand_arithmetic() {
    // NQ: 200 ticks * 0.25 = 50.00 points; 1.5x target at $20/pt = $1,500;
    // round turn = 2 * 0.25 * 20 * 2 + 4.50 = $24.50.
    let nq = get_inst("NQ");
    assert_eq!(nq.max_or_points(), 500_000);
    assert_eq!(nq.round_turn_cost(2, 4_500_000), 24_500_000);
    assert_eq!(nq.per_trade_ceiling(150, 2, 4_500_000), 1_475_500_000);

    // GC: 200 ticks * 0.10 = 20.00 points; 1.5x at $100/pt = $3,000;
    // round turn = 2 * 0.10 * 100 * 2 + 4.50 = $44.50.
    let gc = get_inst("GC");
    assert_eq!(gc.per_trade_ceiling(150, 2, 4_500_000), 2_955_500_000);

    // ES
    let es = get_inst("ES");
    assert_eq!(es.per_trade_ceiling(150, 2, 4_500_000), 3_695_500_000);
}

#[test]
fn only_known_instruments_are_found() {
    for sym in ["ES", "NQ", "GC"] {
        let i = find_inst(sym).unwrap();
        assert_eq!((i.open_mins, i.close_mins), (570, 960));
    }
    assert!(find_inst("CL").is_none());
    assert!(find_inst("").is_none());
}

#[test]
fn calc_cts_respects_phase_cap() {
    for rg in 0..N_RISK_GEOS {
        for &max_c in &[1, 4, 12] {
            let c = calc_cts(
                rg,
                5000 * DOLLAR as i128,
                5000 * DOLLAR as i128,
                2500 * DOLLAR,
                max_c,
                3,
                30,
                3000 * DOLLAR,
                0,
                Ratio { num: 9, den: 10 },
                Ratio { num: 9, den: 10 },
                100_000,
                20,
            );
            assert!(c >= 1 && c <= max_c, "rg={rg} max_c={max_c} gave {c}");
        }
    }
}

#[test]
fn calc_cts_fixed_one_is_always_one() {
    for eq in [-2000i128, 0, 9000] {
        assert_eq!(
            calc_cts(
                0,
                eq * DOLLAR as i128,
                9000 * DOLLAR as i128,
                2500 * DOLLAR,
                12,
                1,
                30,
                3000 * DOLLAR,
                0,
                Ratio { num: 9, den: 10 },
                Ratio { num: 1, den: 10 },
                50_000,
                50,
            ),
            1
        );
    }
}

#[test]
fn a_drawdown_fraction_buys_what_the_room_allows() {
    // Full room of $2,500, 40% of it, at $200 a contract: five contracts.
    let c = calc_cts(
        2,
        0,
        0,
        2500 * DOLLAR,
        12,
        1,
        30,
        3000 * DOLLAR,
        0,
        Ratio { num: 1, den: 2 },
        Ratio { num: 1, den: 2 },
        100_000,
        20,
    );
    assert_eq!(c, 5);
}

#[test]
fn parse_variants_rejects_typos() {
    assert_eq!(parse_variants("all").len(), 8);
    assert_eq!(parse_variants("wick/nobias/fixedrr").len(), 1);
    assert!(try_parse_variants("wick/nobais/fixedrr").is_err());
}

#[test]
fn every_variant_parses_back_from_its_words() {
    for v in all_variants() {
        let text = format!(" {}/{}/{} ", v.0.as_str(), v.1.as_str(), v.2.as_str());
        assert_eq!(parse_variants(&text.to_uppercase()), vec![v]);
    }
    assert_eq!(
        all_variants()[0],
        (EntryMode::WickBreak, BiasMode::NoBias, ExitMode::FixedRR)
    );
}

/// The published account terms, pinned so an edit cannot drift from them
/// silently.
#[test]
fn apex_terms_match_published_rules() {
    let a = apex_accounts();
    assert_eq!(a.len(), 6);
    for ax in &a {
        // Profit target is 6% of the starting balance.
        assert_eq!(ax.target * 100, ax.sb * 6, "{} target {}", ax.key, ax.target);
        // Safety net is balance + drawdown + $100.
        assert_eq!(ax.sn, ax.sb + ax.dd + 100 * DOLLAR, "{} safety net {}", ax.key, ax.sn);
        // 4.0: five qualifying days, 50% consistency, six payouts, $85/month.
        assert_eq!(ax.qdays, 5, "{}", ax.key);
        assert_eq!(ax.cons.num * 2, ax.cons.den, "{}", ax.key);
        assert_eq!(ax.ladder.len(), 6, "{}", ax.key);
        assert_eq!(ax.pamo, 85 * DOLLAR, "{}", ax.key);
        // No consistency rule during the evaluation.
        assert!(!ax.eval_consistency, "{} must not gate the evaluation on consistency", ax.key);
        // 30 calendar days, which is about 21 sessions -- not 30 sessions.
        assert_eq!(ax.eval_calendar_days, 30, "{}", ax.key);
        assert_eq!(ax.eval_trading_days(), Some(21), "{}", ax.key);
        // 100% of the first $25,000 per account, 90% after.
        assert_eq!(ax.split_full_up_to, 25_000 * DOLLAR, "{}", ax.key);
        assert_eq!(ax.split_after.num * 10, ax.split_after.den * 9, "{}", ax.key);
        // Half contracts until the safety net.
        assert!(ax.pa_start < ax.pa_max, "{}", ax.key);
    }
    assert_eq!(named(&a, "eod50").sn, 52_600 * DOLLAR);
    assert_eq!(named(&a, "eod100").sn, 103_100 * DOLLAR);
    assert_eq!(named(&a, "eod150").sn, 155_100 * DOLLAR);
    assert_eq!(named(&a, "it50").eval_cts, 6);
    assert_eq!(named(&a, "it100").eval_cts, 8);
    assert_eq!(named(&a, "it150").eval_cts, 12);
    // Intraday-trailing products carry no daily loss limit; EOD ones do.
    assert!(a.iter().filter(|x| !x.is_eod).all(|x| x.dll == 0));
    assert!(a.iter().filter(|x| x.is_eod).all(|x| x.dll > 0));
}

#[test]
fn topstep_terms_match_published_rules() {
    let t = topstep_accounts();
    assert_eq!(t.len(), 3);
    // Same profit targets as Apex, different maximum loss limits.
    for (k, sb, target, mll, cts) in [
        ("ts50", 50_000, 3_000, 2_000, 5),
        ("ts100", 100_000, 6_000, 3_000, 10),
        ("ts150", 150_000, 9_000, 4_500, 15),
    ] {
        let a = named(&t, k);
        assert_eq!(a.sb, sb * DOLLAR);
        assert_eq!(a.target, target * DOLLAR);
        assert_eq!(a.dd, mll * DOLLAR, "{k} maximum loss limit");
        assert_eq!(a.eval_cts, cts, "{k} position limit in minis");
        // The daily loss limit is an optional add-on and breaching it is not
        // a rule violation, so it is modelled as absent.
        assert_eq!(a.dll, 0, "{k}");
        // 90/10 from the first dollar.
        assert_eq!(a.split_full_up_to, 0, "{k}");
        assert_eq!(a.split_after.num * 10, a.split_after.den * 9, "{k}");
        // The combine is untimed while the subscription is paid.
        assert_eq!(a.eval_trading_days(), None, "{k}");
        // No monthly fee on the funded account; the cost is the combine.
        assert_eq!(a.pamo, 0, "{k}");
        assert_eq!(a.act, 149 * DOLLAR, "{k}");
    }
    assert_eq!(named(&t, "ts50").fee, 49 * DOLLAR);
    assert_eq!(named(&t, "ts100").fee, 99 * DOLLAR);
    assert_eq!(named(&t, "ts150").fee, 199 * DOLLAR);
}

/// Apex's evaluation runs 30 calendar days. Treating that as 30 trading days
/// hands the simulator about 40% more sessions than the product allows.
#[test]
fn calendar_days_convert_to_fewer_trading_days() {
    let ax = apex_accounts()[0].clone();
    let sessions = ax.eval_trading_days().unwrap();
    assert_eq!(sessions, 21);
    assert!(
        (30 - sessions) as f64 / sessions as f64 > 0.4,
        "30 trading days against {sessions} sessions is too generous"
    );
}

#[test]
fn profit_split_applies_beyond_the_full_share() {
    let apex = apex_accounts()[0].clone();
    assert_eq!(apex.trader_share(10_000 * DOLLAR), 10_000 * DOLLAR, "under the threshold, all of it");
    assert_eq!(apex.trader_share(25_000 * DOLLAR), 25_000 * DOLLAR);
    // $35k gross -> $25k + 90% of the next $10k.
    assert_eq!(apex.trader_share(35_000 * DOLLAR), 34_000 * DOLLAR);

    let ts = topstep_accounts()[0].clone();
    assert_eq!(ts.trader_share(10_000 * DOLLAR), 9_000 * DOLLAR, "Topstep splits from dollar one");
}

#[test]
fn firm_selector_parses_and_rejects() {
    assert_eq!(Firm::parse("apex").accounts().len(), 6);
    assert_eq!(Firm::parse("Topstep").accounts().len(), 3);
    assert!(Firm::try_parse("ftmo").is_none());
    assert_eq!(Firm::try_parse(" APEX ").map(|f| f.as_str()), Some("apex"));
}

#[test]
fn apex_commission_is_wired_not_dead() {
    // Every account must carry a usable commission; the engine reads it
    // rather than hard-coding a constant.
    for a in all_apex() {
        assert!(a.comm > 0, "{} has no commission", a.key);
        assert!(a.act > 0 && a.pamo > 0, "{} missing funded-phase costs", a.key);
    }
}

#[test]
fn geometries_have_distinct_names() {
    let names: std::collections::HashSet<&str> = (0..N_RISK_GEOS).map(rg_name).collect();
    assert_eq!(names.len(), N_RISK_GEOS);
}

#[test]
fn a_written_list_parses_back() {
    let all = all_variants();
    let text = |v: &(EntryMode, BiasMode, ExitMode)| {
        format!("{}/{}/{}", v.0.as_str(), v.1.as_str(), v.2.as_str())
    };
    for n in 1..=all.len() {
        let written: Vec<String> = all[..n].iter().map(text).collect();
        assert_eq!(parse_variants(&written.join(",")), all[..n].to_vec());
    }
}
