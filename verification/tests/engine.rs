use orb_vol::engine::{
    filter_configs, fmt_key, grid_cells, grid_configs, instrument_list, selected_accounts,
    selected_risk_geos, shared_commission, swept_geometries, try_selected_risk_geos, vol_regimes,
    whitelist_columns, whitelist_row, Cell, RiskGeoError, Whitelist, WhitelistRow,
};
use orb_vol::types::{all_apex, all_variants, parse_variants, topstep_accounts, N_RISK_GEOS};

#[test]
fn risk_geo_selection_parses_and_rejects() {
    assert_eq!(selected_risk_geos("all").len(), N_RISK_GEOS);
    assert_eq!(selected_risk_geos("fixed_1,cppi"), vec![0, 3]);
    assert!(try_selected_risk_geos("nope").is_err());
}

#[test]
fn risk_geo_lists_are_sorted_and_distinct() {
    assert_eq!(selected_risk_geos(" cppi, fixed_1,,cppi "), vec![0, 3]);
    assert_eq!(selected_risk_geos(" ALL "), vec![0, 1, 2, 3, 4, 5, 6]);
    match try_selected_risk_geos("fixed_1, Cppi") {
        Err(RiskGeoError::Unknown(t)) => assert_eq!(t, "Cppi"),
        other => panic!("{other:?}"),
    }
    assert!(matches!(try_selected_risk_geos(" , "), Err(RiskGeoError::Nothing)));
}

#[test]
fn filter_configs_can_be_disabled() {
    assert_eq!(filter_configs(true).len(), 1);
    assert!(filter_configs(false).len() > 1);
    assert_eq!(filter_configs(false).len(), 12);
    assert_eq!(filter_configs(false)[8], ("both", 48, 50));
}

#[test]
fn grid_windows_are_all_cached() {
    // Every window in the grid must be precomputable.
    let mut ws: Vec<i32> = grid_configs().iter().map(|c| c.0).collect();
    ws.sort_unstable();
    ws.dedup();
    assert!(ws.iter().all(|&w| w > 0));
    assert!(ws.len() >= 5);
}

fn cells(variants: &str, list: &Option<Whitelist>) -> Vec<Cell> {
    grid_cells(
        "ES",
        &parse_variants(variants),
        &grid_configs(),
        &filter_configs(false),
        &vol_regimes(),
        list,
    )
}

#[test]
fn the_grid_is_enumerated_in_full() {
    // 34 configurations, 12 filters and 7 regimes; a fixed multiple has one offset.
    assert_eq!(cells("wick/nobias/fixedrr", &None).len(), 34 * 12 * 7);
    assert_eq!(cells("wick/nobias/luxtgt", &None).len(), 3 * 34 * 12 * 7);
    assert_eq!(cells("all", &None).len(), 45_696);
    assert!(cells("wick/nobias/fixedrr", &None).iter().all(|c| c.lux == 100));
    let all = cells("all", &None);
    assert_eq!(all.len(), (4 + 3 * 4) * 34 * 12 * 7);
    assert_eq!(all_variants().len(), 8);
    let first = all[0];
    assert_eq!((first.window, first.rr, first.dir, first.fmode, first.regime), (30, 100, "long", "none", "all"));
    assert_eq!(all[1].regime, "calm");
}

#[test]
fn a_whitelist_restricts_the_grid() {
    let key = fmt_key("ES", "wick", "nobias", "fixedrr", 45, 33, "long", 100, "hurst", 50, 0, "calm");
    assert_eq!(key, "ES|wick|nobias|fixedrr|45|0.33|long|1.00|hurst|0.50|0.00|calm");
    let w = Whitelist::new(vec!["zzz".to_string(), key.clone(), "aaa".to_string()]);
    assert!(w.contains(&key));
    assert!(!w.contains("mmm"));
    let got = cells("all", &Some(w));
    assert_eq!(got.len(), 1);
    assert_eq!((got[0].window, got[0].rr, got[0].hmin), (45, 33, 50));
    // The same cell of another instrument is another key.
    let other = Whitelist::new(vec![key.replace("ES|", "NQ|")]);
    assert!(cells("all", &Some(other)).is_empty());
}

const HEADER: &str = " instrument, entry_mode,bias_mode,exit_mode,window,rr,direction,lux_tper,filter_mode,hurst_min,entropy_max,vol_regime";

#[test]
fn whitelist_headers_are_found_or_named() {
    let c = whitelist_columns(HEADER).unwrap();
    assert_eq!((c.instrument, c.rr, c.vol_regime, c.n_cols), (0, 5, 11, 12));
    let lost = HEADER.replace("direction", "side").replace("vol_regime", "regime");
    assert_eq!(whitelist_columns(&lost), Err("direction"));
}

#[test]
fn whitelist_rows_are_picked_apart() {
    match whitelist_row("ES, wick ,nobias", 3) {
        WhitelistRow::Fields(f) => assert_eq!(f, vec!["ES", "wick", "nobias"]),
        other => panic!("{other:?}"),
    }
    assert!(matches!(whitelist_row("ES,wick", 3), WhitelistRow::Short));
    assert!(matches!(whitelist_row("  ", 3), WhitelistRow::Blank));
}

#[test]
fn symbols_are_listed_in_upper_case() {
    assert_eq!(instrument_list("es, Nq,GC"), vec!["ES", "NQ", "GC"]);
}

#[test]
fn one_commission_serves_all_accounts() {
    let mut a = all_apex();
    let c = a[0].comm;
    assert_eq!(shared_commission(&a), Ok(c));
    a[3].comm = c + 1;
    assert_eq!(shared_commission(&a), Err(3));
}

#[test]
fn a_look_at_the_signal_keeps_one_account_and_geometry() {
    let keys: Vec<String> = selected_accounts(all_apex(), true).into_iter().map(|a| a.key).collect();
    assert_eq!(keys, vec!["it150"]);
    assert_eq!(selected_accounts(all_apex(), false).len(), 6);
    assert!(selected_accounts(topstep_accounts(), true).is_empty());
    assert_eq!(swept_geometries(vec![1, 2], true), vec![0]);
    assert_eq!(swept_geometries(vec![1, 2], false), vec![1, 2]);
}
