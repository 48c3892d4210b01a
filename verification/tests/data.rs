use orb_vol::data::{
    file_matches, parse_et, read_stamp, split_row, Loader, LoadReport, RowPrices, RowText, Stamp,
    TzInput,
};

#[test]
fn offset_timestamps_round_trip_to_the_right_session_minute() {
    let mut rep = LoadReport::default();
    // 09:30 Eastern on a summer date, written with its offset.
    let (tm, dk, yr) = parse_et("2024-07-15 09:30:00-04:00", TzInput::Offset, &mut rep).unwrap();
    assert_eq!(tm, 570, "09:30 ET must be minute 570, not shifted");
    assert_eq!(dk, 20240715);
    assert_eq!(yr, 2024);

    // Winter date, offset -05:00.
    let (tm, dk, _) = parse_et("2024-01-16 09:30:00-05:00", TzInput::Offset, &mut rep).unwrap();
    assert_eq!(tm, 570, "09:30 ET must be minute 570 in winter too");
    assert_eq!(dk, 20240116);
    assert_eq!((rep.offset_rows, rep.naive_rows), (2, 0));
}

#[test]
fn utc_timestamps_convert_across_both_dst_phases() {
    let mut rep = LoadReport::default();
    // 13:30 UTC is 09:30 EDT in July.
    let (tm, dk, _) = parse_et("2024-07-15 13:30:00", TzInput::Utc, &mut rep).unwrap();
    assert_eq!(tm, 570);
    assert_eq!(dk, 20240715);
    // 14:30 UTC is 09:30 EST in January.
    let (tm, dk, _) = parse_et("2024-01-16 14:30:00", TzInput::Utc, &mut rep).unwrap();
    assert_eq!(tm, 570);
    assert_eq!(dk, 20240116);
    assert_eq!((rep.offset_rows, rep.naive_rows), (0, 2));
}

#[test]
fn eastern_wall_clock_is_taken_literally() {
    let mut rep = LoadReport::default();
    for (s, expect) in [("2024-07-15 09:30:00", 570), ("2024-01-16 09:30:00", 570)] {
        let (tm, _, _) = parse_et(s, TzInput::Eastern, &mut rep).unwrap();
        assert_eq!(tm, expect);
    }
}

#[test]
fn declaring_utc_on_offset_data_fails_loudly() {
    let mut rep = LoadReport::default();
    assert!(
        parse_et("2024-07-15 09:30:00-04:00", TzInput::Utc, &mut rep).is_none(),
        "a non-zero offset under --tz-input utc must be rejected, not silently shifted"
    );
    // A +00:00 suffix is consistent with UTC and is accepted.
    assert!(parse_et("2024-07-15 13:30:00+00:00", TzInput::Utc, &mut rep).is_some());
}

#[test]
fn t_separated_iso_timestamps_parse() {
    let mut rep = LoadReport::default();
    let (tm, _, _) = parse_et("2024-07-15T13:30:00", TzInput::Utc, &mut rep).unwrap();
    assert_eq!(tm, 570);
    let (tm, _, _) = parse_et("2024-07-15T09:30:00-04:00", TzInput::Offset, &mut rep).unwrap();
    assert_eq!(tm, 570);
}

#[test]
fn transition_hours_are_counted() {
    let mut rep = LoadReport::default();
    // 02:30 on the second Sunday of March does not exist.
    assert_eq!(parse_et("2024-03-10 02:30:00", TzInput::Eastern, &mut rep), None);
    assert_eq!(rep.ambiguous_local, 1);
    // 01:30 on the first Sunday of November comes twice.
    let (tm, dk, _) = parse_et("2024-11-03 01:30:00", TzInput::Eastern, &mut rep).unwrap();
    assert_eq!((tm, dk), (90, 20241103));
    assert_eq!(rep.ambiguous_local, 2);
}

#[test]
fn a_utc_evening_is_the_eastern_day_before_midnight() {
    let mut rep = LoadReport::default();
    let (tm, dk, yr) = parse_et("2024-01-01 03:00:00", TzInput::Utc, &mut rep).unwrap();
    assert_eq!((tm, dk, yr), (1320, 20231231, 2023));
}

#[test]
fn stamps_are_told_apart() {
    match read_stamp(" 2024-07-15 09:30:00.250-04:00 ") {
        Stamp::WithOffset(utc, offset) => {
            assert_eq!((utc.hour, utc.minute, utc.day), (13, 30, 15));
            assert_eq!(offset, -4 * 3600);
        }
        other => panic!("{other:?}"),
    }
    match read_stamp("2024-07-15 09:30") {
        Stamp::Naive(c) => assert_eq!((c.year, c.month, c.hour), (2024, 7, 9)),
        other => panic!("{other:?}"),
    }
    assert!(matches!(read_stamp("15/07/2024 09:30"), Stamp::Unreadable));
    let mut rep = LoadReport::default();
    assert_eq!(parse_et("yesterday", TzInput::Utc, &mut rep), None);
    assert_eq!((rep.offset_rows, rep.naive_rows), (0, 0));
}

#[test]
fn declarations_parse_and_reject() {
    assert_eq!(TzInput::parse("UTC"), TzInput::Utc);
    assert_eq!(TzInput::parse(" offset "), TzInput::Offset);
    assert_eq!(TzInput::parse("eastern"), TzInput::Eastern);
    assert_eq!(TzInput::try_parse("et"), Some(TzInput::Eastern));
    assert_eq!(TzInput::try_parse("gmt"), None);
    assert_eq!(TzInput::Eastern.as_str(), "et");
}

#[test]
fn instrument_matching_is_anchored() {
    let names =
        ["ES_2024.csv", "MES_2024.csv", "RESULTS.csv", "NQ_ES_SPREAD.csv", "ES-2025.csv", "NQ_2024.csv"];
    let got: Vec<&str> = names.iter().copied().filter(|n| file_matches(n, "ES")).collect();
    assert!(got.contains(&"ES_2024.csv"));
    assert!(got.contains(&"ES-2025.csv"));
    assert!(!got.iter().any(|n| n.starts_with("MES")), "MES must not match ES: {got:?}");
    assert!(!got.iter().any(|n| n.starts_with("RESULTS")), "RESULTS must not match ES: {got:?}");
    assert!(!got.iter().any(|n| n.contains("SPREAD")), "spread file must not match ES: {got:?}");
    assert_eq!(got.len(), 2, "{got:?}");
}

#[test]
fn file_names_match_in_any_case_and_by_extension() {
    assert!(file_matches("es.csv", "ES"));
    assert!(file_matches("ES_2024.CSV", "es"));
    assert!(!file_matches("ES_2024.txt", "ES"));
    assert!(!file_matches("ES2024.csv", "ES"));
}

fn px(high: i64, low: i64, close: i64) -> Option<RowPrices> {
    Some(RowPrices { high, low, close })
}

/// A run of rows carrying a real offset loads under an offset declaration and
/// not under a UTC one.
#[test]
fn mis_declared_timezone_is_rejected() {
    let rows: Vec<String> = (0..50)
        .map(|i| format!("{i},2024-07-15 09:{i:02}:00-04:00,ES,4001.00,3999.00,4000.00,10"))
        .collect();
    let load = |tz: TzInput| {
        let mut l = Loader::new();
        for row in &rows {
            match split_row(row) {
                RowText::Fields(f) => {
                    l.add_row(f[1], tz, px(40_010_000, 39_990_000, 40_000_000), 10)
                }
                _ => l.reject_row(),
            }
        }
        l.finish()
    };
    let (bars, days, rep) = load(TzInput::Offset);
    assert_eq!(bars.len(), 50);
    assert_eq!(days.len(), 1);
    assert_eq!((bars[0].time_mins, bars[49].time_mins), (540, 589));
    assert!(bars.iter().any(|b| b.time_mins == 570));
    assert_eq!(rep.bad_rows, 0);

    let (bars, _, rep) = load(TzInput::Utc);
    assert!(bars.is_empty(), "offset rows must not load under --tz-input utc");
    assert_eq!(rep.bad_rows, 50);
}

#[test]
fn days_cover_their_bars() {
    let mut l = Loader::new();
    for ts in ["2024-07-15 13:30", "2024-07-15 13:31", "2024-07-16 13:30"] {
        l.add_row(ts, TzInput::Utc, px(3, 1, 2), 5);
    }
    let (bars, days, _) = l.finish();
    assert_eq!(bars.len(), 3);
    assert_eq!((days[0].date_code, days[0].start, days[0].end), (20240715, 0, 2));
    assert_eq!((days[1].date_code, days[1].start, days[1].end), (20240716, 2, 3));
}

#[test]
fn nonsensical_prices_are_counted_not_coerced() {
    let mut l = Loader::new();
    let ts = "2024-07-15 13:30:00";
    l.add_row(ts, TzInput::Utc, px(2, 3, 2), 1); // low above high
    l.add_row(ts, TzInput::Utc, px(3, 1, 4), 1); // close above high
    l.add_row(ts, TzInput::Utc, px(3, 0, 1), 1); // no low
    l.add_row(ts, TzInput::Utc, None, 1); // unreadable
    l.add_row("nonsense", TzInput::Utc, px(3, 1, 2), 1);
    assert_eq!(l.rep.bad_rows, 5);
    let (bars, days, _) = l.finish();
    assert!(bars.is_empty() && days.is_empty());
}

#[test]
fn rows_are_split_before_they_are_read() {
    assert!(matches!(split_row("   \r"), RowText::Blank));
    assert!(matches!(split_row("1,2,3"), RowText::Short));
    match split_row("a,b,c,d,e,f,g\r") {
        RowText::Fields(f) => assert_eq!(f, vec!["a", "b", "c", "d", "e", "f", "g"]),
        _ => panic!("seven fields expected"),
    }
}
