use orb_vol::session::{
    in_session, index_sessions, rebuild_session_days, resolve_session, suspiciously_few_days,
    try_resolve_session, SessionError,
};
use orb_vol::types::{Bar, DayMeta};

fn bar(t: i32, did: u32) -> Bar {
    Bar { high: 1_010_000, low: 990_000, close: 1_000_000, volume: 1, time_mins: t, date_id: did }
}

fn day(year: i32, code: u32, s: usize, e: usize) -> DayMeta {
    DayMeta { year, date_code: code, start: s, end: e, sess_start: s, sess_end: e }
}

#[test]
fn named_sessions_resolve() {
    assert_eq!(resolve_session("ny", -1, -1), (570, 960));
    assert_eq!(resolve_session("NY", -1, -1), (570, 960));
    assert_eq!(resolve_session("london", -1, -1), (180, 480));
    assert_eq!(resolve_session("asia", -1, -1), (1200, 1560));
    assert_eq!(resolve_session("globex24", -1, -1), (1080, 2460));
    assert_eq!(resolve_session("ny", 100, 200), (100, 200));
}

#[test]
fn inverted_custom_session_is_rejected() {
    assert!(try_resolve_session("ny", 600, 300).is_err());
    assert_eq!(try_resolve_session("ny", 600, 300), Err(SessionError::Inverted));
}

#[test]
fn every_session_fault_is_told_apart() {
    assert_eq!(try_resolve_session("ny", 600, 600), Err(SessionError::Inverted));
    assert_eq!(try_resolve_session("ny", 0, 1441), Err(SessionError::TooLong));
    assert_eq!(try_resolve_session("ny", 0, 1440), Ok((0, 1440)));
    assert_eq!(try_resolve_session("tokyo", -1, -1), Err(SessionError::Unknown));
    // A single override is not enough to replace the named session.
    assert_eq!(try_resolve_session("London", 100, -1), Ok((180, 480)));
    // The name is folded but not trimmed.
    assert_eq!(try_resolve_session(" ny", -1, -1), Err(SessionError::Unknown));
}

#[test]
fn in_session_handles_wrap() {
    // NY: 09:30-16:00
    assert!(!in_session(569, 570, 960));
    assert!(in_session(570, 570, 960));
    assert!(in_session(959, 570, 960));
    assert!(!in_session(960, 570, 960)); // close is exclusive
    assert!(!in_session(1080, 570, 960)); // 18:00 overnight — outside

    // Asia: 20:00-02:00 wrapped
    assert!(in_session(1200, 1200, 1560));
    assert!(in_session(1439, 1200, 1560));
    assert!(in_session(0, 1200, 1560));
    assert!(in_session(119, 1200, 1560));
    assert!(!in_session(120, 1200, 1560));
    assert!(!in_session(600, 1200, 1560));
}

/// For a 24-hour instrument keyed by calendar day, the session range must exclude
/// the overnight bars.
#[test]
fn index_sessions_excludes_overnight_bars() {
    let bars: Vec<Bar> = [0, 569, 570, 959, 960, 1080, 1439].iter().map(|&t| bar(t, 0)).collect();
    let mut days = vec![day(2024, 20240315, 0, bars.len())];
    index_sessions(&bars, &mut days, 570, 960);
    assert_eq!(days[0].sess_start, 2, "session must start at 09:30, not 00:00");
    assert_eq!(days[0].sess_end, 4, "session must end at 16:00, not 23:59");
    assert_eq!(days[0].session_len(), 2);
    for i in days[0].sess_start..days[0].sess_end {
        assert!(in_session(bars[i].time_mins, 570, 960));
    }
}

#[test]
fn index_sessions_handles_day_with_no_session_bars() {
    let bars = vec![bar(0, 0), bar(100, 0)];
    let mut days = vec![day(2024, 20240315, 0, 2)];
    index_sessions(&bars, &mut days, 570, 960);
    assert_eq!(days[0].session_len(), 0);
}

#[test]
fn a_wrapping_session_keeps_whole_days() {
    let bars = vec![bar(1200, 0), bar(30, 0)];
    let mut days = vec![day(2024, 20240315, 0, 2)];
    days[0].sess_start = 1;
    days[0].sess_end = 1;
    index_sessions(&bars, &mut days, 1200, 1560);
    assert_eq!((days[0].sess_start, days[0].sess_end), (0, 2));
}

#[test]
fn non_wrapped_rebuild_is_passthrough() {
    let mut bars = vec![bar(600, 0), bar(700, 0)];
    let days = vec![day(2024, 20240315, 0, 2)];
    let out = rebuild_session_days(&mut bars, &days, 570, 960);
    assert_eq!(out.len(), 1);
    assert_eq!(out[0].date_code, 20240315);
}

/// Friday evening and Sunday evening are different sessions even though the
/// loader gives them consecutive date_ids (there is no Saturday data).
#[test]
fn wrapped_rebuild_splits_across_the_weekend() {
    let mut bars = vec![
        bar(1200, 0), // Fri 20:00
        bar(1300, 0), // Fri 21:40
        bar(1200, 1), // Sun 20:00  <- +2 calendar days
        bar(60, 2),   // Mon 01:00, same session as Sunday evening
    ];
    let days = vec![
        day(2024, 20240315, 0, 2), // Friday
        day(2024, 20240317, 2, 3), // Sunday
        day(2024, 20240318, 3, 4), // Monday
    ];
    let out = rebuild_session_days(&mut bars, &days, 1200, 1560);
    assert_eq!(out.len(), 2, "expected Friday and Sunday-into-Monday sessions");
    assert_eq!(out[0].start, 0);
    assert_eq!(out[0].end, 2);
    assert_eq!(out[1].start, 2);
    assert_eq!(out[1].end, 4);
    assert_eq!(bars[3].date_id, 1, "Monday 01:00 belongs to the Sunday session");
}

/// Day numbers are those of the calendar: the last day of February, of a leap
/// year and of a year are next to the first day after them.
#[test]
fn wrapped_rebuild_counts_days_across_month_ends() {
    for (a, b) in [(20240229, 20240301), (20230228, 20230301), (20231231, 20240101), (19000228, 19000301)] {
        let mut bars = vec![bar(1300, 0), bar(60, 1)];
        let days = vec![day(2024, a, 0, 1), day(2024, b, 1, 2)];
        let out = rebuild_session_days(&mut bars, &days, 1200, 1560);
        assert_eq!(out.len(), 1, "{a} and {b} are next to each other");
    }
    for (a, b) in [(20240228, 20240301), (20000228, 20000301), (20231230, 20240101)] {
        let mut bars = vec![bar(1300, 0), bar(60, 1)];
        let days = vec![day(2024, a, 0, 1), day(2024, b, 1, 2)];
        let out = rebuild_session_days(&mut bars, &days, 1200, 1560);
        assert_eq!(out.len(), 2, "a day lies between {a} and {b}");
    }
}

#[test]
fn wrapped_rebuild_leaves_outside_bars_alone() {
    let mut bars = vec![bar(1300, 0), bar(600, 1), bar(1250, 1), bar(60, 2), bar(1210, 2)];
    let days = vec![day(2024, 20240312, 0, 1), day(2024, 20240313, 1, 3), day(2024, 20240314, 3, 5)];
    let out = rebuild_session_days(&mut bars, &days, 1200, 1560);
    // 10:00 ends the first session; the third begins where the open is crossed again.
    assert_eq!(out.iter().map(|d| (d.start, d.end, d.date_code)).collect::<Vec<_>>(), vec![
        (0, 1, 20240312),
        (2, 4, 20240313),
        (4, 5, 20240314),
    ]);
    assert_eq!(bars.iter().map(|b| b.date_id).collect::<Vec<_>>(), vec![0, 1, 1, 1, 2]);
}

#[test]
fn few_rebuilt_days_are_suspicious() {
    assert!(suspiciously_few_days(1, 3));
    assert!(!suspiciously_few_days(2, 4));
    assert!(suspiciously_few_days(2, 5));
    assert!(!suspiciously_few_days(0, 0));
}
