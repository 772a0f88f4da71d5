use tdx_maintain_core::qlib::{
    ffill_bfill, is_a_stock, make_stock_id, sorted_lines, DumpTally, QlibCalendar, QlibRunState,
    calendar_span, calendar_slots, instrument_line,
};
use tdx_maintain_core::tdx::paths::Market;
use tdx_maintain_core::tdx::day_file::DayRecord;
use tdx_maintain_core::date::TradeDate;

#[test]
fn test_is_a_stock_sh() {
    assert!(is_a_stock(Market::Sh, "600519"));
    assert!(is_a_stock(Market::Sh, "688001"));
    assert!(!is_a_stock(Market::Sh, "000001"));
    assert!(!is_a_stock(Market::Sh, "900901"));
}

#[test]
fn test_is_a_stock_sz() {
    assert!(is_a_stock(Market::Sz, "000001"));
    assert!(is_a_stock(Market::Sz, "300750"));
    assert!(!is_a_stock(Market::Sz, "600519"));
    assert!(!is_a_stock(Market::Sz, "200001"));
}

#[test]
fn test_is_a_stock_bj() {
    assert!(is_a_stock(Market::Bj, "830001"));
    assert!(is_a_stock(Market::Bj, "430001"));
    assert!(is_a_stock(Market::Bj, "920001"));
    assert!(!is_a_stock(Market::Bj, "600519"));
}

#[test]
fn test_make_stock_id() {
    let id = make_stock_id(Market::Sh, "600519").unwrap();
    assert_eq!(id.qlib_symbol, "SH600519");
    assert_eq!(id.dir_name, "sh600519");

    let id = make_stock_id(Market::Sz, "000001").unwrap();
    assert_eq!(id.qlib_symbol, "SZ000001");
    assert_eq!(id.dir_name, "sz000001");

    let id = make_stock_id(Market::Bj, "830001").unwrap();
    assert_eq!(id.qlib_symbol, "BJ830001");
    assert_eq!(id.dir_name, "bj830001");

    assert!(make_stock_id(Market::Sh, "900901").is_none());
}

#[test]
fn test_ffill_bfill() {
    let mut arr = vec![0.0f32, 0.0, 0.0, 0.0, 0.0];
    let has_value = vec![true, false, true, false, false];

    arr[0] = 1.0;
    arr[2] = 3.0;

    ffill_bfill(&mut arr, &has_value);

    assert_eq!(arr[0], 1.0);
    assert_eq!(arr[1], 1.0);
    assert_eq!(arr[2], 3.0);
    assert_eq!(arr[3], 3.0);
    assert_eq!(arr[4], 3.0);
}

#[test]
fn test_ffill_bfill_all_valid() {
    let mut arr = vec![1.0f32, 2.0, 3.0];
    let has_value = vec![true, true, true];
    ffill_bfill(&mut arr, &has_value);
    assert_eq!(arr, vec![1.0, 2.0, 3.0]);
}

#[test]
fn ffill_bfill_fills_leading_gap_backward() {
    let mut arr = vec![0.0f32, 0.0, 5.0, 0.0, 7.0];
    let has_value = vec![false, false, true, false, true];
    ffill_bfill(&mut arr, &has_value);
    assert_eq!(arr, vec![5.0, 5.0, 5.0, 5.0, 7.0]);
}

#[test]
fn ffill_bfill_without_values_changes_nothing() {
    let mut arr = vec![0.0f32, 2.0];
    let has_value = vec![false, false];
    ffill_bfill(&mut arr, &has_value);
    assert_eq!(arr, vec![0.0, 2.0]);
}

#[test]
fn is_a_stock_short_code() {
    assert!(!is_a_stock(Market::Sh, "6"));
    assert!(!is_a_stock(Market::Bj, ""));
}

fn bar(y: i32, m: u32, d: u32, close: i32) -> DayRecord {
    DayRecord {
        date: TradeDate::from_ymd(y, m, d).unwrap(),
        open: close,
        high: close,
        low: close,
        close,
        amount_bits: 0,
        volume: 100,
    }
}

fn days(v: &[&str]) -> Vec<String> {
    v.iter().map(|s| s.to_string()).collect()
}

#[test]
fn calendar_alignment_of_a_stock() {
    let cal = QlibCalendar::new(days(&[
        "2024-01-02", "2024-01-03", "2024-01-04", "2024-01-05", "2024-01-08",
    ]));
    assert_eq!(cal.len(), 5);
    // The stock trades on the 3rd and 5th, plus a day off the calendar.
    let bars = vec![bar(2024, 1, 3, 10), bar(2024, 1, 5, 11), bar(2024, 1, 6, 12)];
    let span = calendar_span(&bars, &cal).unwrap();
    assert_eq!(span.start_idx, 1);
    assert_eq!(span.end_idx, 3);
    let slots = calendar_slots(&bars, &cal, span.start_idx, span.end_idx);
    assert_eq!(slots, vec![Some(0), None, Some(1)]);
    let id = make_stock_id(Market::Sh, "600519").unwrap();
    assert_eq!(instrument_line(&id, &span), "SH600519\t2024-01-03\t2024-01-05");
}

#[test]
fn calendar_span_without_calendar_day() {
    let cal = QlibCalendar::new(days(&["2024-01-02"]));
    let bars = vec![bar(2024, 1, 3, 10)];
    assert!(calendar_span(&bars, &cal).is_none());
}

#[test]
fn instruments_are_sorted() {
    let lines = days(&["SZ000001\ta\tb", "BJ830001\ta\tb", "SH600519\ta\tb"]);
    assert_eq!(
        sorted_lines(&lines),
        days(&["BJ830001\ta\tb", "SH600519\ta\tb", "SZ000001\ta\tb"])
    );
}

#[test]
fn dump_tally_counts() {
    let mut t = DumpTally::new();
    t.record_written("X".to_string());
    t.record_skipped();
    t.record_failure("SH600000", "boom");
    assert_eq!(t.instruments, vec!["X".to_string()]);
    assert_eq!(t.skipped, 1);
    assert_eq!(t.failed, 1);
    assert_eq!(t.failures, vec!["SH600000: boom".to_string()]);
}

#[test]
fn qlib_run_state_transitions() {
    let mut s: QlibRunState<u32> = QlibRunState::new();
    assert!(!s.has_snapshot());
    assert!(s.start(10));
    assert!(!s.start(10));
    assert_eq!(s.progress.as_ref().unwrap().message, "初始化...");
    s.update(3, 10, "SH600000", "处理中...");
    assert_eq!(s.progress.as_ref().unwrap().processed, 3);
    s.complete(7);
    assert!(!s.running);
    assert_eq!(s.stats, Some(7));
    assert!(s.has_snapshot());
    assert!(s.start(1));
    s.fail("bad".to_string());
    assert_eq!(s.error, Some("bad".to_string()));
    assert!(s.progress.is_none());
}
