use tdx_maintain_core::date::TradeDate;
use tdx_maintain_core::scanner::{scan_symbol_bars, DailyBarsScan, MissingReason, ScanKind, unknown_scan_message};
use tdx_maintain_core::tdx::day_file::DayRecord;
use tdx_maintain_core::tdx::paths::Market;
use tdx_maintain_core::adj_factor::{AdjFactorScan, FactorLagDetail, FactorTable};

fn bar(y: i32, m: u32, d: u32) -> DayRecord {
    DayRecord {
        date: TradeDate::from_ymd(y, m, d).unwrap(),
        open: 1,
        high: 1,
        low: 1,
        close: 1,
        amount_bits: 0,
        volume: 1,
    }
}

fn texts(v: &[&str]) -> Vec<String> {
    v.iter().map(|s| s.to_string()).collect()
}

#[test]
fn gaps_and_lag_of_a_file() {
    let days = texts(&[
        "2024-01-01", "2024-01-02", "2024-01-03", "2024-01-04", "2024-01-05", "2024-01-08",
        "2024-01-09",
    ]);
    // Bars on the 2nd, 5th; the 3rd and 4th are missing; 8th and 9th are lag.
    let bars = vec![bar(2024, 1, 2), bar(2024, 1, 5)];
    let scan = scan_symbol_bars(&days, &bars);
    assert_eq!(scan.latest_date, "2024-01-05");
    assert_eq!(scan.lag_days, 2);
    assert_eq!(scan.gaps.len(), 1);
    assert_eq!(scan.gaps[0].start, "2024-01-03");
    assert_eq!(scan.gaps[0].end, "2024-01-04");
}

#[test]
fn separate_gaps_and_no_lag() {
    let days = texts(&["2024-01-01", "2024-01-02", "2024-01-03", "2024-01-04", "2024-01-05"]);
    let bars = vec![bar(2024, 1, 1), bar(2024, 1, 3), bar(2024, 1, 5)];
    let scan = scan_symbol_bars(&days, &bars);
    assert_eq!(scan.lag_days, 0);
    let g: Vec<(String, String)> = scan.gaps.iter().map(|g| (g.start.clone(), g.end.clone())).collect();
    assert_eq!(
        g,
        vec![
            ("2024-01-02".to_string(), "2024-01-02".to_string()),
            ("2024-01-04".to_string(), "2024-01-04".to_string())
        ]
    );
}

#[test]
fn report_accumulates_symbols() {
    let days = texts(&["2024-01-01", "2024-01-02", "2024-01-03"]);
    let mut report = DailyBarsScan::new(3);
    report.record_missing(Market::Sh, "600000", MissingReason::NoFile);
    report.record_bars(Market::Sz, "000001", &days, &Vec::new());
    report.record_bars(Market::Sh, "600001", &days, &vec![bar(2024, 1, 1)]);
    assert_eq!(report.total_symbols, 3);
    assert_eq!(report.missing_files.len(), 2);
    assert!(matches!(report.missing_files[1].reason, MissingReason::EmptyFile));
    assert_eq!(report.lags.len(), 1);
    assert_eq!(report.lags[0].symbol, "600001");
    assert_eq!(report.lags[0].lag_days, 2);
    assert_eq!(report.gaps.len(), 0);
}

#[test]
fn scan_kind_names() {
    assert_eq!(ScanKind::parse("daily_bars"), Some(ScanKind::DailyBars));
    assert_eq!(ScanKind::parse("xdxr"), Some(ScanKind::Xdxr));
    assert_eq!(ScanKind::parse("adj_factors"), Some(ScanKind::AdjFactors));
    assert_eq!(ScanKind::parse("other"), None);
    assert_eq!(ScanKind::AdjFactors.as_str(), "adj_factors");
    assert_eq!(unknown_scan_message("foo"), "unknown scan type: foo");
}

#[test]
fn factor_scan_lists_lagging_files() {
    let mut s = AdjFactorScan::new();
    let latest = Some("2024-01-05".to_string());
    s.record_file("sh", "600000", &texts(&["2024-01-04", "2024-01-05"]), &latest);
    s.record_file("sh", "600001", &texts(&["2024-01-03"]), &latest);
    s.record_file("sz", "000001", &Vec::new(), &latest);
    s.record_unreadable("sz", "000002", "bad file");
    assert_eq!(s.total_factors, 3);
    assert_eq!(s.unique_symbols, 3);
    assert_eq!(s.lagging.len(), 3);
    assert!(matches!(&s.lagging[0].detail, FactorLagDetail::Behind(d) if d == "2024-01-03"));
    assert!(matches!(&s.lagging[1].detail, FactorLagDetail::Behind(d) if d.is_empty()));
    assert!(matches!(&s.lagging[2].detail, FactorLagDetail::Unreadable(e) if e == "无法读取: bad file"));
}

#[test]
fn factor_lookup_takes_latest_not_after() {
    let t = FactorTable::new(texts(&["2024-01-10", "2024-01-02", "2024-01-05", "2024-01-05"]));
    assert_eq!(t.lookup("2024-01-01"), None);
    assert_eq!(t.lookup("2024-01-02"), Some(1));
    assert_eq!(t.lookup("2024-01-04"), Some(1));
    assert_eq!(t.lookup("2024-01-05"), Some(3));
    assert_eq!(t.lookup("2024-01-09"), Some(3));
    assert_eq!(t.lookup("2025-01-01"), Some(0));
    assert_eq!(t.latest(), Some(0));
    assert_eq!(FactorTable::new(Vec::new()).latest(), None);
}
