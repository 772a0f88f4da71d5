use tdx_maintain_core::calendar::{index_calendar_rows, tushare_calendar_rows};
use tdx_maintain_core::date::TradeDate;
use tdx_maintain_core::tdx::day_file::DayRecord;
use tdx_maintain_core::tushare::{dash_compact_date, strip_dashes, trade_cal_day, tushare_error_message, TradeCalDay};
use tdx_maintain_core::adj_factor::{factor_row_dates, probed_tier, sync_progress_message, tier_change_message, AdjFactorTier};
use tdx_maintain_core::tdx::paths::Market;

fn bar(y: i32, m: u32, d: u32) -> DayRecord {
    DayRecord {
        date: TradeDate::from_ymd(y, m, d).unwrap(),
        open: 0,
        high: 0,
        low: 0,
        close: 0,
        amount_bits: 0,
        volume: 0,
    }
}

#[test]
fn index_rows_all_and_incremental() {
    let bars = vec![bar(2024, 1, 2), bar(2024, 1, 3), bar(2024, 1, 4)];
    let rows = index_calendar_rows("SSE", &bars, &None, "now");
    assert_eq!(rows.len(), 3);
    assert_eq!(rows[0].trade_date, "2024-01-02");
    assert_eq!(rows[0].is_open, 1);
    assert_eq!(rows[0].source, "index_derived");
    assert_eq!(rows[0].exchange, "SSE");
    assert_eq!(rows[0].updated_at, "now");
    let rows = index_calendar_rows("SSE", &bars, &Some("2024-01-03".to_string()), "now");
    assert_eq!(rows.len(), 1);
    assert_eq!(rows[0].trade_date, "2024-01-04");
}

#[test]
fn tushare_rows_and_dates() {
    let days = vec![
        TradeCalDay { date: "2024-01-01".to_string(), is_open: false },
        TradeCalDay { date: "2024-01-02".to_string(), is_open: true },
    ];
    let rows = tushare_calendar_rows("SSE", &days, "t");
    assert_eq!(rows[0].is_open, 0);
    assert_eq!(rows[1].is_open, 1);
    assert_eq!(rows[1].source, "tushare");
    assert_eq!(strip_dashes("2024-01-02"), "20240102");
    assert_eq!(dash_compact_date("20240102"), "2024-01-02");
    assert_eq!(dash_compact_date("2024-01-02"), "2024-01-02");
    assert_eq!(dash_compact_date("abc"), "abc");
    let d = trade_cal_day(Some("20240105"), Some(1));
    assert_eq!(d.date, "2024-01-05");
    assert!(d.is_open);
    let d = trade_cal_day(None, Some(0));
    assert_eq!(d.date, "");
    assert!(!d.is_open);
    assert!(!trade_cal_day(Some("x"), None).is_open);
    assert_eq!(tushare_error_message(Some("bad")), "tushare error: bad");
    assert_eq!(tushare_error_message(None), "tushare error: unknown");
}

#[test]
fn factor_helpers() {
    assert_eq!(AdjFactorTier::L0.name(), "L0");
    assert_eq!(AdjFactorTier::L3.name(), "L3");
    assert_eq!(probed_tier(true, true), AdjFactorTier::L0);
    assert_eq!(probed_tier(true, false), AdjFactorTier::L3);
    assert_eq!(probed_tier(false, true), AdjFactorTier::L3);
    assert_eq!(tier_change_message("L0", "L3"), "复权因子降级等级变化: L0 -> L3");
    assert_eq!(sync_progress_message(Market::Bj, "830001"), "计算 bj#830001");
    let ds = factor_row_dates(&vec![bar(2024, 1, 2), bar(2023, 12, 29)]);
    assert_eq!(ds, vec!["2024-01-02".to_string(), "2023-12-29".to_string()]);
}
