use tdx_maintain_core::checker::{
    build_market_freshness, latest_kline_date, KlineDate, KlineDateError, LocalInventory, ProbeTarget,
    ServerProbe,
};
use tdx_maintain_core::date::{CalendarDay, TradeDate};
use tdx_maintain_core::tdx::paths::Market;

fn date(y: i32, m: u32, d: u32) -> TradeDate {
    TradeDate::from_ymd(y, m, d).unwrap()
}

fn day(y: i32, m: u32, d: u32) -> CalendarDay {
    CalendarDay::from_ymd(y, m, d).unwrap()
}

#[test]
fn test_up_to_date_no_gap() {
    let server_ref: Option<CalendarDay> = Some(day(2026, 7, 15));
    let mut inv = LocalInventory::new();
    inv.insert("sh/600000".to_string(), Market::Sh, date(2026, 7, 15));
    inv.insert("sh/600001".to_string(), Market::Sh, date(2026, 7, 15));

    let mf = build_market_freshness(Market::Sh, Some(&server_ref), &inv);
    assert_eq!(mf.status, "up_to_date");
    assert_eq!(mf.days_behind, Some(0));
    assert_eq!(mf.total_stocks, 2);
    assert_eq!(mf.up_to_date_stocks, 2);
    assert_eq!(mf.behind_stocks, 0);
}

#[test]
fn test_behind_by_days() {
    let server_ref: Option<CalendarDay> = Some(day(2026, 7, 15));
    let mut inv = LocalInventory::new();
    inv.insert("sz/000001".to_string(), Market::Sz, date(2026, 7, 10));

    let mf = build_market_freshness(Market::Sz, Some(&server_ref), &inv);
    assert_eq!(mf.status, "behind");
    assert_eq!(mf.days_behind, Some(5));
    assert_eq!(mf.up_to_date_stocks, 0);
    assert_eq!(mf.behind_stocks, 1);
}

#[test]
fn test_no_local_data() {
    let server_ref: Option<CalendarDay> = Some(day(2026, 7, 15));
    let inv = LocalInventory::new();

    let mf = build_market_freshness(Market::Bj, Some(&server_ref), &inv);
    assert_eq!(mf.status, "no_data");
    assert_eq!(mf.total_stocks, 0);
}

#[test]
fn test_server_unreachable() {
    let inv = LocalInventory::new();
    let mf = build_market_freshness(Market::Sh, None, &inv);
    assert_eq!(mf.status, "server_unreachable");
    assert_eq!(mf.server_latest_date, None);
}

#[test]
fn test_mixed_stocks() {
    let server_ref: Option<CalendarDay> = Some(day(2026, 7, 15));
    let mut inv = LocalInventory::new();
    inv.insert("sh/600000".to_string(), Market::Sh, date(2026, 7, 15));
    inv.insert("sh/600001".to_string(), Market::Sh, date(2026, 7, 14));
    inv.insert("sh/600002".to_string(), Market::Sh, date(2026, 7, 15));

    let mf = build_market_freshness(Market::Sh, Some(&server_ref), &inv);
    assert_eq!(mf.status, "up_to_date");
    assert_eq!(mf.days_behind, Some(0));
    assert_eq!(mf.total_stocks, 3);
    assert_eq!(mf.up_to_date_stocks, 2);
    assert_eq!(mf.behind_stocks, 1);
}

#[test]
fn inventory_keeps_one_entry_per_key() {
    let mut inv = LocalInventory::new();
    inv.insert("sh/600000".to_string(), Market::Sh, date(2026, 7, 1));
    inv.insert("sh/600000".to_string(), Market::Sh, date(2026, 7, 2));
    assert_eq!(inv.len(), 1);
    let mf = build_market_freshness(Market::Sh, Some(&Some(day(2026, 7, 2))), &inv);
    assert_eq!(mf.local_latest_date, Some("2026-07-02".to_string()));
    assert_eq!(mf.up_to_date_stocks, 1);
}

#[test]
fn other_market_files_are_not_counted() {
    let mut inv = LocalInventory::new();
    inv.insert("sz/000001".to_string(), Market::Sz, date(2026, 7, 15));
    let mf = build_market_freshness(Market::Sh, Some(&Some(day(2026, 7, 15))), &inv);
    assert_eq!(mf.total_stocks, 0);
    assert_eq!(mf.status, "no_data");
}

#[test]
fn server_probe_sequence() {
    let d = day(2026, 7, 15);
    let mut p = ServerProbe::new(2);
    assert_eq!(p.next_query(), Some((0, ProbeTarget::Server(0))));
    p.record(None);
    assert_eq!(p.next_query(), Some((0, ProbeTarget::Server(1))));
    p.record(Some(d));
    // The server that answered is asked first for the next market.
    assert_eq!(p.next_query(), Some((1, ProbeTarget::Server(1))));
    p.record(None);
    assert_eq!(p.next_query(), Some((1, ProbeTarget::Server(0))));
    p.record(Some(d));
    assert_eq!(p.next_query(), Some((2, ProbeTarget::Server(0))));
    p.record(None);
    assert_eq!(p.next_query(), Some((2, ProbeTarget::Server(0))));
    p.record(None);
    assert_eq!(p.next_query(), Some((2, ProbeTarget::Server(1))));
    p.record(None);
    assert_eq!(p.next_query(), Some((2, ProbeTarget::Default)));
    p.record(None);
    assert_eq!(p.next_query(), None);
    assert_eq!(p.dates.sh, Some(Some(d)));
    assert_eq!(p.dates.sz, Some(Some(d)));
    assert_eq!(p.dates.bj, Some(None));
}

#[test]
fn probe_without_servers_uses_defaults() {
    let mut p = ServerProbe::new(0);
    for m in 0..3 {
        assert_eq!(p.next_query(), Some((m, ProbeTarget::Default)));
        p.record(None);
    }
    assert_eq!(p.next_query(), None);
}

#[test]
fn kline_dates_pick_latest_plausible() {
    let k = |year: u16, month: u16, day: u16| KlineDate { year, month, day };
    assert_eq!(latest_kline_date(&vec![]), Err(KlineDateError::Empty));
    assert_eq!(latest_kline_date(&vec![k(0, 0, 0), k(2101, 1, 1)]), Err(KlineDateError::NoValidDate));
    assert_eq!(
        latest_kline_date(&vec![k(2024, 1, 5), k(2024, 2, 30), k(2024, 1, 9), k(1989, 12, 31)]),
        Ok(date(2024, 1, 9))
    );
}

#[test]
fn freshness_counts_distinct_keys_of_the_market() {
    let server_ref: Option<CalendarDay> = Some(day(2026, 7, 15));
    let mut inv = LocalInventory::new();
    inv.insert("sh/600000".to_string(), Market::Sh, date(2026, 7, 10));
    inv.insert("sh/600001".to_string(), Market::Sh, date(2026, 7, 15));
    // The same key again replaces its record rather than counting twice.
    inv.insert("sh/600000".to_string(), Market::Sh, date(2026, 7, 15));
    let before = build_market_freshness(Market::Sh, Some(&server_ref), &inv);
    assert_eq!(before.total_stocks, 2);
    assert_eq!(before.up_to_date_stocks, 2);
    // Files of other markets leave the Shanghai figures as they were.
    inv.insert("sz/000001".to_string(), Market::Sz, date(2026, 7, 1));
    inv.insert("bj/830001".to_string(), Market::Bj, date(2026, 7, 20));
    let after = build_market_freshness(Market::Sh, Some(&server_ref), &inv);
    assert_eq!(after.total_stocks, before.total_stocks);
    assert_eq!(after.up_to_date_stocks, before.up_to_date_stocks);
    assert_eq!(after.behind_stocks, before.behind_stocks);
    assert_eq!(after.status, before.status);
    assert_eq!(after.local_latest_date, before.local_latest_date);
}

#[test]
fn calendar_date_with_negative_year() {
    let mut inv = LocalInventory::new();
    inv.insert("sh/600000".to_string(), Market::Sh, date(2026, 7, 15));
    let mf = build_market_freshness(Market::Sh, Some(&Some(day(-1, 3, 1))), &inv);
    assert_eq!(mf.server_latest_date, Some("-0001-03-01".to_string()));
    assert_eq!(mf.days_behind, Some(-740483));
    assert_eq!(mf.up_to_date_stocks, 1);
    assert_eq!(mf.behind_stocks, 0);
    assert_eq!(mf.status, "up_to_date");
}
