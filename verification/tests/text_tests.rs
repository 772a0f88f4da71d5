use tdx_maintain_core::dashboard::{
    is_index_symbol, kline_plan, market_code_name, pick_by_instants, pick_more_recent, widen_range,
    KlineAdjust, KlinePlan,
};
use tdx_maintain_core::checker::{calendar_market_dates, merge_market_dates, needs_server_probe, MarketDates};
use tdx_maintain_core::date::{date_from_iso_text, CalendarDay, TradeDate};
use tdx_maintain_core::tdx::paths::{day_filename_would_split, get_day_filename, parse_day_filename, Market};
use tdx_maintain_core::downloader::event_code_would_split;
use tdx_maintain_core::qlib::code_prefix_would_split;
use tdx_maintain_core::tushare::compact_date_would_split;
use tdx_maintain_core::text::{stable_text_order, str_contains, str_lt};

#[test]
fn more_recent_time() {
    let a = Some("2024-01-02T00:00:00+00:00".to_string());
    assert_eq!(pick_more_recent(&a, "2024-01-01T00:00:00+00:00"), "2024-01-02T00:00:00+00:00");
    assert_eq!(pick_more_recent(&a, "2024-01-03T00:00:00+08:00"), "2024-01-03T00:00:00+08:00");
    assert_eq!(pick_more_recent(&a, ""), "2024-01-02T00:00:00+00:00");
    assert_eq!(pick_more_recent(&a, "garbage"), "2024-01-02T00:00:00+00:00");
    assert_eq!(pick_more_recent(&None, "x"), "x");
    // An empty file time gives way to the stored one.
    assert_eq!(pick_more_recent(&Some(String::new()), "2024-01-01T00:00:00Z"), "2024-01-01T00:00:00Z");
    assert_eq!(pick_more_recent(&Some(String::new()), ""), "");
    assert_eq!(pick_by_instants(&Some(String::new()), "b", None, Some((5, 1))), "b");
    // Same instant written in two zones: the stored time wins.
    assert_eq!(
        pick_more_recent(&Some("2024-01-01T08:00:00+08:00".to_string()), "2024-01-01T00:00:00Z"),
        "2024-01-01T00:00:00Z"
    );
    assert_eq!(pick_by_instants(&a, "b", Some((5, 0)), Some((5, 1))), "b");
    assert_eq!(pick_by_instants(&a, "b", Some((5, 2)), Some((5, 1))), a.clone().unwrap());
}

#[test]
fn kline_rules() {
    assert_eq!(market_code_name(0), "sz");
    assert_eq!(market_code_name(1), "sh");
    assert_eq!(market_code_name(2), "bj");
    assert_eq!(market_code_name(7), "unknown");
    assert!(is_index_symbol("sh", "000001"));
    assert!(is_index_symbol("sz", "399001"));
    assert!(!is_index_symbol("sz", "000001"));
    assert_eq!(kline_plan(None, false), KlinePlan::Raw);
    assert_eq!(kline_plan(Some("forward"), true), KlinePlan::Raw);
    assert_eq!(kline_plan(Some("forward"), false), KlinePlan::Adjusted(KlineAdjust::Forward));
    assert_eq!(kline_plan(Some("backward"), false), KlinePlan::Adjusted(KlineAdjust::Backward));
    assert_eq!(kline_plan(Some("weird"), false), KlinePlan::Adjusted(KlineAdjust::Unscaled));
    assert_eq!(widen_range(&None, "2024-01-02", true), "2024-01-02");
    assert_eq!(widen_range(&Some("2024-01-02".to_string()), "2023-01-02", true), "2023-01-02");
    assert_eq!(widen_range(&Some("2024-01-02".to_string()), "2023-01-02", false), "2024-01-02");
}

#[test]
fn file_names_read_back() {
    let f = get_day_filename(Market::Sh, "600000", true);
    assert_eq!(f, "sh600000.day");
    assert_eq!(parse_day_filename(&f), Some((Market::Sh, "600000".to_string())));
    let f = get_day_filename(Market::Bj, "830001", false);
    assert_eq!(f, "bj#830001.day");
    assert_eq!(parse_day_filename(&f), Some((Market::Bj, "830001".to_string())));
    assert_eq!(Market::from_dir("SZ"), Some(Market::Sz));
    assert_eq!(Market::from_dir(Market::Bj.dir_name()), Some(Market::Bj));
    assert_eq!(Market::from_dir("SH"), Some(Market::Sh));
    assert_eq!(Market::from_dir("Sz"), Some(Market::Sz));
    assert_eq!(Market::from_dir("BJ"), Some(Market::Bj));
    assert_eq!(Market::from_dir("hk"), None);
    assert_eq!(Market::from_dir("ｓｈ"), None);
    assert_eq!(parse_day_filename("x.day"), None);
    assert_eq!(parse_day_filename("sh600000.txt"), None);
}

#[test]
fn date_text_reads_back() {
    let d = TradeDate::from_ymd(2024, 2, 29).unwrap();
    assert_eq!(d.format_iso(), "2024-02-29");
    assert_eq!(date_from_iso_text("2024-02-29"), Some(d));
    assert_eq!(date_from_iso_text("2024-2-29"), None);
    assert_eq!(date_from_iso_text("2023-02-29"), None);
    assert!(TradeDate::from_ymd(2023, 2, 29).is_none());
}

#[test]
fn text_order_and_search() {
    assert!(str_lt("2024-01-02", "2024-01-03"));
    assert!(str_lt("a", "ab"));
    assert!(!str_lt("b", "ab"));
    assert!(str_contains("sh#600000: x", "600000"));
    assert!(!str_contains("sh#600001: x", "600000"));
    assert!(str_contains("abc", ""));
    let keys: Vec<String> = ["b", "a", "b", "a"].iter().map(|s| s.to_string()).collect();
    assert_eq!(stable_text_order(&keys), vec![1, 3, 0, 2]);
}

#[test]
fn chrono_date_parsing() {
    let c = tdx_maintain_core::date::parse_date("2024-01-02").unwrap();
    assert_eq!(c.ymd(), (2024, 1, 2));
    assert_eq!(c.format_iso(), "2024-01-02");
    let d = TradeDate::from_ymd(2024, 1, 2).unwrap();
    assert_eq!(tdx_maintain_core::date::format_date(d), "2024-01-02");
    let old = tdx_maintain_core::date::parse_date("-0001-03-01").unwrap();
    assert_eq!(old.ymd(), (-1, 3, 1));
    assert_eq!(old.format_iso(), "-0001-03-01");
    assert!(old.on_or_before(&d));
    assert!(tdx_maintain_core::date::parse_date("2024-13-02").is_none());
    assert!(tdx_maintain_core::date::parse_date("hello").is_none());
    let later = TradeDate::from_ymd(2024, 3, 1).unwrap();
    assert_eq!(later.days_since(&d), 59);
    assert!(d.lt(&later));
    assert!(d.le(&d));
}

#[test]
fn calendar_gives_every_market_its_date() {
    let dates = calendar_market_dates(&Some("2024-05-06".to_string()));
    let d = CalendarDay::from_ymd(2024, 5, 6).unwrap();
    assert_eq!(dates.sh, Some(Some(d)));
    assert_eq!(dates.sz, Some(Some(d)));
    assert_eq!(dates.bj, Some(Some(d)));
    assert!(!needs_server_probe(&dates));
    let empty = calendar_market_dates(&None);
    assert!(needs_server_probe(&empty));
    let probed = MarketDates { sh: Some(None), sz: Some(Some(d)), bj: None };
    let merged = merge_market_dates(&empty, &probed);
    assert_eq!(merged.sz, Some(Some(d)));
    assert_eq!(merged.bj, None);
    let early = calendar_market_dates(&Some("-0001-03-01".to_string()));
    assert_eq!(early.sh, Some(Some(CalendarDay::from_ymd(-1, 3, 1).unwrap())));
    assert!(!needs_server_probe(&early));
}

#[test]
fn byte_cut_checks_match_char_boundaries() {
    assert!(!day_filename_would_split("sh600000.day"));
    assert!(!day_filename_would_split("sh#600000.day"));
    assert!(day_filename_would_split("上海.day"));
    assert!(day_filename_would_split("s海600000.day"));
    assert!(!day_filename_would_split("s海600000.txt"));
    assert!(!day_filename_would_split("s#海.day"));

    assert!(!code_prefix_would_split("600000"));
    assert!(!code_prefix_would_split("6"));
    assert!(code_prefix_would_split("海6"));
    assert!(code_prefix_would_split("6海"));
    assert!(!code_prefix_would_split("é1"));

    assert!(!event_code_would_split("600000"));
    assert!(!event_code_would_split("6000"));
    assert!(event_code_would_split("6000海"));
    assert!(!event_code_would_split("600000海"));

    assert!(!compact_date_would_split("20240102"));
    assert!(!compact_date_would_split("2024-01-02"));
    assert!(compact_date_would_split("202海01"));
    assert!(compact_date_would_split("20é4海"));
    assert!(!compact_date_would_split("2024é01"));
    assert!(!compact_date_would_split("2024é0ab"));
}
