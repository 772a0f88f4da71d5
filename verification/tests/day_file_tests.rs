use tdx_maintain_core::date::TradeDate;
use tdx_maintain_core::tdx::day_file::{
    decode_day_file, encode_day_records, last_record_date, merge_day_records, record_dates,
    DayFileError, DayRecord,
};

// Prices are stored as integers of 0.01 (the default coefficient).
fn make_bar(year: i32, month: u32, day: u32, close: f64) -> DayRecord {
    let scale = |p: f64| (p / 0.01).round() as i32;
    DayRecord {
        date: TradeDate::from_ymd(year, month, day).unwrap(),
        open: scale(close - 0.5),
        high: scale(close + 0.3),
        low: scale(close - 0.8),
        close: scale(close),
        amount_bits: (1_000_000.0f32).to_bits(),
        volume: 50000,
    }
}

fn close_of(b: &DayRecord) -> f64 {
    b.close as f64 * 0.01
}

#[test]
fn test_write_read_roundtrip() {
    let bars = vec![
        make_bar(2024, 1, 2, 10.5),
        make_bar(2024, 1, 3, 11.0),
        make_bar(2024, 1, 4, 10.8),
    ];
    let bytes = encode_day_records(&bars);
    let read_back = decode_day_file(&bytes).unwrap();

    assert_eq!(read_back.len(), 3);
    assert_eq!(read_back[0].date, bars[0].date);
    assert!((close_of(&read_back[0]) - 10.5).abs() < 0.001);
    assert_eq!(read_back[2].volume, bars[2].volume);
}

#[test]
fn test_write_read_empty() {
    let bytes = encode_day_records(&Vec::new());
    let read_back = decode_day_file(&bytes).unwrap();
    assert_eq!(read_back.len(), 0);
}

#[test]
fn test_read_invalid_size() {
    let result = decode_day_file(&vec![0u8; 31]);
    assert!(result.is_err());
    assert_eq!(result, Err(DayFileError::InvalidSize));
}

#[test]
fn test_reader_sorts_by_date() {
    let bars = vec![
        make_bar(2024, 1, 5, 12.0),
        make_bar(2024, 1, 2, 10.0),
        make_bar(2024, 1, 3, 11.0),
    ];
    let bytes = encode_day_records(&bars);
    let read_back = decode_day_file(&bytes).unwrap();

    assert_eq!(read_back.len(), 3);
    assert!(read_back[0].date.raw() < read_back[1].date.raw());
    assert!(read_back[1].date.raw() < read_back[2].date.raw());
}

#[test]
fn test_append_file_no_duplicates() {
    let initial = vec![make_bar(2024, 1, 2, 10.0)];
    let existing = decode_day_file(&encode_day_records(&initial)).unwrap();

    let update = vec![make_bar(2024, 1, 2, 99.0), make_bar(2024, 1, 3, 11.0)];
    let merged = merge_day_records(&existing, &update);
    let result = decode_day_file(&encode_day_records(&merged)).unwrap();

    assert_eq!(result.len(), 2, "should have 2 unique dates");
    assert!((close_of(&result[0]) - 10.0).abs() < 0.001, "existing bar should not be overwritten");
}

#[test]
fn test_last_date() {
    let bars = vec![make_bar(2024, 1, 2, 10.0), make_bar(2024, 6, 15, 15.0)];
    let read_back = decode_day_file(&encode_day_records(&bars)).unwrap();
    let last = last_record_date(&read_back);
    assert_eq!(last, Some(TradeDate::from_ymd(2024, 6, 15).unwrap()));
}

#[test]
fn encoded_record_layout() {
    let bars = vec![make_bar(2024, 1, 2, 10.0)];
    let bytes = encode_day_records(&bars);
    assert_eq!(bytes.len(), 32);
    assert_eq!(&bytes[0..4], &20240102u32.to_le_bytes());
    assert_eq!(&bytes[16..20], &1000i32.to_le_bytes());
    assert_eq!(&bytes[24..28], &50000u32.to_le_bytes());
    assert_eq!(&bytes[28..32], &[0u8; 4]);
}

#[test]
fn invalid_date_is_reported() {
    let mut bytes = vec![0u8; 32];
    bytes[0..4].copy_from_slice(&20240230u32.to_le_bytes());
    assert_eq!(decode_day_file(&bytes), Err(DayFileError::InvalidDate(20240230)));
}

#[test]
fn dates_in_order() {
    let bars = vec![make_bar(2024, 1, 3, 10.0), make_bar(2024, 1, 2, 10.0)];
    let read_back = decode_day_file(&encode_day_records(&bars)).unwrap();
    let ds = record_dates(&read_back);
    assert_eq!(ds[0].format_iso(), "2024-01-02");
    assert_eq!(ds[1].format_iso(), "2024-01-03");
}
