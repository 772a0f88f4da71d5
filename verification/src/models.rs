//! Rows of the metadata database, as plain values.
use vstd::prelude::*;

verus! {

/// One day of the trading calendar of an exchange.
#[derive(Clone, Debug)]
pub struct TradeCalendarRow {
    pub exchange: String,
    /// `YYYY-MM-DD`.
    pub trade_date: String,
    /// 1 when the exchange is open that day.
    pub is_open: i32,
    /// Where the day came from (`index_derived`, `tushare`).
    pub source: String,
    pub updated_at: String,
}

/// A key/value entry of the service's own metadata.
#[derive(Clone, Debug)]
pub struct SyncMetaRow {
    pub key: String,
    pub value: String,
    pub updated_at: String,
}

/// The log of one task run.
#[derive(Clone, Debug)]
pub struct TaskLogRow {
    pub id: i64,
    pub task_type: String,
    pub started_at: String,
    pub finished_at: Option<String>,
    pub status: String,
    pub done_count: i32,
    pub skipped_count: i32,
    pub failed_count: i32,
    pub detail: Option<String>,
}

/// A raised alert.
#[derive(Clone, Debug)]
pub struct AlertRow {
    pub id: i64,
    pub level: String,
    pub category: String,
    pub message: String,
    pub detail: Option<String>,
    pub acknowledged: i32,
    pub created_at: String,
}

/// The stored result of a scan.
#[derive(Clone, Debug)]
pub struct ScanResultRow {
    pub id: String,
    pub scan_type: String,
    pub status: String,
    pub result_json: Option<String>,
    pub created_at: String,
    pub finished_at: Option<String>,
}

/// Where an interrupted download stopped.
#[derive(Clone, Debug)]
pub struct DownloadCheckpointRow {
    pub change_name: String,
    pub market: String,
    pub last_symbol: String,
    pub progress: i32,
    pub total: i32,
    pub updated_at: String,
}

} // verus!
