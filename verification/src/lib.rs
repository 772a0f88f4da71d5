//! Maintenance of a local TDX market-data directory: the `.day` file
//! format, the trading calendar, integrity and freshness checks, the daily
//! download bookkeeping, adjustment factors and the Qlib export.
pub mod text;
pub mod date;
pub mod tdx;
pub mod checker;
pub mod tdx_servers;
pub mod qlib;
pub mod scanner;
pub mod config;
pub mod downloader;
pub mod task;
pub mod models;
pub mod calendar;
pub mod tushare;
pub mod adj_factor;
pub mod dashboard;
