//! The sections of the service configuration that the maintenance logic
//! reads, and the rules it derives from them.
use vstd::prelude::*;
use crate::tdx::paths::Market;

verus! {

/// Where the HTTP server listens.
#[derive(Clone, Debug)]
pub struct ServerConfig {
    pub host: String,
    pub port: u16,
}

/// Directories and files the service works with.
#[derive(Clone, Debug)]
pub struct PathsConfig {
    pub tdx_data_dir: String,
    pub metadata_db_path: String,
    pub backup_dir: String,
    pub parquet_dir: String,
}

/// The index whose bars define the trading calendar.
#[derive(Clone, Debug)]
pub struct CalendarConfig {
    /// `0` Shenzhen, `1` Shanghai, `2` Beijing; anything else reads as
    /// Shanghai.
    pub benchmark_index_market: i32,
    pub benchmark_index_symbol: String,
    pub exchange: String,
}

/// Access to the Tushare HTTP API.
#[derive(Clone, Debug)]
pub struct TushareConfig {
    pub enabled: bool,
    pub token: String,
    pub base_url: String,
}

/// Requests per second allowed to the quote servers at different times.
#[derive(Clone, Copy, Debug)]
pub struct RateLimitConfig {
    pub market_hours_rps: u32,
    pub pre_post_market_rps: u32,
    pub off_hours_rps: u32,
}

/// Cron expressions of the scheduled jobs.
#[derive(Clone, Debug)]
pub struct ScheduleConfig {
    pub daily_increment_cron: String,
    pub xdxr_sync_cron: String,
    pub adj_factor_sync_cron: String,
    pub calendar_check_cron: String,
    pub weekly_scan_cron: String,
}

/// How often a failed download is tried again.
#[derive(Clone, Copy, Debug)]
pub struct RetryConfig {
    pub max_attempts: u32,
    pub backoff_ms: u64,
}

pub open spec fn benchmark_market_of(code: i32) -> Market {
    if code == 0 {
        Market::Sz
    } else if code == 2 {
        Market::Bj
    } else {
        Market::Sh
    }
}

impl CalendarConfig {
    /// The market of the benchmark index.
    pub fn benchmark_market(&self) -> (r: Market)
        ensures
            r == benchmark_market_of(self.benchmark_index_market),
    {
        match self.benchmark_index_market {
            0 => Market::Sz,
            1 => Market::Sh,
            2 => Market::Bj,
            _ => Market::Sh,
        }
    }
}

impl TushareConfig {
    /// Tushare is used only when enabled and given a token.
    pub fn usable(&self) -> (r: bool)
        ensures
            r == (self.enabled && self.token@.len() > 0),
    {
        self.enabled && !self.token.as_str().is_empty()
    }
}

/// First and last minute of the trading session, from midnight (09:30 and
/// 15:00).
pub open spec fn session_open_minute() -> int {
    570
}

pub open spec fn session_close_minute() -> int {
    900
}

/// The rate that applies on weekday `weekday` (Monday is 1) at
/// `hour:minute`: the off-hours rate at weekends, the market-hours rate
/// from 09:30 to 15:00 inclusive, the pre/post-market rate otherwise.
pub open spec fn rps_at_spec(c: RateLimitConfig, hour: int, minute: int, weekday: int) -> u32 {
    let m = hour * 60 + minute;
    if weekday > 5 {
        c.off_hours_rps
    } else if session_open_minute() <= m <= session_close_minute() {
        c.market_hours_rps
    } else {
        c.pre_post_market_rps
    }
}

impl RateLimitConfig {
    /// The rate in force at local time `hour:minute` on weekday `weekday`
    /// (Monday is 1, Sunday 7).
    pub fn rps_at(&self, hour: u32, minute: u32, weekday: u32) -> (r: u32)
        requires
            hour * 60 + minute <= u32::MAX,
        ensures
            r == rps_at_spec(*self, hour as int, minute as int, weekday as int),
    {
        if weekday > 5 {
            return self.off_hours_rps;
        }
        let minutes = hour * 60 + minute;
        if 9 * 60 + 30 <= minutes && minutes <= 15 * 60 {
            self.market_hours_rps
        } else if minutes < 9 * 60 + 30 || minutes > 15 * 60 {
            self.pre_post_market_rps
        } else {
            self.off_hours_rps
        }
    }
}

impl RetryConfig {
    /// Number of attempts per stock, at least one.
    pub fn attempts(&self) -> (r: u32)
        ensures
            r == (if self.max_attempts >= 1 {
                self.max_attempts
            } else {
                1
            }),
    {
        if self.max_attempts >= 1 {
            self.max_attempts
        } else {
            1
        }
    }
}

} // verus!
