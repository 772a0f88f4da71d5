use tdx_maintain_core::downloader::{
    abort_checkpoint, market_from_code, market_to_rustdx, next_list_offset, resume_message,
    resume_start_index, retry_message, stock_step, wants_retry, xdxr_key, DownloadStats, StockStep,
};
use tdx_maintain_core::config::{CalendarConfig, RateLimitConfig, RetryConfig, TushareConfig};
use tdx_maintain_core::downloader::{DailyRun, RetryStep, RunStep, StockOutcome};
use tdx_maintain_core::tdx::paths::Market;

#[test]
fn market_codes() {
    assert_eq!(market_to_rustdx(Market::Sz), 0);
    assert_eq!(market_to_rustdx(Market::Sh), 1);
    assert_eq!(market_to_rustdx(Market::Bj), 0);
    assert_eq!(market_from_code("830001", 0), Market::Bj);
    assert_eq!(market_from_code("430001", 0), Market::Bj);
    assert_eq!(market_from_code("000001", 0), Market::Sz);
    assert_eq!(market_from_code("830001", 1), Market::Sh);
}

#[test]
fn list_paging() {
    assert_eq!(next_list_offset(0, 1000), Some(1000));
    assert_eq!(next_list_offset(2000, 999), None);
}

fn stocks(v: &[&str]) -> Vec<(Market, String)> {
    v.iter().map(|s| (Market::Sh, s.to_string())).collect()
}

#[test]
fn resume_after_checkpoint() {
    let s = stocks(&["600000", "600001", "600002"]);
    assert_eq!(resume_start_index(&s, "600001"), 2);
    assert_eq!(resume_start_index(&s, "600002"), 3);
    // An unknown checkpoint resumes after the first stock.
    assert_eq!(resume_start_index(&s, "999999"), 1);
    assert_eq!(abort_checkpoint(&s, 0), None);
    assert_eq!(abort_checkpoint(&s, 2), Some(("600001".to_string(), 2)));
}

#[test]
fn stats_bookkeeping() {
    let mut st = DownloadStats::new(5, 10);
    st.record_done();
    st.record_skipped();
    st.record_failure(Market::Sh, "600000", "timeout");
    st.record_write_failure(Market::Sz, "000001", "disk full");
    assert_eq!((st.done, st.skipped, st.failed, st.total), (6, 1, 2, 10));
    assert_eq!(
        st.failures,
        vec!["sh#600000: timeout".to_string(), "sz#000001: 写入失败 disk full".to_string()]
    );
    st.record_retry_success("600000");
    assert_eq!((st.done, st.failed), (7, 1));
    assert_eq!(st.failures, vec!["sz#000001: 写入失败 disk full".to_string()]);
    assert_eq!(st.progress_message(), "正在拉取更新... 已同步: 7, 跳过: 1, 失败: 1");
    assert_eq!(st.import_summary(), "本地数据校验完成: 7 有效, 1 跳过, 1 失败");
}

#[test]
fn control_and_retry_decisions() {
    assert_eq!(stock_step(2), StockStep::Abort);
    assert_eq!(stock_step(1), StockStep::Wait);
    assert_eq!(stock_step(0), StockStep::Proceed);
    assert!(wants_retry(3, 2));
    assert!(!wants_retry(3, 1));
    assert!(!wants_retry(0, 5));
    assert_eq!(retry_message(4, 2, 3), "重试 4 个失败的股票 (第 2/3 轮)...");
    assert_eq!(resume_message("600001", 50, 200), "检测到断点，从 600001 恢复 (进度 50/200)");
}

#[test]
fn xdxr_keys() {
    let k = xdxr_key(1, "600000", 20240615, 1).unwrap();
    assert_eq!(k.market, 1);
    assert_eq!(k.symbol, "600000");
    assert_eq!(k.ex_date, "2024-06-15");
    assert_eq!(k.category, 1);
    let k = xdxr_key(0, "830001XY", 20240105, 14).unwrap();
    assert_eq!(k.market, 2);
    assert_eq!(k.symbol, "830001");
    assert_eq!(k.ex_date, "2024-01-05");
    assert_eq!(xdxr_key(0, "000001", 20240105, 1).unwrap().market, 0);
    assert!(xdxr_key(0, "000001", 20240105, 2).is_none());
}

#[test]
fn config_rules() {
    let r = RateLimitConfig { market_hours_rps: 10, pre_post_market_rps: 20, off_hours_rps: 50 };
    assert_eq!(r.rps_at(10, 0, 1), 10);
    assert_eq!(r.rps_at(9, 30, 3), 10);
    assert_eq!(r.rps_at(15, 0, 5), 10);
    assert_eq!(r.rps_at(15, 1, 5), 20);
    assert_eq!(r.rps_at(8, 0, 2), 20);
    assert_eq!(r.rps_at(10, 0, 6), 50);
    assert_eq!(RetryConfig { max_attempts: 0, backoff_ms: 1 }.attempts(), 1);
    assert_eq!(RetryConfig { max_attempts: 5, backoff_ms: 1 }.attempts(), 5);
    let t = TushareConfig { enabled: true, token: "".to_string(), base_url: "u".to_string() };
    assert!(!t.usable());
    let t = TushareConfig { enabled: true, token: "x".to_string(), base_url: "u".to_string() };
    assert!(t.usable());
    let c = |m: i32| CalendarConfig {
        benchmark_index_market: m,
        benchmark_index_symbol: "000001".to_string(),
        exchange: "SSE".to_string(),
    };
    assert_eq!(c(0).benchmark_market(), Market::Sz);
    assert_eq!(c(1).benchmark_market(), Market::Sh);
    assert_eq!(c(2).benchmark_market(), Market::Bj);
    assert_eq!(c(9).benchmark_market(), Market::Sh);
}

#[test]
fn daily_run_steps_and_retries() {
    let s = stocks(&["600000", "600001", "600002"]);
    let mut run = DailyRun::new(s, 0);
    assert_eq!(run.stats.total, 3);
    assert!(matches!(run.step(0), RunStep::Download(0)));
    let cp = run.record(StockOutcome::Written).unwrap();
    assert_eq!(cp.0, "600000");
    assert_eq!(cp.1, 0);
    assert_eq!(cp.2, "正在拉取更新... 已同步: 1, 跳过: 0, 失败: 0");
    // A pause keeps the run at the same stock: asked again after a resume it
    // fetches that stock, after an abort it stops with the checkpoint.
    assert!(matches!(run.step(1), RunStep::Wait));
    assert!(matches!(run.step(1), RunStep::Wait));
    assert!(matches!(run.step(0), RunStep::Download(1)));
    match run.step(2) {
        RunStep::Abort(Some((sym, i))) => {
            assert_eq!(sym, "600000");
            assert_eq!(i, 1);
        }
        _ => panic!("expected abort"),
    }
    assert!(run.record(StockOutcome::DownloadFailed("timeout".to_string())).is_none());
    assert!(run.record(StockOutcome::WriteFailed("disk".to_string())).is_none());
    assert!(matches!(run.step(0), RunStep::Finished));
    assert_eq!(run.stats.failed, 2);
    assert_eq!(
        run.stats.failures,
        vec!["sh#600001: timeout".to_string(), "sh#600002: 写入失败 disk".to_string()]
    );
    assert!(run.first_retry_round(1).is_none());
    let mut round = run.first_retry_round(3).unwrap();
    assert_eq!(round.message(), "重试 2 个失败的股票 (第 2/3 轮)...");
    assert_eq!(round.step(0), RetryStep::Try(0));
    run.record_retry(&mut round, true);
    assert_eq!(round.step(0), RetryStep::Try(1));
    run.record_retry(&mut round, false);
    assert_eq!(round.step(0), RetryStep::RoundOver);
    assert_eq!((run.stats.done, run.stats.failed), (2, 1));
    assert_eq!(run.stats.failures, vec!["sh#600002: 写入失败 disk".to_string()]);
    let next = round.advance().unwrap();
    assert_eq!(next.attempt, 3);
    assert_eq!(next.list, vec![(Market::Sh, "600002".to_string())]);
    assert_eq!(next.step(2), RetryStep::RoundOver);
    assert!(next.advance().is_none());
}
