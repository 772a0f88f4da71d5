use tdx_maintain_core::task::{
    abort_request, completion_message, daily_status, failure_record, pause_request, report_progress,
    resume_request, scheduled_jobs, task_for_action, task_work, try_take_slot, ActiveTask,
    ControlError, TaskKind, TaskOutcome, TaskWork,
};
use tdx_maintain_core::config::ScheduleConfig;
use tdx_maintain_core::downloader::UpdateMode;
use tdx_maintain_core::scanner::ScanKind;

#[test]
fn task_kind_names() {
    assert_eq!(TaskKind::CalendarSync.as_str(), "calendar_sync");
    assert_eq!(TaskKind::DailyFull.as_str(), "daily_bar_full");
    assert_eq!(TaskKind::DailyIncrement.as_str(), "daily_bar_update");
    assert_eq!(TaskKind::DailyGapFill.as_str(), "daily_bar_gap_fill");
    assert_eq!(TaskKind::XdxrSync.as_str(), "xdxr_sync");
    assert_eq!(TaskKind::AdjFactorSync.as_str(), "adj_factor_update");
    assert_eq!(TaskKind::DailyBarScan.as_str(), "daily_bar_scan");
    assert_eq!(TaskKind::XdxrScan.as_str(), "xdxr_scan");
    assert_eq!(TaskKind::AdjFactorScan.as_str(), "adj_factor_scan");
}

#[test]
fn control_requests_without_task_are_refused() {
    let mut none: Option<ActiveTask> = None;
    assert_eq!(pause_request(&mut none).err(), Some(ControlError::NothingToPause));
    assert_eq!(resume_request(&mut none).err(), Some(ControlError::NothingToResume));
    assert!(none.is_none());
    assert_eq!(abort_request(&none), Err(ControlError::NothingToAbort));
    assert_eq!(ControlError::NothingToPause.message(), "没有运行中的任务可以暂停");
    assert_eq!(ControlError::NothingToResume.message(), "没有已暂停的任务可以恢复");
    assert_eq!(ControlError::NothingToAbort.message(), "没有运行中的任务可以中止");
}

#[test]
fn pause_publishes_paused_counts() {
    let mut t = ActiveTask::starting(7, TaskKind::DailyIncrement);
    assert_eq!(t.message, "正在初始化任务...");
    assert_eq!(t.total, 100);
    t.done = 3;
    t.skipped = 1;
    t.failed = -2;
    let mut active = Some(t);
    let (ctrl, ev) = pause_request(&mut active).unwrap().unwrap();
    assert_eq!(ctrl, 1);
    assert!(ev.paused);
    assert!(!ev.finished);
    assert_eq!(ev.task_type, "daily_bar_update");
    assert_eq!(ev.message, "正在拉取更新... 已暂停 (已同步: 3, 跳过: 1, 失败: -2)");
    assert!(active.as_ref().unwrap().paused);
    // A second pause has nothing to do.
    assert!(pause_request(&mut active).unwrap().is_none());
    // Resuming continues the task with its counts.
    let (ctrl, ev) = resume_request(&mut active).unwrap().unwrap();
    assert_eq!(ctrl, 0);
    assert!(!ev.paused);
    assert_eq!(ev.message, "正在拉取更新... 已同步: 3, 跳过: 1, 失败: -2");
    let back = active.as_ref().unwrap();
    assert!(!back.paused);
    assert_eq!(back.task_id, 7);
    assert_eq!(back.done, 3);
    assert!(resume_request(&mut active).unwrap().is_none());
    assert_eq!(abort_request(&active), Ok(2));
}

#[test]
fn resume_of_paused_task() {
    let mut t = ActiveTask::starting(1, TaskKind::DailyFull);
    t.paused = true;
    let mut active = Some(t);
    assert!(pause_request(&mut active).unwrap().is_none());
    let (ctrl, ev) = resume_request(&mut active).unwrap().unwrap();
    assert_eq!(ctrl, 0);
    assert!(!ev.paused);
    assert_eq!(ev.message, "正在拉取更新... 已同步: 0, 跳过: 0, 失败: 0");
}

#[test]
fn single_slot() {
    let mut running = false;
    assert!(try_take_slot(&mut running));
    assert!(running);
    assert!(!try_take_slot(&mut running));
}

#[test]
fn progress_updates_record() {
    let mut active = Some(ActiveTask::starting(5, TaskKind::XdxrSync));
    let ev = report_progress(&mut active, 5, TaskKind::XdxrSync, 1, 2, 3, 4, "msg", true);
    assert_eq!(ev.message, "msg");
    assert!(ev.finished);
    let t = active.unwrap();
    assert_eq!((t.done, t.skipped, t.failed, t.total), (1, 2, 3, 4));
    assert_eq!(t.message, "msg");
    let mut none: Option<ActiveTask> = None;
    let ev = report_progress(&mut none, 5, TaskKind::XdxrSync, 0, 0, 0, 1, "x", false);
    assert!(!ev.paused && !ev.aborted);
}

#[test]
fn failure_records() {
    assert!(failure_record(1, &TaskOutcome::Succeeded).is_none());
    let f = failure_record(12, &TaskOutcome::Failed("boom".to_string())).unwrap();
    assert_eq!(f.status, "failed");
    assert_eq!((f.done, f.skipped, f.failed), (0, 0, 1));
    assert_eq!(f.detail, "boom");
    assert_eq!(f.alert_message, "任务 12 失败");
    let t = failure_record(12, &TaskOutcome::TimedOut).unwrap();
    assert_eq!(t.status, "timeout");
    assert_eq!(t.detail, "task timed out after 1 hour");
    assert_eq!(t.alert_message, "任务 12 超时");
    assert_eq!(t.alert_detail, "任务执行超过1小时，已自动终止");
}

#[test]
fn work_of_kinds() {
    assert_eq!(task_work(TaskKind::DailyGapFill), TaskWork::Daily(UpdateMode::GapFill));
    assert_eq!(task_work(TaskKind::XdxrScan), TaskWork::Scan(ScanKind::Xdxr));
    assert_eq!(completion_message(TaskWork::Calendar), "交易日历更新完成");
    assert_eq!(completion_message(TaskWork::Daily(UpdateMode::Full)), "日线更新完成");
    assert_eq!(daily_status(1), "partial");
    assert_eq!(daily_status(0), "success");
}

#[test]
fn actions_and_schedule() {
    assert_eq!(task_for_action("daily-increment"), Some(TaskKind::DailyIncrement));
    assert_eq!(task_for_action("adj_factors"), Some(TaskKind::AdjFactorScan));
    assert_eq!(task_for_action("local-import"), None);
    assert_eq!(task_for_action("bogus"), None);
    let s = ScheduleConfig {
        daily_increment_cron: "a".to_string(),
        xdxr_sync_cron: "b".to_string(),
        adj_factor_sync_cron: "c".to_string(),
        calendar_check_cron: "d".to_string(),
        weekly_scan_cron: "e".to_string(),
    };
    let jobs = scheduled_jobs(&s);
    assert_eq!(jobs.len(), 5);
    assert_eq!(jobs[3], ("d".to_string(), TaskKind::CalendarSync));
    assert_eq!(jobs[4], ("e".to_string(), TaskKind::DailyBarScan));
}
