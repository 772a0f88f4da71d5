//! The task queue's decisions: the kinds of task and their names, the
//! progress events, what pause, resume and abort do to the running task,
//! and how a finished task is logged.
//!
//! The running task is shared with the worker through a control value:
//! 0 runs, 1 pauses, 2 aborts.  The decisions here say which value to store
//! and which event to publish; the caller owns the shared cell and the
//! channel.
use vstd::prelude::*;
use crate::text::{chars_of, owned, push_str, push_signed, signed_decimal};
use crate::config::ScheduleConfig;
use crate::downloader::UpdateMode;
use crate::scanner::ScanKind;

verus! {

/// One progress event of a task.
#[derive(Clone, Debug)]
pub struct TaskProgress {
    pub task_id: i64,
    pub task_type: String,
    pub done: i32,
    pub skipped: i32,
    pub failed: i32,
    pub total: i32,
    pub message: String,
    pub finished: bool,
    pub paused: bool,
    pub aborted: bool,
}

/// The maintenance tasks the queue runs.
#[derive(Clone, Copy, Debug, PartialEq, Eq, Structural)]
pub enum TaskKind {
    CalendarSync,
    DailyFull,
    DailyIncrement,
    DailyGapFill,
    XdxrSync,
    AdjFactorSync,
    DailyBarScan,
    XdxrScan,
    AdjFactorScan,
}

/// The name a task kind is logged and published under.
pub open spec fn kind_name(k: TaskKind) -> Seq<char> {
    match k {
        TaskKind::CalendarSync => "calendar_sync"@,
        TaskKind::DailyFull => "daily_bar_full"@,
        TaskKind::DailyIncrement => "daily_bar_update"@,
        TaskKind::DailyGapFill => "daily_bar_gap_fill"@,
        TaskKind::XdxrSync => "xdxr_sync"@,
        TaskKind::AdjFactorSync => "adj_factor_update"@,
        TaskKind::DailyBarScan => "daily_bar_scan"@,
        TaskKind::XdxrScan => "xdxr_scan"@,
        TaskKind::AdjFactorScan => "adj_factor_scan"@,
    }
}

impl TaskKind {
    pub fn as_str(self) -> (r: &'static str)
        ensures
            r@ == kind_name(self),
    {
        match self {
            TaskKind::CalendarSync => "calendar_sync",
            TaskKind::DailyFull => "daily_bar_full",
            TaskKind::DailyIncrement => "daily_bar_update",
            TaskKind::DailyGapFill => "daily_bar_gap_fill",
            TaskKind::XdxrSync => "xdxr_sync",
            TaskKind::AdjFactorSync => "adj_factor_update",
            TaskKind::DailyBarScan => "daily_bar_scan",
            TaskKind::XdxrScan => "xdxr_scan",
            TaskKind::AdjFactorScan => "adj_factor_scan",
        }
    }
}

/// The control values shared with a running task.
pub open spec fn ctrl_normal() -> u8 {
    0
}

pub open spec fn ctrl_paused() -> u8 {
    1
}

pub open spec fn ctrl_aborted() -> u8 {
    2
}

/// The state of the running task as the queue sees it.  Its control value
/// lives beside it, in the cell shared with the worker.
#[derive(Clone, Debug)]
pub struct ActiveTask {
    pub task_id: i64,
    pub kind: TaskKind,
    pub paused: bool,
    pub aborted: bool,
    pub done: i32,
    pub skipped: i32,
    pub failed: i32,
    pub total: i32,
    pub message: String,
}

impl ActiveTask {
    /// A task that has just been started.
    pub fn starting(task_id: i64, kind: TaskKind) -> (r: ActiveTask)
        ensures
            r.task_id == task_id,
            r.kind == kind,
            !r.paused,
            !r.aborted,
            r.done == 0 && r.skipped == 0 && r.failed == 0,
            r.total == 100,
            r.message@ == "正在初始化任务..."@,
    {
        ActiveTask {
            task_id,
            kind,
            paused: false,
            aborted: false,
            done: 0,
            skipped: 0,
            failed: 0,
            total: 100,
            message: owned("正在初始化任务..."),
        }
    }
}

/// `正在拉取更新... 已同步: {done}, 跳过: {skipped}, 失败: {failed}`, with
/// `已暂停 (` ... `)` around the counts when paused.
pub open spec fn counts_message(paused: bool, done: i32, skipped: i32, failed: i32) -> Seq<char> {
    if paused {
        "正在拉取更新... 已暂停 (已同步: "@ + signed_decimal(done as int) + ", 跳过: "@
            + signed_decimal(skipped as int) + ", 失败: "@ + signed_decimal(failed as int) + ")"@
    } else {
        "正在拉取更新... 已同步: "@ + signed_decimal(done as int) + ", 跳过: "@ + signed_decimal(
            skipped as int,
        ) + ", 失败: "@ + signed_decimal(failed as int)
    }
}

fn counts_text(paused: bool, done: i32, skipped: i32, failed: i32) -> (r: String)
    ensures
        r@ == counts_message(paused, done, skipped, failed),
{
    let mut r = String::new();
    if paused {
        push_str(&mut r, "正在拉取更新... 已暂停 (已同步: ");
    } else {
        push_str(&mut r, "正在拉取更新... 已同步: ");
    }
    push_signed(&mut r, done as i64);
    push_str(&mut r, ", 跳过: ");
    push_signed(&mut r, skipped as i64);
    push_str(&mut r, ", 失败: ");
    push_signed(&mut r, failed as i64);
    if paused {
        push_str(&mut r, ")");
    }
    r
}

/// The event published when the running task is paused (`paused`) or
/// resumed: its counts, not finished, with the given paused flag.
pub open spec fn control_event_ok(t: ActiveTask, paused: bool, p: TaskProgress) -> bool {
    &&& p.task_id == t.task_id
    &&& p.task_type@ == kind_name(t.kind)
    &&& p.done == t.done && p.skipped == t.skipped && p.failed == t.failed && p.total == t.total
    &&& p.message@ == counts_message(paused, t.done, t.skipped, t.failed)
    &&& !p.finished
    &&& p.paused == paused
    &&& p.aborted == t.aborted
}

fn control_event(t: &ActiveTask, paused: bool) -> (p: TaskProgress)
    ensures
        control_event_ok(*t, paused, p),
{
    TaskProgress {
        task_id: t.task_id,
        task_type: owned(t.kind.as_str()),
        done: t.done,
        skipped: t.skipped,
        failed: t.failed,
        total: t.total,
        message: counts_text(paused, t.done, t.skipped, t.failed),
        finished: false,
        paused,
        aborted: t.aborted,
    }
}

/// Why a control request was refused: there is no running task.
#[derive(Clone, Copy, Debug, PartialEq, Eq, Structural)]
pub enum ControlError {
    NothingToPause,
    NothingToResume,
    NothingToAbort,
}

pub open spec fn control_error_text(e: ControlError) -> Seq<char> {
    match e {
        ControlError::NothingToPause => "没有运行中的任务可以暂停"@,
        ControlError::NothingToResume => "没有已暂停的任务可以恢复"@,
        ControlError::NothingToAbort => "没有运行中的任务可以中止"@,
    }
}

impl ControlError {
    pub fn message(self) -> (r: &'static str)
        ensures
            r@ == control_error_text(self),
    {
        match self {
            ControlError::NothingToPause => "没有运行中的任务可以暂停",
            ControlError::NothingToResume => "没有已暂停的任务可以恢复",
            ControlError::NothingToAbort => "没有运行中的任务可以中止",
        }
    }
}

/// The running task's record with its paused flag set to `paused`.
pub open spec fn with_paused(active: Option<ActiveTask>, paused: bool) -> Option<ActiveTask> {
    match active {
        Some(t) => Some(ActiveTask { paused: paused, ..t }),
        None => None,
    }
}

/// Pausing: refused without a running task; nothing to do when it is
/// already paused; otherwise mark the record paused, store the paused value
/// and publish the paused event.
pub fn pause_request(active: &mut Option<ActiveTask>) -> (r: Result<Option<(u8, TaskProgress)>, ControlError>)
    ensures
        *final(active) == with_paused(*old(active), true),
        match *old(active) {
            None => r == Err::<Option<(u8, TaskProgress)>, ControlError>(ControlError::NothingToPause),
            Some(t) => if t.paused {
                r == Ok::<Option<(u8, TaskProgress)>, ControlError>(None)
            } else {
                r matches Ok(Some((c, p))) && c == ctrl_paused() && control_event_ok(t, true, p)
            },
        },
{
    match active {
        None => Err(ControlError::NothingToPause),
        Some(t) => {
            if t.paused {
                Ok(None)
            } else {
                let e = control_event(t, true);
                t.paused = true;
                Ok(Some((1, e)))
            }
        },
    }
}

/// Resuming: refused without a running task; nothing to do when it is not
/// paused; otherwise clear the record's paused flag, store the running value
/// and publish the resumed event.
pub fn resume_request(active: &mut Option<ActiveTask>) -> (r: Result<Option<(u8, TaskProgress)>, ControlError>)
    ensures
        *final(active) == with_paused(*old(active), false),
        match *old(active) {
            None => r == Err::<Option<(u8, TaskProgress)>, ControlError>(ControlError::NothingToResume),
            Some(t) => if !t.paused {
                r == Ok::<Option<(u8, TaskProgress)>, ControlError>(None)
            } else {
                r matches Ok(Some((c, p))) && c == ctrl_normal() && control_event_ok(t, false, p)
            },
        },
{
    match active {
        None => Err(ControlError::NothingToResume),
        Some(t) => {
            if !t.paused {
                Ok(None)
            } else {
                let e = control_event(t, false);
                t.paused = false;
                Ok(Some((0, e)))
            }
        },
    }
}

/// Resume undoes pause: pausing a running task that is not paused marks it
/// paused, so that a resume then stores the running value and publishes a
/// not-paused event, and leaves the record as it was before the pause.
pub proof fn law_resume_undoes_pause(t: ActiveTask)
    requires
        !t.paused,
    ensures
        with_paused(Some(t), true) matches Some(u) && u.paused,
        with_paused(with_paused(Some(t), true), false) == Some(t),
{
}

/// Aborting: refused without a running task, otherwise store the aborted
/// value.
pub fn abort_request(active: &Option<ActiveTask>) -> (r: Result<u8, ControlError>)
    ensures
        active is None ==> r == Err::<u8, ControlError>(ControlError::NothingToAbort),
        active is Some ==> r == Ok::<u8, ControlError>(ctrl_aborted()),
{
    match active {
        None => Err(ControlError::NothingToAbort),
        Some(_) => Ok(2),
    }
}

/// Takes the queue's single slot: `true`, and the slot taken, when it was
/// free; `false`, and nothing changed, when a task already runs.
pub fn try_take_slot(running: &mut bool) -> (r: bool)
    ensures
        r == !*old(running),
        *final(running),
{
    if *running {
        false
    } else {
        *running = true;
        true
    }
}

/// Records a progress report of the task in its record, when there is one,
/// and gives the event to publish, whose paused and aborted flags come from
/// the record (both false without one).
pub fn report_progress(
    active: &mut Option<ActiveTask>,
    task_id: i64,
    kind: TaskKind,
    done: i32,
    skipped: i32,
    failed: i32,
    total: i32,
    message: &str,
    finished: bool,
) -> (p: TaskProgress)
    ensures
        match *old(active) {
            None => *final(active) is None && !p.paused && !p.aborted,
            Some(t) => *final(active) matches Some(u) && u.task_id == t.task_id && u.kind == t.kind
                && u.paused == t.paused && u.aborted == t.aborted && u.done == done && u.skipped
                == skipped && u.failed == failed && u.total == total && u.message@ == message@
                && p.paused == t.paused && p.aborted == t.aborted,
        },
        p.task_id == task_id,
        p.task_type@ == kind_name(kind),
        p.done == done && p.skipped == skipped && p.failed == failed && p.total == total,
        p.message@ == message@,
        p.finished == finished,
{
    let mut flags = (false, false);
    match active {
        Some(t) => {
            t.done = done;
            t.skipped = skipped;
            t.failed = failed;
            t.total = total;
            t.message = owned(message);
            flags = (t.paused, t.aborted);
        },
        None => {},
    }
    TaskProgress {
        task_id,
        task_type: owned(kind.as_str()),
        done,
        skipped,
        failed,
        total,
        message: owned(message),
        finished,
        paused: flags.0,
        aborted: flags.1,
    }
}

/// How a task run ended.
#[derive(Clone, Debug)]
pub enum TaskOutcome {
    Succeeded,
    /// The task returned an error, with its text.
    Failed(String),
    /// The task ran past its time limit.
    TimedOut,
}

/// What is written to the task log and raised as an alert for a task that
/// did not succeed.
#[derive(Clone, Debug)]
pub struct FailureRecord {
    pub status: String,
    pub done: i32,
    pub skipped: i32,
    pub failed: i32,
    pub detail: String,
    pub alert_message: String,
    pub alert_detail: String,
}

/// The record of a task that failed or timed out; nothing for a success.
pub fn failure_record(task_id: i64, outcome: &TaskOutcome) -> (r: Option<FailureRecord>)
    ensures
        match outcome {
            TaskOutcome::Succeeded => r is None,
            TaskOutcome::Failed(e) => r matches Some(f) && f.status@ == "failed"@ && f.done == 0
                && f.skipped == 0 && f.failed == 1 && f.detail@ == e@ && f.alert_message@ == "任务 "@
                + signed_decimal(task_id as int) + " 失败"@ && f.alert_detail@ == e@,
            TaskOutcome::TimedOut => r matches Some(f) && f.status@ == "timeout"@ && f.done == 0
                && f.skipped == 0 && f.failed == 1 && f.detail@ == "task timed out after 1 hour"@
                && f.alert_message@ == "任务 "@ + signed_decimal(task_id as int) + " 超时"@
                && f.alert_detail@ == "任务执行超过1小时，已自动终止"@,
        },
{
    match outcome {
        TaskOutcome::Succeeded => None,
        TaskOutcome::Failed(e) => {
            let mut m = String::new();
            push_str(&mut m, "任务 ");
            push_signed(&mut m, task_id);
            push_str(&mut m, " 失败");
            Some(
                FailureRecord {
                    status: owned("failed"),
                    done: 0,
                    skipped: 0,
                    failed: 1,
                    detail: owned(e.as_str()),
                    alert_message: m,
                    alert_detail: owned(e.as_str()),
                },
            )
        },
        TaskOutcome::TimedOut => {
            let mut m = String::new();
            push_str(&mut m, "任务 ");
            push_signed(&mut m, task_id);
            push_str(&mut m, " 超时");
            Some(
                FailureRecord {
                    status: owned("timeout"),
                    done: 0,
                    skipped: 0,
                    failed: 1,
                    detail: owned("task timed out after 1 hour"),
                    alert_message: m,
                    alert_detail: owned("任务执行超过1小时，已自动终止"),
                },
            )
        },
    }
}

/// The work a task kind stands for.
#[derive(Clone, Copy, Debug, PartialEq, Eq, Structural)]
pub enum TaskWork {
    Calendar,
    Daily(UpdateMode),
    Xdxr,
    AdjFactor,
    Scan(ScanKind),
}

pub open spec fn spec_task_work(k: TaskKind) -> TaskWork {
    match k {
        TaskKind::CalendarSync => TaskWork::Calendar,
        TaskKind::DailyFull => TaskWork::Daily(UpdateMode::Full),
        TaskKind::DailyIncrement => TaskWork::Daily(UpdateMode::Incremental),
        TaskKind::DailyGapFill => TaskWork::Daily(UpdateMode::GapFill),
        TaskKind::XdxrSync => TaskWork::Xdxr,
        TaskKind::AdjFactorSync => TaskWork::AdjFactor,
        TaskKind::DailyBarScan => TaskWork::Scan(ScanKind::DailyBars),
        TaskKind::XdxrScan => TaskWork::Scan(ScanKind::Xdxr),
        TaskKind::AdjFactorScan => TaskWork::Scan(ScanKind::AdjFactors),
    }
}

pub fn task_work(k: TaskKind) -> (r: TaskWork)
    ensures
        r == spec_task_work(k),
{
    match k {
        TaskKind::CalendarSync => TaskWork::Calendar,
        TaskKind::DailyFull => TaskWork::Daily(UpdateMode::Full),
        TaskKind::DailyIncrement => TaskWork::Daily(UpdateMode::Incremental),
        TaskKind::DailyGapFill => TaskWork::Daily(UpdateMode::GapFill),
        TaskKind::XdxrSync => TaskWork::Xdxr,
        TaskKind::AdjFactorSync => TaskWork::AdjFactor,
        TaskKind::DailyBarScan => TaskWork::Scan(ScanKind::DailyBars),
        TaskKind::XdxrScan => TaskWork::Scan(ScanKind::Xdxr),
        TaskKind::AdjFactorScan => TaskWork::Scan(ScanKind::AdjFactors),
    }
}

/// The message of a task's last progress event.
pub open spec fn completion_text(w: TaskWork) -> Seq<char> {
    match w {
        TaskWork::Calendar => "交易日历更新完成"@,
        TaskWork::Daily(_) => "日线更新完成"@,
        TaskWork::Xdxr => "XDXR 同步完成"@,
        TaskWork::AdjFactor => "复权因子更新完成"@,
        TaskWork::Scan(_) => "扫描完成"@,
    }
}

pub fn completion_message(w: TaskWork) -> (r: &'static str)
    ensures
        r@ == completion_text(w),
{
    match w {
        TaskWork::Calendar => "交易日历更新完成",
        TaskWork::Daily(_) => "日线更新完成",
        TaskWork::Xdxr => "XDXR 同步完成",
        TaskWork::AdjFactor => "复权因子更新完成",
        TaskWork::Scan(_) => "扫描完成",
    }
}

/// The log status of a finished daily update: `partial` when some stock
/// failed, `success` otherwise.
pub fn daily_status(failed: i32) -> (r: &'static str)
    ensures
        r@ == (if failed > 0 {
            "partial"@
        } else {
            "success"@
        }),
{
    if failed > 0 {
        "partial"
    } else {
        "success"
    }
}

/// The task an HTTP action names.  (`local-import` names no task kind.)
pub open spec fn action_task(a: Seq<char>) -> Option<TaskKind> {
    if a == "calendar-sync"@ {
        Some(TaskKind::CalendarSync)
    } else if a == "daily-full"@ {
        Some(TaskKind::DailyFull)
    } else if a == "daily-increment"@ {
        Some(TaskKind::DailyIncrement)
    } else if a == "daily-gap-fill"@ {
        Some(TaskKind::DailyGapFill)
    } else if a == "xdxr-sync"@ {
        Some(TaskKind::XdxrSync)
    } else if a == "adj-factor-sync"@ {
        Some(TaskKind::AdjFactorSync)
    } else if a == "daily_bars"@ {
        Some(TaskKind::DailyBarScan)
    } else if a == "xdxr"@ {
        Some(TaskKind::XdxrScan)
    } else if a == "adj_factors"@ {
        Some(TaskKind::AdjFactorScan)
    } else {
        None
    }
}

fn text_is(v: &Vec<char>, lit: &str) -> (r: bool)
    ensures
        r == (v@ == lit@),
{
    let w = chars_of(lit);
    crate::text::chars_eq(v, &w)
}

pub fn task_for_action(action: &str) -> (r: Option<TaskKind>)
    ensures
        r == action_task(action@),
{
    let v = chars_of(action);
    if text_is(&v, "calendar-sync") {
        Some(TaskKind::CalendarSync)
    } else if text_is(&v, "daily-full") {
        Some(TaskKind::DailyFull)
    } else if text_is(&v, "daily-increment") {
        Some(TaskKind::DailyIncrement)
    } else if text_is(&v, "daily-gap-fill") {
        Some(TaskKind::DailyGapFill)
    } else if text_is(&v, "xdxr-sync") {
        Some(TaskKind::XdxrSync)
    } else if text_is(&v, "adj-factor-sync") {
        Some(TaskKind::AdjFactorSync)
    } else if text_is(&v, "daily_bars") {
        Some(TaskKind::DailyBarScan)
    } else if text_is(&v, "xdxr") {
        Some(TaskKind::XdxrScan)
    } else if text_is(&v, "adj_factors") {
        Some(TaskKind::AdjFactorScan)
    } else {
        None
    }
}

/// The task that runs a scan.
pub fn scan_task(k: ScanKind) -> (r: TaskKind)
    ensures
        spec_task_work(r) == TaskWork::Scan(k),
{
    match k {
        ScanKind::DailyBars => TaskKind::DailyBarScan,
        ScanKind::Xdxr => TaskKind::XdxrScan,
        ScanKind::AdjFactors => TaskKind::AdjFactorScan,
    }
}

/// The scheduled jobs: each cron expression with the task it enqueues.
pub fn scheduled_jobs(s: &ScheduleConfig) -> (r: Vec<(String, TaskKind)>)
    ensures
        r@.len() == 5,
        r@[0].0@ == s.daily_increment_cron@ && r@[0].1 == TaskKind::DailyIncrement,
        r@[1].0@ == s.xdxr_sync_cron@ && r@[1].1 == TaskKind::XdxrSync,
        r@[2].0@ == s.adj_factor_sync_cron@ && r@[2].1 == TaskKind::AdjFactorSync,
        r@[3].0@ == s.calendar_check_cron@ && r@[3].1 == TaskKind::CalendarSync,
        r@[4].0@ == s.weekly_scan_cron@ && r@[4].1 == TaskKind::DailyBarScan,
{
    let mut r: Vec<(String, TaskKind)> = Vec::new();
    r.push((owned(s.daily_increment_cron.as_str()), TaskKind::DailyIncrement));
    r.push((owned(s.xdxr_sync_cron.as_str()), TaskKind::XdxrSync));
    r.push((owned(s.adj_factor_sync_cron.as_str()), TaskKind::AdjFactorSync));
    r.push((owned(s.calendar_check_cron.as_str()), TaskKind::CalendarSync));
    r.push((owned(s.weekly_scan_cron.as_str()), TaskKind::DailyBarScan));
    r
}

} // verus!
