use crate::error::{NightError, NightResult};
use crate::task::{Task, TaskId, TaskStatus, TaskView};
use crate::utils::{decimal_string, decimal_text};
use vstd::prelude::*;
use vstd::string::StringExecFns;

verus! {

/// What becomes of a task whose run failed or ran out of time.
pub enum Retry {
    /// Queue this copy of the task again; it counts one more retry.
    Again(Task),
    /// No retries are left: the task fails with this error.
    Exhausted(NightError),
}

/// The message of a task that had timed out before it could run.
pub open spec fn timed_out_text(id: TaskId) -> Seq<char> {
    "Task "@ + decimal_text(id as nat) + " timed out"@
}

/// The message of a task whose run failed with `error` and that has no retries left.
pub open spec fn failed_text(id: TaskId, error: NightError) -> Seq<char> {
    "Task "@ + decimal_text(id as nat) + " failed: "@ + error.text()
}

/// The message of a task that ran out of time and has no retries left.
pub open spec fn retry_limit_text(id: TaskId) -> Seq<char> {
    "Task "@ + decimal_text(id as nat) + " timed out and exceeded retry limit"@
}

/// The message of a task that carries no work to run.
pub open spec fn no_work_text() -> Seq<char> {
    "Failed to downcast task data"@
}

/// `task` after one more retry.
pub open spec fn retried(task: TaskView) -> TaskView {
    TaskView { retries: (task.retries + 1) as u32, ..task }
}

/// The error for a task that had timed out before it could run.
pub fn timed_out_error(task_id: TaskId) -> (e: NightError)
    ensures
        e is TaskExecutionError,
        e.detail() == timed_out_text(task_id),
{
    let mut m = String::from_str("Task ");
    m.append(decimal_string(task_id).as_str());
    m.append(" timed out");
    NightError::TaskExecutionError(m)
}

/// After a failed run: queue a copy with one more retry while retries are left, else
/// fail with the run's error.
pub fn retry_after_failure(task: &Task, error: &NightError) -> (r: Retry)
    ensures
        task@.retries < task@.max_retries ==> (r matches Retry::Again(t) && t@ == retried(task@)
            && t.has_work() == task.has_work()),
        task@.retries >= task@.max_retries ==> (r matches Retry::Exhausted(e)
            && e is TaskExecutionError && e.detail() == failed_text(task@.id, *error)),
{
    if task.can_retry() {
        let mut again = task.clone();
        again.increment_retries();
        Retry::Again(again)
    } else {
        let mut m = String::from_str("Task ");
        m.append(decimal_string(task.id()).as_str());
        m.append(" failed: ");
        m.append(error.to_string().as_str());
        Retry::Exhausted(NightError::TaskExecutionError(m))
    }
}

/// After a run that ran out of time: queue a copy with one more retry while retries are
/// left, else fail.
pub fn retry_after_timeout(task: &Task) -> (r: Retry)
    ensures
        task@.retries < task@.max_retries ==> (r matches Retry::Again(t) && t@ == retried(task@)
            && t.has_work() == task.has_work()),
        task@.retries >= task@.max_retries ==> (r matches Retry::Exhausted(e)
            && e is TaskExecutionError && e.detail() == retry_limit_text(task@.id)),
{
    if task.can_retry() {
        let mut again = task.clone();
        again.increment_retries();
        Retry::Again(again)
    } else {
        let mut m = String::from_str("Task ");
        m.append(decimal_string(task.id()).as_str());
        m.append(" timed out and exceeded retry limit");
        Retry::Exhausted(NightError::TaskExecutionError(m))
    }
}

/// Runs the work that `task` carries. A task that carries none fails; a failure of the
/// work is reported with its message.
pub fn run_task(task: &Task) -> (r: NightResult<()>)
    ensures
        task.has_work() ==> (r is Ok || (r matches Err(e) && e is TaskExecutionError)),
        !task.has_work() ==> (r matches Err(e) && e is TaskExecutionError && e.detail()
            == no_work_text()),
{
    match task.data() {
        Some(work) => match work.run() {
            Ok(()) => Ok(()),
            Err(message) => Err(NightError::TaskExecutionError(message)),
        },
        None => {
            proof {
                reveal_strlit("Failed to downcast task data");
            }
            Err(NightError::TaskExecutionError(String::from_str("Failed to downcast task data")))
        },
    }
}

/// How a run of a queued task ended.
pub enum RunOutcome {
    /// The work ran to its end.
    Finished,
    /// The work failed with this error.
    Failed(NightError),
    /// The work ran out of time.
    TimedOut,
    /// The task had timed out before it could run.
    Expired,
}

/// What the executor does after a run: the status it records for the task, the copy it
/// queues again if any, whether it marks the task completed with the scheduler, and what
/// it reports.
pub struct Settlement {
    pub status: TaskStatus,
    pub requeue: Option<Task>,
    pub complete: bool,
    pub report: NightResult<()>,
}

/// Decides what follows a run that ended with `outcome`: a finished task is recorded
/// completed; a failed or timed-out task is queued again with one more retry while
/// retries are left, and otherwise recorded failed with the error that is reported; a
/// task that had timed out before running is recorded failed, and its timeout reported.
pub fn settle(task: &Task, outcome: RunOutcome) -> (s: Settlement)
    ensures
        outcome is Finished ==> {
            &&& s.status == TaskStatus::Completed
            &&& s.requeue is None
            &&& s.complete
            &&& s.report is Ok
        },
        !(outcome is Finished) ==> !s.complete,
        outcome is Expired ==> {
            &&& s.status == TaskStatus::Failed
            &&& s.requeue is None
            &&& (s.report matches Err(e) && e is TaskExecutionError && e.detail() == timed_out_text(
                task@.id,
            ))
        },
        (outcome is Failed || outcome is TimedOut) && task@.retries < task@.max_retries ==> {
            &&& s.status == TaskStatus::Queued
            &&& (s.requeue matches Some(t) && t@ == retried(task@) && t.has_work()
                == task.has_work())
            &&& s.report is Ok
        },
        (outcome is Failed || outcome is TimedOut) && task@.retries >= task@.max_retries ==> {
            &&& s.status == TaskStatus::Failed
            &&& s.requeue is None
            &&& (s.report matches Err(e) && e is TaskExecutionError)
        },
        outcome matches RunOutcome::Failed(error) ==> (task@.retries >= task@.max_retries ==> (
        s.report matches Err(e) && e.detail() == failed_text(task@.id, error))),
        outcome is TimedOut && task@.retries >= task@.max_retries ==> (s.report matches Err(e)
            && e.detail() == retry_limit_text(task@.id)),
{
    let retry = match outcome {
        RunOutcome::Finished => {
            return Settlement {
                status: TaskStatus::Completed,
                requeue: None,
                complete: true,
                report: Ok(()),
            };
        },
        RunOutcome::Failed(error) => retry_after_failure(task, &error),
        RunOutcome::TimedOut => retry_after_timeout(task),
        RunOutcome::Expired => {
            return Settlement {
                status: TaskStatus::Failed,
                requeue: None,
                complete: false,
                report: Err(timed_out_error(task.id())),
            };
        },
    };
    match retry {
        Retry::Again(again) => Settlement {
            status: TaskStatus::Queued,
            requeue: Some(again),
            complete: false,
            report: Ok(()),
        },
        Retry::Exhausted(e) => Settlement {
            status: TaskStatus::Failed,
            requeue: None,
            complete: false,
            report: Err(e),
        },
    }
}

} // verus!
