use night::error::NightError;
use night::executor::{
    retry_after_failure, retry_after_timeout, run_task, settle, timed_out_error, Retry, RunOutcome,
};
use night::persistence::Persistence;
use night::queue::{PriorityQueue, TaskQueue};
use night::scheduler::Scheduler;
use night::task::{Runnable, Task, TaskStatus};
use std::sync::Arc;
use std::time::Duration;

struct Succeeds;

impl Runnable for Succeeds {
    fn run(&self) -> Result<(), String> {
        Ok(())
    }
}

struct Fails;

impl Runnable for Fails {
    fn run(&self) -> Result<(), String> {
        Err("disk full".to_string())
    }
}

fn task(id: u64, priority: u8, deps: Vec<u64>) -> Task {
    Task::new(id, priority, Arc::new(Succeeds), 2, None, deps)
}

fn message_of(e: NightError) -> String {
    match e {
        NightError::TaskExecutionError(m)
        | NightError::QueueOperationError(m)
        | NightError::TaskNotFound(m)
        | NightError::SerializationError(m)
        | NightError::DeserializationError(m)
        | NightError::PersistenceError(m)
        | NightError::NetworkError(m)
        | NightError::DistributedError(m) => m,
    }
}

#[test]
fn priority_queue_serves_highest_priority_first_then_arrival_order() {
    let mut queue = PriorityQueue::new();
    assert!(queue.is_empty());
    queue.push(Arc::new(task(1, 1, vec![])));
    queue.push(Arc::new(task(2, 5, vec![])));
    queue.push(Arc::new(task(3, 1, vec![])));
    queue.push(Arc::new(task(4, 5, vec![])));
    queue.push(Arc::new(task(5, 0, vec![])));
    assert!(!queue.is_empty());
    let order: Vec<u64> = std::iter::from_fn(|| queue.pop()).map(|t| t.id()).collect();
    assert_eq!(order, vec![2, 4, 1, 3, 5]);
    assert!(queue.is_empty());
    assert!(queue.pop().is_none());
}

#[test]
fn task_queue_finds_the_last_task_with_an_id() {
    let mut queue = TaskQueue::new();
    assert!(queue.is_empty());
    let mut first = task(7, 3, vec![]);
    first.set_status(TaskStatus::Running);
    queue.push(first);
    queue.push(task(8, 3, vec![]));
    queue.push(task(7, 9, vec![]));
    let found = queue.get_task(7).unwrap();
    assert_eq!(found.priority(), 9);
    assert_eq!(found.status, TaskStatus::Queued);
    assert!(queue.get_task(99).is_none());
    assert_eq!(queue.pop().unwrap().id(), 7);
    assert_eq!(queue.pop().unwrap().id(), 7);
    assert_eq!(queue.pop().unwrap().id(), 8);
    assert!(queue.is_empty());
    // The lookup record outlives the queue.
    assert_eq!(queue.get_task(8).unwrap().id(), 8);
}

#[test]
fn scheduler_hands_out_only_ready_tasks() {
    let mut scheduler = Scheduler::new(TaskQueue::new());
    assert!(scheduler.add_task(task(2, 1, vec![1])).is_ok());
    assert!(scheduler.add_task(task(1, 1, vec![])).is_ok());
    // Task 2 is not ready: it goes behind task 1, which is handed out.
    let next = scheduler.next_task().ok().unwrap().unwrap();
    assert_eq!(next.id(), 1);
    assert!(scheduler.complete_task(1).is_ok());
    // The completion queues task 2 once more.
    let next = scheduler.next_task().ok().unwrap().unwrap();
    assert_eq!(next.id(), 2);
    let next = scheduler.next_task().ok().unwrap().unwrap();
    assert_eq!(next.id(), 2);
    assert!(scheduler.next_task().ok().unwrap().is_none());
}

#[test]
fn scheduler_prefers_higher_priorities() {
    let mut scheduler = Scheduler::new(TaskQueue::new());
    scheduler.add_task(task(1, 0, vec![])).ok().unwrap();
    scheduler.add_task(task(2, 200, vec![])).ok().unwrap();
    assert_eq!(scheduler.next_task().ok().unwrap().unwrap().id(), 2);
    assert_eq!(scheduler.next_task().ok().unwrap().unwrap().id(), 1);
}

#[test]
fn completing_an_unrelated_task_queues_nothing() {
    let mut scheduler = Scheduler::new(TaskQueue::new());
    scheduler.add_task(task(1, 0, vec![])).ok().unwrap();
    scheduler.complete_task(42).ok().unwrap();
    assert_eq!(scheduler.next_task().ok().unwrap().unwrap().id(), 1);
    assert!(scheduler.next_task().ok().unwrap().is_none());
}

#[test]
fn failures_are_retried_until_the_limit() {
    let t = task(5, 1, vec![]);
    let error = NightError::NetworkError("down".to_string());
    let again = match retry_after_failure(&t, &error) {
        Retry::Again(again) => again,
        Retry::Exhausted(_) => panic!("two retries are allowed"),
    };
    assert_eq!(again.retries(), 1);
    assert_eq!(again.id(), 5);
    let again = match retry_after_failure(&again, &error) {
        Retry::Again(again) => again,
        Retry::Exhausted(_) => panic!("one retry is left"),
    };
    assert_eq!(again.retries(), 2);
    assert!(!again.can_retry());
    match retry_after_failure(&again, &error) {
        Retry::Exhausted(NightError::TaskExecutionError(m)) => {
            assert_eq!(m, "Task 5 failed: Network error: down")
        }
        _ => panic!("no retries are left"),
    }
    match retry_after_timeout(&again) {
        Retry::Exhausted(e) => {
            assert_eq!(message_of(e), "Task 5 timed out and exceeded retry limit")
        }
        _ => panic!("no retries are left"),
    }
    assert!(matches!(retry_after_timeout(&t), Retry::Again(_)));
    assert_eq!(message_of(timed_out_error(1234567890)), "Task 1234567890 timed out");
}

#[test]
fn running_work() {
    assert!(run_task(&task(1, 0, vec![])).is_ok());
    let failing = Task::new(2, 0, Arc::new(Fails), 0, None, vec![]);
    match run_task(&failing) {
        Err(NightError::TaskExecutionError(m)) => assert_eq!(m, "disk full"),
        _ => panic!("the work fails"),
    }
    let restored = Task::restore(3, 0, std::time::Instant::now(), None, None, 0, 0, vec![], TaskStatus::Queued);
    match run_task(&restored) {
        Err(NightError::TaskExecutionError(m)) => assert_eq!(m, "Failed to downcast task data"),
        _ => panic!("a restored task carries no work"),
    }
}

#[test]
fn task_timing_and_retries() {
    let mut t = Task::new(9, 4, Arc::new(Succeeds), 1, Some(Duration::from_secs(3600)), vec![1, 2]);
    assert_eq!(t.id(), 9);
    assert_eq!(t.priority(), 4);
    assert_eq!(t.dependencies(), &[1, 2]);
    assert_eq!(t.timeout(), Some(Duration::from_secs(3600)));
    assert!(t.is_ready());
    assert!(!t.has_timed_out());
    assert!(t.can_retry());
    t.increment_retries();
    assert!(!t.can_retry());
    t.set_run_after(std::time::Instant::now() + Duration::from_secs(3600));
    assert!(!t.is_ready());
    let no_timeout = task(1, 0, vec![]);
    assert!(!no_timeout.has_timed_out());
    let expired = Task::new(2, 0, Arc::new(Succeeds), 0, Some(Duration::from_nanos(0)), vec![]);
    let start = std::time::Instant::now();
    while start.elapsed() < Duration::from_millis(2) {}
    assert!(expired.has_timed_out());
}

#[test]
fn statuses_and_errors_show_their_names() {
    assert_eq!(TaskStatus::Queued.to_string(), "Queued");
    assert_eq!(TaskStatus::Running.to_string(), "Running");
    assert_eq!(TaskStatus::Completed.to_string(), "Completed");
    assert_eq!(TaskStatus::Failed.to_string(), "Failed");
    assert_eq!(TaskStatus::Cancelled.to_string(), "Cancelled");
    let cases = vec![
        (NightError::TaskExecutionError("m".to_string()), "Task execution error: m"),
        (NightError::QueueOperationError("m".to_string()), "Queue operation error: m"),
        (NightError::TaskNotFound("m".to_string()), "Task not found: m"),
        (NightError::SerializationError("m".to_string()), "Serialization error: m"),
        (NightError::DeserializationError("m".to_string()), "Deserialization error: m"),
        (NightError::PersistenceError("m".to_string()), "Persistence error: m"),
        (NightError::NetworkError("m".to_string()), "Network error: m"),
        (NightError::DistributedError("m".to_string()), "Distributed error: m"),
    ];
    for (error, text) in cases {
        assert_eq!(error.to_string(), text);
    }
}

#[test]
fn persistence_keeps_its_path() {
    let p = Persistence::new("/tmp/state.json".to_string());
    assert_eq!(p.file_path(), "/tmp/state.json");
}

#[test]
fn readiness_and_timeouts_at_given_readings() {
    let start = std::time::Instant::now();
    let mut t = Task::new(1, 0, Arc::new(Succeeds), 0, Some(Duration::from_millis(50)), vec![]);
    assert!(t.is_ready_at(&start));
    t.set_run_after(start + Duration::from_secs(10));
    assert!(!t.is_ready_at(&start));
    assert!(t.is_ready_at(&(start + Duration::from_secs(10))));
    assert!(t.is_ready_at(&(start + Duration::from_secs(11))));
    assert!(!t.timed_out_after(&Duration::from_millis(50)));
    assert!(!t.timed_out_after(&Duration::from_millis(49)));
    assert!(t.timed_out_after(&Duration::from_nanos(50_000_001)));
    assert!(t.timed_out_after(&Duration::from_secs(1)));
    let no_limit = Task::new(2, 0, Arc::new(Succeeds), 0, None, vec![]);
    assert!(!no_limit.timed_out_after(&Duration::from_secs(1_000_000)));
}

#[test]
fn retried_copies_keep_their_work() {
    let t = task(4, 1, vec![]);
    let error = NightError::NetworkError("down".to_string());
    match retry_after_failure(&t, &error) {
        Retry::Again(again) => assert!(run_task(&again).is_ok()),
        Retry::Exhausted(_) => panic!("retries are left"),
    }
    match retry_after_timeout(&t) {
        Retry::Again(again) => assert!(again.data().is_some()),
        Retry::Exhausted(_) => panic!("retries are left"),
    }
}

#[test]
fn settling_runs() {
    let t = task(6, 1, vec![]);
    let done = settle(&t, RunOutcome::Finished);
    assert_eq!(done.status, TaskStatus::Completed);
    assert!(done.complete && done.requeue.is_none() && done.report.is_ok());
    let again = settle(&t, RunOutcome::TimedOut);
    assert_eq!(again.status, TaskStatus::Queued);
    assert!(!again.complete && again.report.is_ok());
    let copy = again.requeue.unwrap();
    assert_eq!(copy.retries(), 1);
    assert!(run_task(&copy).is_ok());
    let spent = Task::new(7, 1, Arc::new(Succeeds), 0, None, vec![]);
    let failed = settle(&spent, RunOutcome::Failed(NightError::NetworkError("down".to_string())));
    assert_eq!(failed.status, TaskStatus::Failed);
    assert!(failed.requeue.is_none() && !failed.complete);
    assert_eq!(message_of(failed.report.unwrap_err()), "Task 7 failed: Network error: down");
    let late = settle(&spent, RunOutcome::TimedOut);
    assert_eq!(message_of(late.report.unwrap_err()), "Task 7 timed out and exceeded retry limit");
}

#[test]
fn stored_tasks_need_their_fields() {
    let t = Task::from_stored(
        Some(3),
        Some(2),
        None,
        None,
        Some(Some(Duration::from_secs(5))),
        Some(4),
        Some(1),
        Some(vec![1, 2]),
        Some(TaskStatus::Running),
    )
    .unwrap();
    assert_eq!(t.id(), 3);
    assert_eq!(t.priority(), 2);
    assert_eq!(t.timeout(), Some(Duration::from_secs(5)));
    assert!(t.run_after().is_none());
    assert_eq!(t.max_retries(), 4);
    assert_eq!(t.retries(), 1);
    assert_eq!(t.dependencies(), &[1, 2]);
    assert_eq!(t.status, TaskStatus::Running);
    assert!(t.data().is_none());
    let missing = |r: Result<Task, String>| r.err().unwrap();
    assert_eq!(
        missing(Task::from_stored(None, None, None, None, None, None, None, None, None)),
        "missing field `id`"
    );
    assert_eq!(
        missing(Task::from_stored(Some(1), None, None, None, None, Some(1), None, None, None)),
        "missing field `priority`"
    );
    assert_eq!(
        missing(Task::from_stored(Some(1), Some(1), None, None, None, None, Some(1), None, None)),
        "missing field `max_retries`"
    );
    assert_eq!(
        missing(Task::from_stored(Some(1), Some(1), None, None, None, Some(1), None, None, None)),
        "missing field `retries`"
    );
    assert_eq!(
        missing(Task::from_stored(Some(1), Some(1), None, None, None, Some(1), Some(0), None, None)),
        "missing field `dependencies`"
    );
    assert_eq!(
        missing(Task::from_stored(
            Some(1),
            Some(1),
            None,
            None,
            None,
            Some(1),
            Some(0),
            Some(vec![]),
            None
        )),
        "missing field `status`"
    );
}

#[test]
fn expired_tasks_fail_with_their_timeout() {
    let t = task(8, 1, vec![]);
    let step = settle(&t, RunOutcome::Expired);
    assert_eq!(step.status, TaskStatus::Failed);
    assert!(step.requeue.is_none() && !step.complete);
    assert_eq!(message_of(step.report.unwrap_err()), "Task 8 timed out");
}
