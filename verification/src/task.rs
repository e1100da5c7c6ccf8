pub mod communication;
pub mod task;

use std::sync::Arc;
use std::time::{Duration, Instant};
use vstd::prelude::*;
use vstd::string::StringExecFns;

verus! {

pub type TaskId = u64;

pub type Priority = u8;

/// `std::time::Instant`, a reading of the monotonic clock, carried through as it is.
#[verifier::external_type_specification]
#[verifier::external_body]
pub struct ExInstant(Instant);

/// Reads the monotonic clock with `Instant::now()`. Nothing is stated of the reading.
#[verifier::external_body]
fn instant_now() -> Instant {
    Instant::now()
}

/// `now` is a reading that `instant_now` can give: an `Instant::now()` of the clock.
pub closed spec fn is_clock_reading(now: Instant) -> bool {
    call_ensures(instant_now, (), now)
}

/// Whether the instant `a` is not later than `b`, as `Instant`'s `<=` says.
pub uninterp spec fn instant_le(a: Instant, b: Instant) -> bool;

/// Asks `Instant`'s `<=` whether `a` is not later than `b`; the answer is taken as
/// `instant_le(a, b)`, the order of the two readings.
#[verifier::external_body]
fn instant_not_after(a: &Instant, b: &Instant) -> (r: bool)
    ensures
        r == instant_le(*a, *b),
{
    *a <= *b
}

/// Measures with `Instant::elapsed` how much time passed since `since`. Nothing is
/// stated of the measure: it depends on the clock.
#[verifier::external_body]
fn elapsed_since(since: &Instant) -> Duration {
    since.elapsed()
}

/// `d` is a measure that `elapsed_since` can give of the time passed since `since`:
/// a `since.elapsed()` taken on the clock.
pub closed spec fn is_elapsed_since(since: Instant, d: Duration) -> bool {
    call_ensures(elapsed_since, (&since,), d)
}

/// The whole nanoseconds that a duration holds, as `Duration::as_nanos` gives them.
pub uninterp spec fn duration_nanos(d: Duration) -> u128;

/// Counts the whole nanoseconds of `d` with `Duration::as_nanos`; the count is taken as
/// `duration_nanos(d)`.
#[verifier::external_body]
fn nanos_of(d: &Duration) -> (n: u128)
    ensures
        n == duration_nanos(*d),
{
    d.as_nanos()
}

/// `Some(x)`, built where no conversion of `x` can occur.
fn present<T>(x: T) -> (r: Option<T>)
    ensures
        r == Some(x),
{
    Some(x)
}

/// The message that names a missing field.
fn missing_field(name: &str) -> (m: String)
    ensures
        m@ == missing_field_text(name@),
{
    let mut m = String::from_str("missing field `");
    m.append(name);
    m.append("`");
    m
}

/// Work that a queued task carries and an executor runs. A failure is reported as its
/// message text.
pub trait Runnable: Send + Sync {
    fn run(&self) -> std::result::Result<(), String>;
}

/// Where a queued task stands.
#[derive(Clone, Copy, Debug, PartialEq, Eq, Structural)]
pub enum TaskStatus {
    Queued,
    Running,
    Completed,
    Failed,
    Cancelled,
}

impl TaskStatus {
    /// The name of the status.
    pub open spec fn name(self) -> Seq<char> {
        match self {
            TaskStatus::Queued => "Queued"@,
            TaskStatus::Running => "Running"@,
            TaskStatus::Completed => "Completed"@,
            TaskStatus::Failed => "Failed"@,
            TaskStatus::Cancelled => "Cancelled"@,
        }
    }

    /// Shows the status to a person: its name.
    pub fn to_string(&self) -> (s: String)
        ensures
            s@ == self.name(),
    {
        match self {
            TaskStatus::Queued => String::from_str("Queued"),
            TaskStatus::Running => String::from_str("Running"),
            TaskStatus::Completed => String::from_str("Completed"),
            TaskStatus::Failed => String::from_str("Failed"),
            TaskStatus::Cancelled => String::from_str("Cancelled"),
        }
    }
}

/// A task of the priority queue: an identifier, a priority, the work it carries, and its
/// retry and timing state.
pub struct Task {
    id: TaskId,
    priority: Priority,
    data: Option<Arc<dyn Runnable>>,
    created_at: Instant,
    run_after: Option<Instant>,
    timeout: Option<Duration>,
    max_retries: u32,
    retries: u32,
    dependencies: Vec<TaskId>,
    pub status: TaskStatus,
}

/// The task may run at `now`: it is held back by no instant, or by one not later than `now`.
pub open spec fn ready_at(t: TaskView, now: Instant) -> bool {
    match t.run_after {
        None => true,
        Some(after) => instant_le(after, now),
    }
}

/// The task has a timeout, and `elapsed` is longer than it.
pub open spec fn timed_out(t: TaskView, elapsed: Duration) -> bool {
    match t.timeout {
        None => false,
        Some(limit) => duration_nanos(elapsed) > duration_nanos(limit),
    }
}

/// The message for a stored task that lacks the field `name`.
pub open spec fn missing_field_text(name: Seq<char>) -> Seq<char> {
    "missing field `"@ + name + "`"@
}

/// What a task is: everything but the work it carries, and whether it carries work.
pub ghost struct TaskView {
    pub id: TaskId,
    pub priority: Priority,
    pub created_at: Instant,
    pub run_after: Option<Instant>,
    pub timeout: Option<Duration>,
    pub max_retries: u32,
    pub retries: u32,
    pub dependencies: Seq<TaskId>,
    pub status: TaskStatus,
    /// The task carries work to run.
    pub has_work: bool,
}

impl View for Task {
    type V = TaskView;

    closed spec fn view(&self) -> TaskView {
        TaskView {
            id: self.id,
            priority: self.priority,
            created_at: self.created_at,
            run_after: self.run_after,
            timeout: self.timeout,
            max_retries: self.max_retries,
            retries: self.retries,
            dependencies: self.dependencies@,
            status: self.status,
            has_work: self.data is Some,
        }
    }
}

impl Clone for Task {
    /// A copy that shares the work it carries.
    fn clone(&self) -> (r: Self)
        ensures
            r@ == self@,
            r.has_work() == self.has_work(),
    {
        Task {
            id: self.id,
            priority: self.priority,
            data: self.data.clone(),
            created_at: self.created_at,
            run_after: self.run_after,
            timeout: self.timeout,
            max_retries: self.max_retries,
            retries: self.retries,
            dependencies: self.dependencies.clone(),
            status: self.status,
        }
    }
}

impl Task {
    /// The task carries work to run.
    pub closed spec fn has_work(&self) -> bool {
        self@.has_work
    }

    /// A queued task created now, never tried, that may run at once.
    pub fn new(
        id: TaskId,
        priority: Priority,
        data: Arc<dyn Runnable>,
        max_retries: u32,
        timeout: Option<Duration>,
        dependencies: Vec<TaskId>,
    ) -> (r: Self)
        ensures
            r@.id == id,
            r@.priority == priority,
            r@.run_after is None,
            r@.timeout == timeout,
            r@.max_retries == max_retries,
            r@.retries == 0,
            r@.dependencies == dependencies@,
            r@.status == TaskStatus::Queued,
            r.has_work(),
    {
        let work = present(data);
        Task {
            id,
            priority,
            data: work,
            created_at: instant_now(),
            run_after: None,
            timeout,
            max_retries,
            retries: 0,
            dependencies,
            status: TaskStatus::Queued,
        }
    }

    /// A stored task read back from the parts that were found. The identifier, priority,
    /// retry limit and count, dependencies and status must be there, and the first one
    /// missing, in that order, is named in the error; a missing creation instant is now,
    /// and a missing hold-back instant or timeout is none.
    pub fn from_stored(
        id: Option<TaskId>,
        priority: Option<Priority>,
        created_at: Option<Instant>,
        run_after: Option<Option<Instant>>,
        timeout: Option<Option<Duration>>,
        max_retries: Option<u32>,
        retries: Option<u32>,
        dependencies: Option<Vec<TaskId>>,
        status: Option<TaskStatus>,
    ) -> (r: std::result::Result<Task, String>)
        ensures
            r is Ok <==> (id is Some && priority is Some && max_retries is Some && retries is Some
                && dependencies is Some && status is Some),
            id is None ==> (r matches Err(m) && m@ == missing_field_text("id"@)),
            id is Some && priority is None ==> (r matches Err(m) && m@ == missing_field_text(
                "priority"@,
            )),
            id is Some && priority is Some && max_retries is None ==> (r matches Err(m) && m@
                == missing_field_text("max_retries"@)),
            id is Some && priority is Some && max_retries is Some && retries is None ==> (
            r matches Err(m) && m@ == missing_field_text("retries"@)),
            id is Some && priority is Some && max_retries is Some && retries is Some
                && dependencies is None ==> (r matches Err(m) && m@ == missing_field_text(
                "dependencies"@,
            )),
            id is Some && priority is Some && max_retries is Some && retries is Some
                && dependencies is Some && status is None ==> (r matches Err(m) && m@
                == missing_field_text("status"@)),
            r matches Ok(t) ==> {
                &&& t@.id == id.unwrap()
                &&& t@.priority == priority.unwrap()
                &&& (created_at matches Some(c) ==> t@.created_at == c)
                &&& t@.run_after == (match run_after {
                    Some(a) => a,
                    None => None,
                })
                &&& t@.timeout == (match timeout {
                    Some(d) => d,
                    None => None,
                })
                &&& t@.max_retries == max_retries.unwrap()
                &&& t@.retries == retries.unwrap()
                &&& t@.dependencies == dependencies.unwrap()@
                &&& t@.status == status.unwrap()
                &&& !t.has_work()
            },
    {
        let id = match id {
            Some(v) => v,
            None => return Err(missing_field("id")),
        };
        let priority = match priority {
            Some(v) => v,
            None => return Err(missing_field("priority")),
        };
        let created_at = match created_at {
            Some(c) => c,
            None => instant_now(),
        };
        let run_after = match run_after {
            Some(a) => a,
            None => None,
        };
        let timeout = match timeout {
            Some(d) => d,
            None => None,
        };
        let max_retries = match max_retries {
            Some(v) => v,
            None => return Err(missing_field("max_retries")),
        };
        let retries = match retries {
            Some(v) => v,
            None => return Err(missing_field("retries")),
        };
        let dependencies = match dependencies {
            Some(v) => v,
            None => return Err(missing_field("dependencies")),
        };
        let status = match status {
            Some(v) => v,
            None => return Err(missing_field("status")),
        };
        Ok(Task::restore(
            id,
            priority,
            created_at,
            run_after,
            timeout,
            max_retries,
            retries,
            dependencies,
            status,
        ))
    }

    /// A task with every part given: how a stored task comes back. It carries no work.
    pub fn restore(
        id: TaskId,
        priority: Priority,
        created_at: Instant,
        run_after: Option<Instant>,
        timeout: Option<Duration>,
        max_retries: u32,
        retries: u32,
        dependencies: Vec<TaskId>,
        status: TaskStatus,
    ) -> (r: Self)
        ensures
            r@ == (TaskView {
                id,
                priority,
                created_at,
                run_after,
                timeout,
                max_retries,
                retries,
                dependencies: dependencies@,
                status,
                has_work: false,
            }),
            !r.has_work(),
    {
        Task {
            id,
            priority,
            data: None,
            created_at,
            run_after,
            timeout,
            max_retries,
            retries,
            dependencies,
            status,
        }
    }

    pub fn timeout(&self) -> (r: Option<Duration>)
        ensures
            r == self@.timeout,
    {
        self.timeout
    }

    pub fn set_status(&mut self, status: TaskStatus)
        ensures
            final(self).has_work() == old(self).has_work(),
            final(self)@ == (TaskView { status, ..old(self)@ }),
    {
        self.status = status;
    }

    pub fn id(&self) -> (r: TaskId)
        ensures
            r == self@.id,
    {
        self.id
    }

    pub fn priority(&self) -> (r: Priority)
        ensures
            r == self@.priority,
    {
        self.priority
    }

    /// The work the task carries; a restored task carries none.
    pub fn data(&self) -> (r: &Option<Arc<dyn Runnable>>)
        ensures
            r is Some == self.has_work(),
    {
        &self.data
    }

    /// When the task was created.
    pub fn created_at(&self) -> (r: Instant)
        ensures
            r == self@.created_at,
    {
        self.created_at
    }

    /// The instant before which the task may not run, if there is one.
    pub fn run_after(&self) -> (r: Option<Instant>)
        ensures
            r == self@.run_after,
    {
        self.run_after
    }

    pub fn max_retries(&self) -> (r: u32)
        ensures
            r == self@.max_retries,
    {
        self.max_retries
    }

    pub fn retries(&self) -> (r: u32)
        ensures
            r == self@.retries,
    {
        self.retries
    }

    /// Counts one more retry.
    pub fn increment_retries(&mut self)
        requires
            old(self)@.retries < u32::MAX,
        ensures
            final(self).has_work() == old(self).has_work(),
            final(self)@ == (TaskView { retries: (old(self)@.retries + 1) as u32, ..old(self)@ }),
    {
        self.retries = self.retries + 1;
    }

    /// Holds the task back until `run_after`.
    pub fn set_run_after(&mut self, run_after: Instant)
        ensures
            final(self).has_work() == old(self).has_work(),
            final(self)@ == (TaskView { run_after: Some(run_after), ..old(self)@ }),
    {
        self.run_after = Some(run_after);
    }

    /// Whether the task may run at the instant `now`: it is held back by no instant, or
    /// that instant is not later than `now`.
    pub fn is_ready_at(&self, now: &Instant) -> (r: bool)
        ensures
            r == ready_at(self@, *now),
    {
        match &self.run_after {
            None => true,
            Some(time) => instant_not_after(time, now),
        }
    }

    /// Whether the task has a timeout and `elapsed` is longer than it.
    pub fn timed_out_after(&self, elapsed: &Duration) -> (r: bool)
        ensures
            r == timed_out(self@, *elapsed),
    {
        match &self.timeout {
            None => false,
            Some(timeout) => nanos_of(elapsed) > nanos_of(timeout),
        }
    }

    /// Whether the task may run now: it is held back by no instant, or that instant has
    /// come. A task held back by none is always ready.
    pub fn is_ready(&self) -> (r: bool)
        ensures
            self@.run_after is None ==> r,
            exists|now: Instant| r == ready_at(self@, now),
            self@.run_after is Some ==> exists|now: Instant|
                is_clock_reading(now) && r == instant_le(self@.run_after->0, now),
    {
        match &self.run_after {
            None => {
                let ghost any: Instant = vstd::pervasive::arbitrary();
                assert(ready_at(self@, any));
                true
            },
            Some(_) => {
                let now = instant_now();
                assert(is_clock_reading(now));
                self.is_ready_at(&now)
            },
        }
    }

    /// Whether the task has a timeout and more than that much time has passed since it
    /// was created. A task without a timeout never times out.
    pub fn has_timed_out(&self) -> (r: bool)
        ensures
            self@.timeout is None ==> !r,
            exists|elapsed: Duration| r == timed_out(self@, elapsed),
            self@.timeout is Some ==> exists|elapsed: Duration|
                is_elapsed_since(self@.created_at, elapsed) && r == (duration_nanos(elapsed)
                    > duration_nanos(self@.timeout->0)),
    {
        match &self.timeout {
            None => {
                let ghost any: Duration = vstd::pervasive::arbitrary();
                assert(!timed_out(self@, any));
                false
            },
            Some(_) => {
                let elapsed = elapsed_since(&self.created_at);
                assert(is_elapsed_since(self@.created_at, elapsed));
                self.timed_out_after(&elapsed)
            },
        }
    }

    /// Whether the task has retries left.
    pub fn can_retry(&self) -> (r: bool)
        ensures
            r == (self@.retries < self@.max_retries),
    {
        self.retries < self.max_retries
    }

    /// The tasks that must complete before this one.
    pub fn dependencies(&self) -> (r: &[TaskId])
        ensures
            r@ == self@.dependencies,
    {
        self.dependencies.as_slice()
    }
}

/// Whether a held-back task may run is read off the clock: `is_ready` answers as
/// `is_ready_at` does at an instant that the clock gave during the call, namely whether
/// the hold-back instant is not later than that reading.
pub proof fn lemma_ready_reads_the_clock(t: Task, r: bool)
    requires
        call_ensures(Task::is_ready, (&t,), r),
        t@.run_after is Some,
    ensures
        exists|now: Instant|
            {
                &&& is_clock_reading(now)
                &&& r == instant_le(t@.run_after->0, now)
                &&& forall|at_now: bool| call_ensures(Task::is_ready_at, (&t, &now), at_now) ==> at_now == r
            },
{
}

/// Whether a task with a timeout has timed out is measured on the clock: `has_timed_out`
/// answers as `timed_out_after` does on a measure of the time passed since the task was
/// created, namely whether that measure is longer than the timeout.
pub proof fn lemma_timeout_measures_since_creation(t: Task, r: bool)
    requires
        call_ensures(Task::has_timed_out, (&t,), r),
        t@.timeout is Some,
    ensures
        exists|elapsed: Duration|
            {
                &&& is_elapsed_since(t@.created_at, elapsed)
                &&& r == (duration_nanos(elapsed) > duration_nanos(t@.timeout->0))
                &&& forall|after: bool| call_ensures(Task::timed_out_after, (&t, &elapsed), after) ==> after == r
            },
{
}

} // verus!
