use crate::common::types::{
    TaskAddressMap, TaskConfig, TaskDependencyMap, TaskInfo, TaskStatus, TaskUuid,
};
use crate::mission::topology::keys_of;
use crate::task::communication::TaskCommunicator;
use crate::utils::duration::{duration_from_millis, millis_duration, parse_u64, parse_u64_text};
use crate::utils::error::{NightError, Result};
use std::collections::HashMap;
use std::time::Duration;
use vstd::prelude::*;
use vstd::string::StringExecFns;

verus! {

broadcast use vstd::std_specs::hash::group_hash_axioms;

/// How many times a task checks its dependencies, and tries to announce its completion,
/// before it gives up.
pub const MAX_RETRY_ATTEMPTS: u32 = 5;

/// What a task does at one attempt to start.
pub enum StartDecision {
    /// All dependencies completed: run now.
    Start,
    /// Wait and try again.
    Wait,
    /// The last attempt failed: stop with this error.
    GiveUp(NightError),
}

/// What a task does after one attempt to announce its completion.
pub enum NotifyDecision {
    /// The announcement went out.
    Done,
    /// Wait and try again.
    Retry,
    /// The last attempt failed: stop with this error.
    Fail(NightError),
}

/// One task of a mission and its run state.
pub struct Task {
    pub config: TaskConfig,
    pub status: TaskStatus,
    pub start_time: Option<i64>,
    pub end_time: Option<i64>,
    /// While set, a periodic task keeps running.
    pub execution_lock: bool,
    /// For each dependency, whether it has completed.
    pub dependency_status: TaskDependencyMap,
    pub address_map: TaskAddressMap,
    pub execution_order: Option<usize>,
    pub communicator: TaskCommunicator,
    /// The tasks that depend on this one.
    pub dependent_tasks: Vec<TaskUuid>,
}

/// Every dependency in the map has completed.
pub open spec fn all_completed(m: Map<TaskUuid, bool>) -> bool {
    forall|k: TaskUuid| #[trigger] m.contains_key(k) ==> m[k]
}

/// `a` and `b` agree on the parts of a task that running it leaves alone: its
/// configuration, times, ports, communicator and dependents.
pub open spec fn same_fixed_parts(a: Task, b: Task) -> bool {
    &&& a.config == b.config
    &&& a.start_time == b.start_time
    &&& a.end_time == b.end_time
    &&& a.address_map == b.address_map
    &&& a.communicator == b.communicator
    &&& a.dependent_tasks == b.dependent_tasks
}

/// A task speaks as itself, to the ports it was given.
pub open spec fn wired(t: Task) -> bool {
    &&& t.communicator.owner() == t.config.id
    &&& t.communicator.addresses() == t.address_map@
}

/// Whatever a task goes through that leaves its fixed parts alone, it keeps speaking as
/// itself, to the ports it was given, and to the same dependents.
pub proof fn lemma_wiring_kept(before: Task, after: Task)
    requires
        wired(before),
        same_fixed_parts(after, before),
    ensures
        wired(after),
        after.dependent_tasks@ == before.dependent_tasks@,
{
}

/// The message of the error for a task whose dependencies never completed.
pub open spec fn start_failure_text(name: Seq<char>) -> Seq<char> {
    "Task "@ + name + " failed to start after 5 attempts"@
}

impl Task {
    /// A pending task whose dependencies have not completed yet.
    pub fn new(config: TaskConfig, address_map: TaskAddressMap, dependent_tasks: Vec<TaskUuid>) -> (r: Self)
        ensures
            r.config@ == config@,
            r.status == TaskStatus::Pending,
            r.start_time is None,
            r.end_time is None,
            r.execution_lock,
            r.dependency_status@ == Map::new(|k: TaskUuid| config.dependencies@.contains(k), |k: TaskUuid| false),
            r.address_map@ == address_map@,
            r.execution_order is None,
            r.communicator.owner() == config.id,
            r.communicator.addresses() == address_map@,
            r.dependent_tasks@ == dependent_tasks@,
            wired(r),
    {
        let mut dependency_status: TaskDependencyMap = HashMap::new();
        let n = config.dependencies.len();
        for i in 0..n
            invariant
                n == config.dependencies@.len(),
                dependency_status@ == Map::new(|k: TaskUuid| config.dependencies@.take(i as int).contains(k), |k: TaskUuid| false),
        {
            let id = config.dependencies[i];
            dependency_status.insert(id, false);
            proof {
                let pre = config.dependencies@.take(i as int);
                let post = config.dependencies@.take(i + 1);
                assert(post =~= pre.push(id));
                assert forall|k: TaskUuid| post.contains(k) <==> (pre.contains(k) || k == id) by {
                    if post.contains(k) && k != id {
                        let j = choose|j: int| 0 <= j < post.len() && post[j] == k;
                        assert(pre[j] == k);
                    }
                    if pre.contains(k) {
                        let j = choose|j: int| 0 <= j < pre.len() && pre[j] == k;
                        assert(post[j] == k);
                    }
                    if k == id {
                        assert(post[i as int] == k);
                    }
                }
                assert(dependency_status@ =~= Map::new(|k: TaskUuid| post.contains(k), |k: TaskUuid| false));
            }
        }
        assert(config.dependencies@.take(n as int) =~= config.dependencies@);
        let communicator = TaskCommunicator::new(config.id, address_map.clone());
        Task {
            config,
            status: TaskStatus::Pending,
            start_time: None,
            end_time: None,
            execution_lock: true,
            dependency_status,
            address_map,
            execution_order: None,
            communicator,
            dependent_tasks,
        }
    }

    /// Decides one attempt to start (attempts count from 1): start when every dependency
    /// has completed; else wait, or give up at the last attempt.
    pub fn begin_attempt(&self, attempt: u32) -> (d: StartDecision)
        ensures
            all_completed(self.dependency_status@) ==> d is Start,
            !all_completed(self.dependency_status@) && attempt == MAX_RETRY_ATTEMPTS ==> (d matches StartDecision::GiveUp(e) && e is Task
                && e.detail() == start_failure_text(self.config.name@)),
            !all_completed(self.dependency_status@) && attempt != MAX_RETRY_ATTEMPTS ==> d is Wait,
    {
        if self.can_start() {
            return StartDecision::Start;
        }
        if attempt == MAX_RETRY_ATTEMPTS {
            let mut msg = String::from_str("Task ");
            msg.append(self.config.name.as_str());
            msg.append(" failed to start after 5 attempts");
            return StartDecision::GiveUp(NightError::Task(msg));
        }
        StartDecision::Wait
    }

    /// Begins a run: records the task's place in the global run order and marks it
    /// running.
    pub fn start_execution(&mut self, order: usize)
        ensures
            same_fixed_parts(*final(self), *old(self)),
            final(self).execution_order == Some(order),
            final(self).status == TaskStatus::Running,
            final(self).config@ == old(self).config@,
            final(self).dependency_status@ == old(self).dependency_status@,
            final(self).execution_lock == old(self).execution_lock,
            final(self).dependent_tasks@ == old(self).dependent_tasks@,
    {
        self.execution_order = Some(order);
        self.set_status(TaskStatus::Running);
    }

    /// The task's place in the global run order, once it has run.
    pub fn get_execution_order(&self) -> (r: Option<usize>)
        ensures
            r == self.execution_order,
    {
        self.execution_order
    }

    /// Runs the task once: it completes.
    pub fn run_once(&mut self) -> (r: Result<()>)
        ensures
            same_fixed_parts(*final(self), *old(self)),
            r is Ok,
            final(self).status == TaskStatus::Completed,
            final(self).config@ == old(self).config@,
            final(self).execution_order == old(self).execution_order,
            final(self).execution_lock == old(self).execution_lock,
            final(self).dependency_status@ == old(self).dependency_status@,
            final(self).dependent_tasks@ == old(self).dependent_tasks@,
    {
        self.set_status(TaskStatus::Completed);
        Ok(())
    }

    /// Records how a run ended: a one-off run that succeeded completes the task, and its
    /// dependents are to be told; a run that failed fails the task.
    pub fn finish_run(&mut self, result: &Result<()>) -> (notify: bool)
        ensures
            same_fixed_parts(*final(self), *old(self)),
            notify == (result is Ok && !old(self).config.is_periodic),
            result is Ok && !old(self).config.is_periodic ==> final(self).status == TaskStatus::Completed,
            result is Ok && old(self).config.is_periodic ==> final(self).status == old(self).status,
            result is Err ==> final(self).status == TaskStatus::Failed,
            final(self).config@ == old(self).config@,
            final(self).execution_order == old(self).execution_order,
            final(self).execution_lock == old(self).execution_lock,
            final(self).dependency_status@ == old(self).dependency_status@,
            final(self).dependent_tasks@ == old(self).dependent_tasks@,
    {
        match result {
            Ok(()) => {
                if !self.config.is_periodic {
                    self.set_status(TaskStatus::Completed);
                    true
                } else {
                    false
                }
            },
            Err(_) => {
                self.set_status(TaskStatus::Failed);
                false
            },
        }
    }

    /// Decides what follows one attempt (counted from 1) to announce completion: done when
    /// it went out; else retry, or fail at the last attempt with the last error.
    pub fn notify_decision(&self, attempt: u32, outcome: Result<()>) -> (d: NotifyDecision)
        ensures
            outcome is Ok ==> d is Done,
            outcome matches Err(e) ==> (attempt == MAX_RETRY_ATTEMPTS ==> (d matches NotifyDecision::Fail(f) && f is Communication
                && f.detail() == "Failed to notify completion after 5 attempts: "@ + e.text())),
            outcome is Err && attempt != MAX_RETRY_ATTEMPTS ==> d is Retry,
    {
        match outcome {
            Ok(()) => NotifyDecision::Done,
            Err(e) => {
                if attempt == MAX_RETRY_ATTEMPTS {
                    let mut msg = String::from_str("Failed to notify completion after 5 attempts: ");
                    msg.append(e.to_string().as_str());
                    NotifyDecision::Fail(NightError::Communication(msg))
                } else {
                    NotifyDecision::Retry
                }
            },
        }
    }

    /// Whether every dependency has completed.
    pub fn can_start(&self) -> (r: bool)
        ensures
            r == all_completed(self.dependency_status@),
    {
        let keys = keys_of(&self.dependency_status);
        for i in 0..keys.len()
            invariant
                keys@.to_set() == self.dependency_status@.dom(),
                forall|j: int| 0 <= j < i ==> self.dependency_status@[#[trigger] keys@[j]],
        {
            assert(keys@.to_set().contains(keys@[i as int]));
            let done = *self.dependency_status.get(&keys[i]).unwrap();
            if !done {
                return false;
            }
        }
        proof {
            assert forall|k: TaskUuid| #[trigger] self.dependency_status@.contains_key(k) implies self.dependency_status@[k] by {
                assert(keys@.to_set().contains(k));
                let j = choose|j: int| 0 <= j < keys@.len() && keys@[j] == k;
            }
        }
        true
    }

    pub fn set_status(&mut self, new_status: TaskStatus)
        ensures
            same_fixed_parts(*final(self), *old(self)),
            final(self).status == new_status,
            final(self).config@ == old(self).config@,
            final(self).execution_order == old(self).execution_order,
            final(self).execution_lock == old(self).execution_lock,
            final(self).dependency_status@ == old(self).dependency_status@,
            final(self).dependent_tasks@ == old(self).dependent_tasks@,
    {
        self.status = new_status;
    }

    /// Records that a task completed: when it is a dependency, it is marked completed;
    /// a notice from any other task changes nothing.
    pub fn handle_dependency_completion(&mut self, completed_task_id: TaskUuid) -> (r: Result<()>)
        ensures
            same_fixed_parts(*final(self), *old(self)),
            r is Ok,
            final(self).dependency_status@ == if old(self).dependency_status@.contains_key(completed_task_id) {
                old(self).dependency_status@.insert(completed_task_id, true)
            } else {
                old(self).dependency_status@
            },
            final(self).status == old(self).status,
            final(self).config@ == old(self).config@,
            final(self).execution_order == old(self).execution_order,
            final(self).execution_lock == old(self).execution_lock,
    {
        self.set_dependency_status(completed_task_id, true);
        Ok(())
    }

    /// The interval of a periodic task: its configured text read as a number of
    /// milliseconds.
    pub fn parse_interval(&self) -> (r: Result<Duration>)
        ensures
            r is Ok <==> parse_u64_text(self.config.interval@) is Some,
            r matches Ok(d) ==> d == duration_from_millis(parse_u64_text(self.config.interval@).unwrap()),
            r matches Err(e) ==> e is Task && e.detail() == "Invalid interval format"@,
    {
        let mut chars: Vec<char> = Vec::new();
        let n = self.config.interval.as_str().unicode_len();
        for i in 0..n
            invariant
                n == self.config.interval@.len(),
                chars@ == self.config.interval@.take(i as int),
        {
            let c = self.config.interval.as_str().get_char(i);
            chars.push(c);
            assert(chars@ =~= self.config.interval@.take(i + 1));
        }
        assert(chars@ =~= self.config.interval@);
        match parse_u64(&chars) {
            Some(ms) => Ok(millis_duration(ms)),
            None => Err(NightError::Task(String::from_str("Invalid interval format"))),
        }
    }

    /// A snapshot of the task's state.
    pub fn get_info(&self) -> (r: TaskInfo)
        ensures
            r.id == self.config.id,
            r.status == self.status,
            r.start_time == self.start_time,
            r.end_time == self.end_time,
            r.execution_order == self.execution_order,
    {
        TaskInfo {
            id: self.config.id,
            status: self.status,
            start_time: self.start_time,
            end_time: self.end_time,
            execution_order: self.execution_order,
        }
    }

    /// Sets whether a dependency has completed; a task that is no dependency is ignored.
    pub fn set_dependency_status(&mut self, dependency_id: TaskUuid, status: bool)
        ensures
            same_fixed_parts(*final(self), *old(self)),
            final(self).dependency_status@ == if old(self).dependency_status@.contains_key(dependency_id) {
                old(self).dependency_status@.insert(dependency_id, status)
            } else {
                old(self).dependency_status@
            },
            final(self).status == old(self).status,
            final(self).config@ == old(self).config@,
            final(self).execution_order == old(self).execution_order,
            final(self).execution_lock == old(self).execution_lock,
    {
        if self.dependency_status.contains_key(&dependency_id) {
            self.dependency_status.insert(dependency_id, status);
        }
    }

    /// Sets the lock that keeps a periodic task running.
    pub fn set_execution_lock(&mut self, status: bool)
        ensures
            same_fixed_parts(*final(self), *old(self)),
            final(self).execution_lock == status,
            final(self).status == old(self).status,
            final(self).config@ == old(self).config@,
            final(self).execution_order == old(self).execution_order,
            final(self).dependency_status@ == old(self).dependency_status@,
    {
        self.execution_lock = status;
    }
}

} // verus!
