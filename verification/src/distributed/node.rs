use crate::error::{NightError, NightResult};
use crate::task::TaskId;
use crate::utils::{decimal_string, decimal_text};
use std::collections::HashMap;
use vstd::prelude::*;
use vstd::string::StringExecFns;

verus! {

broadcast use vstd::std_specs::hash::group_hash_axioms;

pub type NodeId = String;

/// Whether a node takes part in the system.
#[derive(Clone, Copy, Debug, PartialEq, Eq, Structural)]
pub enum NodeState {
    Active,
    Inactive,
    Failed,
}

/// Where a task assigned to a node stands.
#[derive(Clone, Copy, Debug, PartialEq, Eq, Structural)]
pub enum TaskStatus {
    Queued,
    Running,
    Completed,
    Failed,
}

/// The message of an update for a task that the node does not hold.
pub open spec fn task_not_on_node_text(task_id: TaskId, node_id: Seq<char>) -> Seq<char> {
    "Task "@ + decimal_text(task_id as nat) + " not found on node "@ + node_id
}

/// A machine of the distributed system: its identifier, the address where it listens,
/// its state, and the tasks assigned to it.
pub struct Node {
    id: NodeId,
    addr: String,
    state: NodeState,
    tasks: HashMap<TaskId, TaskStatus>,
}

impl Node {
    pub closed spec fn node_id(&self) -> Seq<char> {
        self.id@
    }

    pub closed spec fn address(&self) -> Seq<char> {
        self.addr@
    }

    pub closed spec fn state(&self) -> NodeState {
        self.state
    }

    /// The tasks assigned to the node and where each stands.
    pub closed spec fn tasks(&self) -> Map<TaskId, TaskStatus> {
        self.tasks@
    }

    /// An active node with no tasks.
    pub fn new(id: NodeId, addr: String) -> (r: Self)
        ensures
            r.node_id() == id@,
            r.address() == addr@,
            r.state() == NodeState::Active,
            r.tasks() == Map::<TaskId, TaskStatus>::empty(),
    {
        Node { id, addr, state: NodeState::Active, tasks: HashMap::new() }
    }

    pub fn id(&self) -> (r: &NodeId)
        ensures
            r@ == self.node_id(),
    {
        &self.id
    }

    pub fn addr(&self) -> (r: &String)
        ensures
            r@ == self.address(),
    {
        &self.addr
    }

    pub fn get_state(&self) -> (r: NodeState)
        ensures
            r == self.state(),
    {
        self.state
    }

    pub fn set_state(&mut self, new_state: NodeState)
        ensures
            final(self).state() == new_state,
            final(self).node_id() == old(self).node_id(),
            final(self).address() == old(self).address(),
            final(self).tasks() == old(self).tasks(),
    {
        self.state = new_state;
    }

    /// Assigns task `task_id` to the node, queued.
    pub fn add_task(&mut self, task_id: TaskId) -> (r: NightResult<()>)
        ensures
            r is Ok,
            final(self).tasks() == old(self).tasks().insert(task_id, TaskStatus::Queued),
            final(self).node_id() == old(self).node_id(),
            final(self).address() == old(self).address(),
            final(self).state() == old(self).state(),
    {
        self.tasks.insert(task_id, TaskStatus::Queued);
        Ok(())
    }

    /// Sets where task `task_id` stands; fails when the node does not hold the task.
    pub fn update_task_status(&mut self, task_id: TaskId, status: TaskStatus) -> (r: NightResult<()>)
        ensures
            r is Ok <==> old(self).tasks().contains_key(task_id),
            r is Ok ==> final(self).tasks() == old(self).tasks().insert(task_id, status),
            r matches Err(e) ==> e is TaskNotFound && e.detail() == task_not_on_node_text(
                task_id,
                old(self).node_id(),
            ) && final(self).tasks() == old(self).tasks(),
            final(self).node_id() == old(self).node_id(),
            final(self).address() == old(self).address(),
            final(self).state() == old(self).state(),
    {
        if self.tasks.contains_key(&task_id) {
            self.tasks.insert(task_id, status);
            Ok(())
        } else {
            let mut m = String::from_str("Task ");
            m.append(decimal_string(task_id).as_str());
            m.append(" not found on node ");
            m.append(self.id.as_str());
            Err(NightError::TaskNotFound(m))
        }
    }

    /// Where task `task_id` stands, if the node holds it.
    pub fn get_task_status(&self, task_id: &TaskId) -> (r: Option<TaskStatus>)
        ensures
            r == (if self.tasks().contains_key(*task_id) {
                Some(self.tasks()[*task_id])
            } else {
                None
            }),
    {
        match self.tasks.get(task_id) {
            Some(status) => Some(*status),
            None => None,
        }
    }

    /// Every task of the node and where it stands.
    pub fn get_all_tasks(&self) -> (r: HashMap<TaskId, TaskStatus>)
        ensures
            r@ == self.tasks(),
    {
        self.tasks.clone()
    }
}

} // verus!
