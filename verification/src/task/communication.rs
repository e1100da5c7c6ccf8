use crate::common::types::{
    parse_uuid, uuid_error_string, uuid_parse, uuid_string, uuid_text, TaskAddressMap,
    TaskCommunication, TaskUuid,
};
use crate::utils::error::{NightError, Result};
use vstd::prelude::*;
use vstd::string::StringExecFns;

verus! {

broadcast use vstd::std_specs::hash::group_hash_axioms;

/// The kind of message that tells a task that one of its dependencies completed.
pub open spec fn completed_kind() -> Seq<char> {
    "COMPLETED"@
}

/// The message of the error for a receiver with no known address.
pub open spec fn no_address_text(receiver: TaskUuid) -> Seq<char> {
    "Address not found for task "@ + uuid_text(receiver)
}

/// What a task reads from a message: for a completion notice, the task that completed;
/// for any other kind, nothing.
pub open spec fn message_outcome(kind: Seq<char>, payload: Seq<char>) -> Option<Option<TaskUuid>> {
    if kind == completed_kind() {
        match uuid_parse(payload) {
            Some(id) => Some(Some(id)),
            None => None,
        }
    } else {
        Some(None)
    }
}

/// Builds and reads the messages that tasks send each other.
pub struct TaskCommunicator {
    task_id: TaskUuid,
    address_map: TaskAddressMap,
}

impl Clone for TaskCommunicator {
    fn clone(&self) -> (r: Self)
        ensures
            r.owner() == self.owner(),
            r.addresses() == self.addresses(),
    {
        TaskCommunicator { task_id: self.task_id, address_map: self.address_map.clone() }
    }
}

impl TaskCommunicator {
    /// The task this communicator speaks for.
    pub closed spec fn owner(&self) -> TaskUuid {
        self.task_id
    }

    /// The port of each task.
    pub closed spec fn addresses(&self) -> Map<TaskUuid, u16> {
        self.address_map@
    }

    pub fn new(task_id: TaskUuid, address_map: TaskAddressMap) -> (r: Self)
        ensures
            r.owner() == task_id,
            r.addresses() == address_map@,
    {
        TaskCommunicator { task_id, address_map }
    }

    /// The task this communicator speaks for.
    pub fn task_id(&self) -> (r: TaskUuid)
        ensures
            r == self.owner(),
    {
        self.task_id
    }

    /// Builds a message for `receiver_id` together with its listening port; an unknown
    /// receiver is an error.
    pub fn send_message(&self, receiver_id: TaskUuid, message_type: String, payload: String) -> (r: Result<(u16, TaskCommunication)>)
        ensures
            r is Ok <==> self.addresses().contains_key(receiver_id),
            r matches Ok((port, m)) ==> {
                &&& port == self.addresses()[receiver_id]
                &&& m.sender_id == self.owner()
                &&& m.receiver_id == receiver_id
                &&& m.message_type@ == message_type@
                &&& m.payload@ == payload@
            },
            r matches Err(e) ==> e is Communication && e.detail() == no_address_text(receiver_id),
    {
        match self.address_map.get(&receiver_id) {
            Some(port) => {
                let message = TaskCommunication {
                    sender_id: self.task_id,
                    receiver_id,
                    message_type,
                    payload,
                };
                Ok((*port, message))
            },
            None => {
                let mut msg = String::from_str("Address not found for task ");
                msg.append(uuid_string(receiver_id).as_str());
                Err(NightError::Communication(msg))
            },
        }
    }

    /// Builds the `COMPLETED` notice for a dependent task `receiver_id`.
    pub fn completion_notice(&self, receiver_id: TaskUuid) -> (r: Result<(u16, TaskCommunication)>)
        ensures
            r is Ok <==> self.addresses().contains_key(receiver_id),
            r matches Ok((port, m)) ==> {
                &&& port == self.addresses()[receiver_id]
                &&& m.sender_id == self.owner()
                &&& m.receiver_id == receiver_id
                &&& m.message_type@ == completed_kind()
                &&& m.payload@ == uuid_text(self.owner())
                &&& message_outcome(m.message_type@, m.payload@) == Some(Some(self.owner()))
            },
            r matches Err(e) ==> e is Communication && e.detail() == no_address_text(receiver_id),
    {
        let payload = uuid_string(self.task_id);
        self.send_message(receiver_id, String::from_str("COMPLETED"), payload)
    }

    /// Whether `notice` is the owner's `COMPLETED` notice for `receiver`, paired with the
    /// number that `receiver` listens on.
    pub open spec fn is_notice_to(&self, receiver: TaskUuid, notice: (u16, TaskCommunication)) -> bool {
        &&& self.addresses().contains_key(receiver)
        &&& notice.0 == self.addresses()[receiver]
        &&& notice.1.sender_id == self.owner()
        &&& notice.1.receiver_id == receiver
        &&& notice.1.message_type@ == completed_kind()
        &&& notice.1.payload@ == uuid_text(self.owner())
    }

    /// The completion notices for `dependent_tasks`, in order, up to the first task
    /// without a known port; for that task, the error that ends the announcement.
    pub fn notify_completion(&self, dependent_tasks: &Vec<TaskUuid>) -> (r: (
        Vec<(u16, TaskCommunication)>,
        Option<NightError>,
    ))
        ensures
            r.0@.len() <= dependent_tasks@.len(),
            forall|i: int|
                0 <= i < r.0@.len() ==> self.is_notice_to(dependent_tasks@[i], #[trigger] r.0@[i]),
            r.1 is None <==> r.0@.len() == dependent_tasks@.len(),
            r.1 matches Some(e) ==> e is Communication && e.detail() == no_address_text(
                dependent_tasks@[r.0@.len() as int],
            ) && !self.addresses().contains_key(dependent_tasks@[r.0@.len() as int]),
    {
        let mut notices: Vec<(u16, TaskCommunication)> = Vec::new();
        let mut i: usize = 0;
        while i < dependent_tasks.len()
            invariant
                i <= dependent_tasks@.len(),
                notices@.len() == i,
                forall|j: int|
                    0 <= j < i ==> self.is_notice_to(dependent_tasks@[j], #[trigger] notices@[j]),
            decreases dependent_tasks@.len() - i,
        {
            let receiver = dependent_tasks[i];
            match self.completion_notice(receiver) {
                Ok(notice) => {
                    let ghost before = notices@;
                    notices.push(notice);
                    assert forall|j: int| 0 <= j < i + 1 implies self.is_notice_to(
                        dependent_tasks@[j],
                        #[trigger] notices@[j],
                    ) by {
                        if j < i {
                            assert(notices@[j] == before[j]);
                        }
                    }
                },
                Err(e) => return (notices, Some(e)),
            }
            i = i + 1;
        }
        (notices, None)
    }

    /// Reads a message: a `COMPLETED` message names the task that completed in its
    /// payload; a message of another kind is ignored. An unreadable id is an error.
    pub fn process_message(&self, message: &TaskCommunication) -> (r: Result<Option<TaskUuid>>)
        ensures
            r is Ok <==> message_outcome(message.message_type@, message.payload@) is Some,
            r matches Ok(v) ==> message_outcome(message.message_type@, message.payload@) == Some(v),
            r matches Err(e) ==> e is Communication && e.detail().len() >= "Invalid UUID in payload: "@.len()
                && e.detail().subrange(0, "Invalid UUID in payload: "@.len() as int) == "Invalid UUID in payload: "@,
    {
        let completed = String::from_str("COMPLETED");
        if message.message_type == completed {
            match parse_uuid(message.payload.as_str()) {
                Ok(id) => Ok(Some(id)),
                Err(e) => {
                    let mut msg = String::from_str("Invalid UUID in payload: ");
                    let ghost prefix = msg@;
                    msg.append(uuid_error_string(&e).as_str());
                    assert(msg@.subrange(0, prefix.len() as int) =~= prefix);
                    Err(NightError::Communication(msg))
                },
            }
        } else {
            Ok(None)
        }
    }
}

} // verus!
