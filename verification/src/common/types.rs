use std::collections::HashMap;
use vstd::arithmetic::power::pow;
use vstd::prelude::*;

verus! {

/// Identifier of a task of a mission: the 128 bits of its UUID.
pub type TaskUuid = u128;

/// The lowercase hexadecimal digit for `v`, which is below 16.
pub open spec fn hex_digit(v: nat) -> char {
    if v < 10 {
        ((48 + v) as u8) as char
    } else {
        ((87 + v) as u8) as char
    }
}

/// Hexadecimal digit `k` of the 32 digits of `id`, counted from the most significant.
pub open spec fn hex_digit_of(id: TaskUuid, k: int) -> nat {
    ((id as int / pow(16, (31 - k) as nat)) % 16) as nat
}

/// Which of the 32 digits the `i`th character of the hyphenated text shows.
pub open spec fn digit_position(i: int) -> int {
    if i < 8 {
        i
    } else if i < 13 {
        i - 1
    } else if i < 18 {
        i - 2
    } else if i < 23 {
        i - 3
    } else {
        i - 4
    }
}

/// The text that `uuid::Uuid`'s `Display` and `Debug` write for the UUID with these
/// 128 bits: its 32 lowercase hexadecimal digits, most significant first, in groups of
/// 8, 4, 4, 4 and 12 joined by hyphens.
pub closed spec fn uuid_text(id: TaskUuid) -> Seq<char> {
    Seq::new(
        36,
        |i: int|
            if i == 8 || i == 13 || i == 18 || i == 23 {
                '-'
            } else {
                hex_digit(hex_digit_of(id, digit_position(i)))
            },
    )
}

/// The UUID that `uuid::Uuid::parse_str` reads from a text, if it reads one.
pub uninterp spec fn uuid_parse(s: Seq<char>) -> Option<TaskUuid>;

/// Writes a UUID with `uuid::Uuid::from_u128` and `to_string`; the text is taken as
/// `uuid_text(id)`. The crate's documentation says that `parse_str` reads every format
/// it writes, so the text reads back as the same UUID.
#[verifier::external_body]
pub(crate) fn uuid_string(id: TaskUuid) -> (s: String)
    ensures
        s@ == uuid_text(id),
        uuid_parse(s@) == Some(id),
{
    uuid::Uuid::from_u128(id).to_string()
}

/// Reads a UUID with `uuid::Uuid::parse_str` and takes its bits with `as_u128`.
/// The result is taken as `uuid_parse(s)`; the crate's documentation says that the
/// hyphenated text that `Display` writes is read back as the same UUID.
#[verifier::external_body]
pub(crate) fn parse_uuid(s: &str) -> (r: std::result::Result<TaskUuid, uuid::Error>)
    ensures
        r is Ok <==> uuid_parse(s@) is Some,
        r matches Ok(v) ==> uuid_parse(s@) == Some(v),
        r is Ok || forall|id: TaskUuid| s@ != uuid_text(id),
        r matches Ok(v) ==> forall|id: TaskUuid| s@ == uuid_text(id) ==> v == id,
{
    uuid::Uuid::parse_str(s).map(|u| u.as_u128())
}

/// Writes the message of a `uuid::Error` with its `Display`. Nothing is stated of the text.
#[verifier::external_body]
pub(crate) fn uuid_error_string(e: &uuid::Error) -> String {
    e.to_string()
}

/// The error type of `uuid::Uuid::parse_str`.
#[verifier::external_type_specification]
#[verifier::external_body]
pub struct ExUuidError(uuid::Error);

/// Configuration of one task of a mission.
#[derive(Debug)]
pub struct TaskConfig {
    pub name: String,
    pub id: TaskUuid,
    pub command: String,
    pub is_periodic: bool,
    /// Interval between two runs of a periodic task, in milliseconds, as text.
    pub interval: String,
    pub importance: u8,
    /// The tasks that must complete before this one starts.
    pub dependencies: Vec<TaskUuid>,
}

/// What a task configuration holds, as mathematical values.
pub struct TaskConfigView {
    pub name: Seq<char>,
    pub id: TaskUuid,
    pub command: Seq<char>,
    pub is_periodic: bool,
    pub interval: Seq<char>,
    pub importance: u8,
    pub dependencies: Seq<TaskUuid>,
}

impl View for TaskConfig {
    type V = TaskConfigView;

    open spec fn view(&self) -> TaskConfigView {
        TaskConfigView {
            name: self.name@,
            id: self.id,
            command: self.command@,
            is_periodic: self.is_periodic,
            interval: self.interval@,
            importance: self.importance,
            dependencies: self.dependencies@,
        }
    }
}

impl Clone for TaskConfig {
    fn clone(&self) -> (r: Self)
        ensures
            r@ == self@,
    {
        let r = TaskConfig {
            name: self.name.clone(),
            id: self.id,
            command: self.command.clone(),
            is_periodic: self.is_periodic,
            interval: self.interval.clone(),
            importance: self.importance,
            dependencies: self.dependencies.clone(),
        };
        assert(r.dependencies@ =~= self.dependencies@);
        r
    }
}

/// Configuration of a whole mission: its name and its tasks.
#[derive(Debug)]
pub struct MissionConfig {
    pub name: String,
    pub tasks: Vec<TaskConfig>,
}

impl View for MissionConfig {
    type V = (Seq<char>, Seq<TaskConfigView>);

    open spec fn view(&self) -> (Seq<char>, Seq<TaskConfigView>) {
        (self.name@, self.tasks.deep_view())
    }
}

impl DeepView for TaskConfig {
    type V = TaskConfigView;

    open spec fn deep_view(&self) -> TaskConfigView {
        self@
    }
}

impl Clone for MissionConfig {
    fn clone(&self) -> (r: Self)
        ensures
            r@ == self@,
    {
        let mut tasks: Vec<TaskConfig> = Vec::new();
        for i in 0..self.tasks.len()
            invariant
                tasks@.len() == i,
                forall|j: int| 0 <= j < i ==> #[trigger] tasks@[j]@ == self.tasks@[j]@,
        {
            tasks.push(self.tasks[i].clone());
        }
        assert(tasks.deep_view() =~= self.tasks.deep_view());
        MissionConfig { name: self.name.clone(), tasks }
    }
}

/// Life cycle of a task of a mission.
#[derive(Debug, Clone, Copy, PartialEq, Eq, Hash, Structural)]
pub enum TaskStatus {
    Pending,
    Running,
    Completed,
    Failed,
}

/// A snapshot of the state of one task.
///
/// Times are milliseconds since the UNIX epoch.
#[derive(Debug, Clone, Copy, PartialEq, Eq, Structural)]
pub struct TaskInfo {
    pub id: TaskUuid,
    pub status: TaskStatus,
    pub start_time: Option<i64>,
    pub end_time: Option<i64>,
    pub execution_order: Option<usize>,
}

/// A message from one task to another.
#[derive(Debug)]
pub struct TaskCommunication {
    pub sender_id: TaskUuid,
    pub receiver_id: TaskUuid,
    pub message_type: String,
    pub payload: String,
}

impl Clone for TaskCommunication {
    fn clone(&self) -> (r: Self)
        ensures
            r.sender_id == self.sender_id,
            r.receiver_id == self.receiver_id,
            r.message_type@ == self.message_type@,
            r.payload@ == self.payload@,
    {
        TaskCommunication {
            sender_id: self.sender_id,
            receiver_id: self.receiver_id,
            message_type: self.message_type.clone(),
            payload: self.payload.clone(),
        }
    }
}

/// For each dependency of a task, whether it has completed.
pub type TaskDependencyMap = HashMap<TaskUuid, bool>;

/// For each task, the port on the local host where it listens.
pub type TaskAddressMap = HashMap<TaskUuid, u16>;

} // verus!
