use vstd::prelude::*;
use vstd::string::StringExecFns;

verus! {

/// Errors of the priority queue, its scheduler and executor, persistence and the
/// distributed layer. Each carries its message text.
#[derive(Debug)]
pub enum NightError {
    TaskExecutionError(String),
    QueueOperationError(String),
    TaskNotFound(String),
    SerializationError(String),
    DeserializationError(String),
    PersistenceError(String),
    NetworkError(String),
    DistributedError(String),
}

pub type NightResult<T> = std::result::Result<T, NightError>;

impl NightError {
    /// The message that the error carries.
    pub open spec fn detail(&self) -> Seq<char> {
        match self {
            NightError::TaskExecutionError(m) => m@,
            NightError::QueueOperationError(m) => m@,
            NightError::TaskNotFound(m) => m@,
            NightError::SerializationError(m) => m@,
            NightError::DeserializationError(m) => m@,
            NightError::PersistenceError(m) => m@,
            NightError::NetworkError(m) => m@,
            NightError::DistributedError(m) => m@,
        }
    }

    /// The text that shows the error to a person: its kind, a colon, and its message.
    pub open spec fn text(&self) -> Seq<char> {
        match self {
            NightError::TaskExecutionError(m) => "Task execution error: "@ + m@,
            NightError::QueueOperationError(m) => "Queue operation error: "@ + m@,
            NightError::TaskNotFound(m) => "Task not found: "@ + m@,
            NightError::SerializationError(m) => "Serialization error: "@ + m@,
            NightError::DeserializationError(m) => "Deserialization error: "@ + m@,
            NightError::PersistenceError(m) => "Persistence error: "@ + m@,
            NightError::NetworkError(m) => "Network error: "@ + m@,
            NightError::DistributedError(m) => "Distributed error: "@ + m@,
        }
    }

    /// Shows the error to a person.
    pub fn to_string(&self) -> (s: String)
        ensures
            s@ == self.text(),
    {
        let (prefix, m) = match self {
            NightError::TaskExecutionError(m) => ("Task execution error: ", m),
            NightError::QueueOperationError(m) => ("Queue operation error: ", m),
            NightError::TaskNotFound(m) => ("Task not found: ", m),
            NightError::SerializationError(m) => ("Serialization error: ", m),
            NightError::DeserializationError(m) => ("Deserialization error: ", m),
            NightError::PersistenceError(m) => ("Persistence error: ", m),
            NightError::NetworkError(m) => ("Network error: ", m),
            NightError::DistributedError(m) => ("Distributed error: ", m),
        };
        let mut s = String::from_str(prefix);
        s.append(m.as_str());
        s
    }
}

} // verus!
