use vstd::prelude::*;
use vstd::string::StringExecFns;

verus! {

/// Errors of the mission runtime. Outside failures (I/O, serialisation, logging) are
/// carried as their message text.
#[derive(Debug)]
pub enum NightError {
    Io(String),
    Config(String),
    Task(String),
    Mission(String),
    Communication(String),
    Serialization(String),
    Logging(String),
    Unknown(String),
}

pub type Result<T> = std::result::Result<T, NightError>;

impl NightError {
    /// The message that the error carries.
    pub open spec fn detail(&self) -> Seq<char> {
        match self {
            NightError::Io(m) => m@,
            NightError::Config(m) => m@,
            NightError::Task(m) => m@,
            NightError::Mission(m) => m@,
            NightError::Communication(m) => m@,
            NightError::Serialization(m) => m@,
            NightError::Logging(m) => m@,
            NightError::Unknown(m) => m@,
        }
    }

    /// The text that shows the error to a person: its kind, a colon, and its message.
    pub open spec fn text(&self) -> Seq<char> {
        match self {
            NightError::Io(m) => "IO error: "@ + m@,
            NightError::Config(m) => "Configuration error: "@ + m@,
            NightError::Task(m) => "Task error: "@ + m@,
            NightError::Mission(m) => "Mission error: "@ + m@,
            NightError::Communication(m) => "Communication error: "@ + m@,
            NightError::Serialization(m) => "Serialization error: "@ + m@,
            NightError::Logging(m) => "Logging error: "@ + m@,
            NightError::Unknown(m) => "Unknown error: "@ + m@,
        }
    }

    /// Shows the error to a person.
    pub fn to_string(&self) -> (s: String)
        ensures
            s@ == self.text(),
    {
        let (prefix, m) = match self {
            NightError::Io(m) => ("IO error: ", m),
            NightError::Config(m) => ("Configuration error: ", m),
            NightError::Task(m) => ("Task error: ", m),
            NightError::Mission(m) => ("Mission error: ", m),
            NightError::Communication(m) => ("Communication error: ", m),
            NightError::Serialization(m) => ("Serialization error: ", m),
            NightError::Logging(m) => ("Logging error: ", m),
            NightError::Unknown(m) => ("Unknown error: ", m),
        };
        let mut s = String::from_str(prefix);
        s.append(m.as_str());
        s
    }
}

} // verus!
