pub mod mission;
pub mod topology;
