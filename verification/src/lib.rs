//! Night: an extensible task queue that runs tasks in dependency order.
//!
//! The library holds the decision logic of the system: dependency
//! topologies and their level order, configuration validation, task and
//! mission state, priority queues, schedulers and the consistent-hash ring
//! that spreads tasks over nodes.

pub mod common;
pub mod error;
pub mod executor;
pub mod config;
pub mod distributed;
pub mod utils;
pub mod task;
pub mod mission;
pub mod persistence;
pub mod queue;
pub mod scheduler;

pub use config::config::ConfigManager;
pub use mission::mission::Mission;
pub use utils::error::{NightError, Result};
