//! Decision core of an adaptive workload-tuning agent.
//!
//! Everything here is pure: the agent's binary performs the reads of `/proc`,
//! sysfs and the probe maps, hands the values to this library, and carries out
//! the operations the library returns.
//!
//! Quantities that the kernel reports as decimals are held in fixed point:
//! PSI averages in hundredths of a percent, smoothed delays in nanoseconds,
//! scores, features and rewards in millionths.
use vstd::prelude::*;

pub mod actions;
pub mod bandit;
pub mod events;
pub mod gate;
pub mod maps;
pub mod metrics;
pub mod numa;
pub mod planner;
pub mod policy;
pub mod procfs;
pub mod psi;
pub mod stride;
pub mod text;
pub mod topology;
pub mod util;
