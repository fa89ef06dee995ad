//! CPU core lists handed out round-robin to threads, and the monitor of a
//! network function's connection to its controller.
use vstd::prelude::*;

pub mod affinity;
pub mod config;
pub mod cpu;
pub mod cpu_list;
pub mod error;
pub mod monitor;
pub mod text;

pub use crate::affinity::CpuSetSize;
pub use crate::config::socket::SocketConfig;
pub use crate::cpu::{AffinitySetter, CpuRange};
pub use crate::error::UtilError;
pub use crate::monitor::{FlashError, Monitor};

verus! {

} // verus!
