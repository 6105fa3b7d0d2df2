//! Discovers the descendant set of a target process from a flat process
//! snapshot and terminates every member of that set, killing descendants
//! before ancestors and tolerating processes that vanish along the way.

mod types;

pub mod blocking;
pub mod common;
pub mod linux;
pub mod macos;
pub mod tree;
pub mod unix;
pub mod windows;

pub use crate::types::{
    ChildProcessIdMapFilter, Config, Error, KillOutput, Output, Outputs, ParentProcessId,
    ProcessId, ProcessIds, ProcessInfo, ProcessInfos,
};
pub use crate::types::u32_to_string;
pub use crate::blocking::{kill_tree, kill_tree_with_config};
pub use crate::common::get_available_max_process_id;
