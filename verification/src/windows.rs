//! Windows-specific pid ceiling, validation and snapshot-record filtering.
//!
//! Windows has no signal concept; its terminator forcibly ends a process
//! through a handle-based call. That call cannot be made from this build, but
//! the validation and indexing rules of the platform are ordinary logic and
//! are kept here.

use vstd::prelude::*;

use crate::types::{Error, ProcessInfo};

verus! {

/// The pid of the System Idle Process, which must never be targeted.
pub const SYSTEM_IDLE_PROCESS_PROCESS_ID: u32 = 0;

/// The pid of the System process, which must never be targeted.
pub const SYSTEM_PROCESS_ID: u32 = 4;

/// Every 32-bit pid is addressable on Windows (pids are generated as
/// multiples of 4, but the ceiling is u32::MAX).
pub const AVAILABLE_MAX_PROCESS_ID: u32 = 0xFFFF_FFFF;

/// A target pid is acceptable on Windows when it is neither the System Idle
/// Process nor the System process.
pub open spec fn validate_ok(process_id: u32) -> bool {
    process_id != SYSTEM_IDLE_PROCESS_PROCESS_ID && process_id != SYSTEM_PROCESS_ID
}

/// The reason string that rejection of `process_id` carries.
pub open spec fn validate_reason(process_id: u32) -> Seq<char> {
    if process_id == SYSTEM_IDLE_PROCESS_PROCESS_ID {
        "Not allowed to kill System Idle Process"@
    } else {
        "Not allowed to kill System"@
    }
}

/// Rejects the two reserved Windows pids; accepts every other pid.
pub fn validate_process_id(process_id: u32) -> (r: Result<(), Error>)
    ensures
        r is Ok <==> validate_ok(process_id),
        r matches Err(e) ==> (e matches Error::InvalidProcessId { process_id: p, reason } && p
            == process_id && reason@ == validate_reason(process_id)),
{
    if process_id == SYSTEM_IDLE_PROCESS_PROCESS_ID {
        Err(
            Error::InvalidProcessId {
                process_id,
                reason: String::from_str("Not allowed to kill System Idle Process"),
            },
        )
    } else if process_id == SYSTEM_PROCESS_ID {
        Err(
            Error::InvalidProcessId {
                process_id,
                reason: String::from_str("Not allowed to kill System"),
            },
        )
    } else {
        Ok(())
    }
}

/// Windows snapshots report the System Idle Process as its own parent; such
/// self-parented records are dropped from the child index.
pub fn child_process_id_map_filter(process_info: &ProcessInfo) -> (r: bool)
    ensures
        r == (process_info.process_id == process_info.parent_process_id),
{
    process_info.process_id == process_info.parent_process_id
}

} // verus!
