//! macOS-specific pid ceiling, validation and snapshot-record filtering.

use vstd::prelude::*;

use crate::types::{Error, ProcessInfo};

verus! {

/// The highest pid macOS will hand out (99998).
pub const AVAILABLE_MAX_PROCESS_ID: u32 = 99998;

/// Rejects the kernel and init pids and any pid above the macOS ceiling.
pub fn validate_process_id(process_id: u32) -> (r: Result<(), Error>)
    ensures
        r is Ok <==> crate::unix::validate_ok(process_id, AVAILABLE_MAX_PROCESS_ID),
        r matches Err(e) ==> (e matches Error::InvalidProcessId { process_id: p, reason } && p
            == process_id && reason@ == crate::unix::validate_reason(
            process_id,
            AVAILABLE_MAX_PROCESS_ID,
        )),
{
    crate::unix::validate_process_id(process_id, AVAILABLE_MAX_PROCESS_ID)
}

/// macOS snapshots carry no self-parented bookkeeping entries, so no record is
/// dropped from the child index.
pub fn child_process_id_map_filter(process_info: &ProcessInfo) -> (r: bool)
    ensures
        r == false,
{
    let _ = process_info;
    false
}

} // verus!
