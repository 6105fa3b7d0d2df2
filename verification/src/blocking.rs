//! The synchronous entry points: validate the target pid, then resolve and
//! execute the kill plan over a snapshot of the process table. Reading the
//! process table is the caller's part (it is I/O); these functions take the
//! snapshot as a value and do everything after it.

use vstd::prelude::*;

use crate::common::{
    children_reported_first, covers_tree, distinct_output_pids, killed_fields_from_records,
    kill_tree_internal, no_duplicate_killed,
};
use crate::tree::{snapshot_no_cycle_through_root, snapshot_reaches, wf_snapshot};
use crate::unix::recognized_signal_name;
use crate::types::{ChildProcessIdMapFilter, Config, Error, Outputs, ProcessId, ProcessInfos};

verus! {

/// Kills the target process and all of its children recursively, descendants
/// first, using the given configuration. The target pid is validated against
/// the reserved ids and the platform ceiling before any other work: an
/// invalid pid fails with exactly `InvalidProcessId` and nothing is signaled.
/// On success the outcome list is a filled table of the target's tree: every
/// reported pid lies in the tree in the snapshot (the target itself only when
/// `config.include_target`), every tree pid is reported — except a target
/// that no snapshot record carries, whose `Killed` report would have no
/// metadata — no pid is reported twice, every `Killed` report carries its
/// record's metadata, and — whenever the snapshot is well formed and the
/// target sits on no cycle — no process is reported before any of its
/// children. An unrecognized signal name fails with the `EINVAL` text before
/// anything is signaled, and a target that is excluded and childless
/// succeeds with an empty list without signaling anything.
pub fn kill_tree_with_config(
    process_id: ProcessId,
    config: &Config,
    process_infos: ProcessInfos,
) -> (r: Result<Outputs, Error>)
    ensures
        !crate::unix::validate_ok(process_id, crate::linux::AVAILABLE_MAX_PROCESS_ID) <==> (r
            matches Err(e) && e is InvalidProcessId),
        r matches Err(Error::InvalidProcessId { process_id: p, reason }) ==> (p == process_id
            && reason@ == crate::unix::validate_reason(
            process_id,
            crate::linux::AVAILABLE_MAX_PROCESS_ID,
        )),
        r matches Err(e) ==> (e is InvalidProcessId || e is Unix || e is InvalidCast),
        r matches Ok(outputs) ==> {
            &&& no_duplicate_killed(outputs@)
            &&& forall |j: int|
                0 <= j < outputs@.len() ==> snapshot_reaches(
                    process_infos@,
                    ChildProcessIdMapFilter::KeepAll,
                    process_id,
                    (#[trigger] outputs@[j]).pid(),
                ) && (config.include_target || outputs@[j].pid() != process_id)
            &&& forall |j: int|
                0 <= j < outputs@.len() ==> killed_fields_from_records(
                    process_infos@,
                    #[trigger] outputs@[j],
                )
            &&& distinct_output_pids(outputs@)
            &&& covers_tree(process_infos@, process_id, config.include_target, outputs@)
            &&& wf_snapshot(process_infos@) && snapshot_no_cycle_through_root(
                process_infos@,
                ChildProcessIdMapFilter::KeepAll,
                process_id,
            ) ==> children_reported_first(process_infos@, outputs@)
        },
        (r matches Err(e) && e is InvalidCast) ==> exists |v: u32|
            snapshot_reaches(process_infos@, ChildProcessIdMapFilter::KeepAll, process_id, v) && v
                > 0x7FFF_FFFF,
        crate::unix::validate_ok(process_id, crate::linux::AVAILABLE_MAX_PROCESS_ID)
            && !recognized_signal_name(config.signal@) ==> (r matches Err(e) && e matches
        Error::Unix { message } && message@ == "EINVAL: Invalid argument"@),
        crate::unix::validate_ok(process_id, crate::linux::AVAILABLE_MAX_PROCESS_ID) && (forall |
            i: int,
        |
            0 <= i < process_infos@.len() ==> (#[trigger] process_infos@[i]).parent_process_id
                != process_id) && !config.include_target && recognized_signal_name(config.signal@)
            ==> (r matches Ok(outputs) && outputs@.len() == 0),
{
    match crate::linux::validate_process_id(process_id) {
        Ok(()) => kill_tree_internal(process_id, config, process_infos),
        Err(e) => Err(e),
    }
}

/// Kills the target process and all of its children recursively, descendants
/// first, with the default configuration (SIGTERM, target included). See
/// `kill_tree_with_config`.
pub fn kill_tree(process_id: ProcessId, process_infos: ProcessInfos) -> (r: Result<
    Outputs,
    Error,
>)
    ensures
        !crate::unix::validate_ok(process_id, crate::linux::AVAILABLE_MAX_PROCESS_ID) <==> (r
            matches Err(e) && e is InvalidProcessId),
        r matches Err(Error::InvalidProcessId { process_id: p, reason }) ==> (p == process_id
            && reason@ == crate::unix::validate_reason(
            process_id,
            crate::linux::AVAILABLE_MAX_PROCESS_ID,
        )),
        r matches Err(e) ==> (e is InvalidProcessId || e is Unix || e is InvalidCast),
        r matches Ok(outputs) ==> {
            &&& no_duplicate_killed(outputs@)
            &&& forall |j: int|
                0 <= j < outputs@.len() ==> snapshot_reaches(
                    process_infos@,
                    ChildProcessIdMapFilter::KeepAll,
                    process_id,
                    (#[trigger] outputs@[j]).pid(),
                )
            &&& forall |j: int|
                0 <= j < outputs@.len() ==> killed_fields_from_records(
                    process_infos@,
                    #[trigger] outputs@[j],
                )
            &&& distinct_output_pids(outputs@)
            &&& covers_tree(process_infos@, process_id, true, outputs@)
            &&& wf_snapshot(process_infos@) && snapshot_no_cycle_through_root(
                process_infos@,
                ChildProcessIdMapFilter::KeepAll,
                process_id,
            ) ==> children_reported_first(process_infos@, outputs@)
        },
        (r matches Err(e) && e is InvalidCast) ==> exists |v: u32|
            snapshot_reaches(process_infos@, ChildProcessIdMapFilter::KeepAll, process_id, v) && v
                > 0x7FFF_FFFF,
{
    let config = Config::default();
    kill_tree_with_config(process_id, &config, process_infos)
}

} // verus!
