//! Platform-independent core: building the parent-to-children index from a
//! snapshot, resolving the breadth-first kill plan, and joining kill outcomes
//! back against the snapshot records.

use std::collections::HashMap;
use vstd::prelude::*;

use crate::tree::{
    bfs_discovery_order, bfs_expand_from, bfs_justified, child_after_parent, edge_closed,
    index_edge, lemma_bfs_child_after_parent, lemma_closed_contains_reachable,
    lemma_order_membership, lemma_plan_without_root, lemma_push_new_split,
    lemma_reaches_iff_snapshot, lemma_reaches_refl, lemma_reaches_step, lemma_u32_seq_len_bound,
    lemma_no_cycle_iff_snapshot, lemma_wf_snapshot_parent_unique, no_cycle_through_root,
    parent_unique, push_new, reaches, snapshot_edge, snapshot_no_cycle_through_root,
    snapshot_reaches, wf_snapshot,
};
use crate::types::{ChildProcessIdMapFilter, Config, Error, KillOutput, Output, Outputs,
    ProcessId, ProcessIds, ProcessInfo, ProcessInfos};

verus! {

/// A list of the children of one parent, ascending.
pub type ChildProcessIds = Vec<ProcessId>;

/// The parent-to-children index built from one snapshot.
pub type ChildProcessIdMap = HashMap<ProcessId, ChildProcessIds>;

/// Returns the max available process id of the platform this build targets
/// (the Linux ceiling, 0x400000; in decimal, 4194304). The Windows ceiling is
/// `u32::MAX` and the macOS ceiling is 99998; those stand beside their own
/// validators.
pub fn get_available_max_process_id() -> (r: u32)
    ensures
        r == crate::linux::AVAILABLE_MAX_PROCESS_ID,
{
    crate::linux::AVAILABLE_MAX_PROCESS_ID
}

/// A sequence of pids in strictly ascending order: sorted and free of
/// duplicates.
pub open spec fn strictly_ascending(s: Seq<u32>) -> bool {
    forall |i: int, j: int| 0 <= i < j < s.len() ==> s[i] < s[j]
}

/// Inserts `value` into the strictly ascending list `children` unless it is
/// already there, keeping the list strictly ascending.
fn insert_sorted(children: &mut Vec<u32>, value: u32)
    requires
        strictly_ascending(old(children)@),
    ensures
        strictly_ascending(final(children)@),
        forall |x: u32|
            final(children)@.contains(x) <==> (old(children)@.contains(x) || x == value),
{
    let mut idx: usize = 0;
    while idx < children.len() && children[idx] < value
        invariant
            idx <= children@.len(),
            strictly_ascending(children@),
            children@ == old(children)@,
            forall |k: int| 0 <= k < idx ==> children@[k] < value,
        decreases children@.len() - idx,
    {
        idx += 1;
    }
    assert(idx < children@.len() ==> children@[idx as int] >= value);
    if idx < children.len() && children[idx] == value {
        assert(children@.contains(value)) by {
            assert(children@[idx as int] == value);
        }
        return;
    }
    assert(idx < children@.len() ==> children@[idx as int] > value);
    children.insert(idx, value);
    assert forall |i: int, j: int| 0 <= i < j < children@.len() implies children@[i]
        < children@[j] by {
        if i < idx && j == idx {
            assert(old(children)@[i] < value);
        } else if i == idx && j > idx {
            assert(value < old(children)@[j - 1]) by {
                assert(old(children)@[idx as int] <= old(children)@[j - 1]);
            }
        } else if i < idx && j > idx {
            assert(old(children)@[i] < value && value < old(children)@[j - 1]) by {
                assert(old(children)@[idx as int] <= old(children)@[j - 1]);
            }
        }
    }
    assert forall |x: u32| children@.contains(x) implies (old(children)@.contains(x) || x
        == value) by {
        let i = choose |i: int| 0 <= i < children@.len() && children@[i] == x;
        if i < idx {
            assert(old(children)@[i] == x);
        } else if i > idx {
            assert(old(children)@[i - 1] == x);
        }
    }
    assert forall |x: u32| old(children)@.contains(x) implies children@.contains(x) by {
        let i = choose |i: int| 0 <= i < old(children)@.len() && old(children)@[i] == x;
        if i < idx {
            assert(children@[i] == x);
        } else {
            assert(children@[i + 1] == x);
        }
    }
    assert(children@.contains(value)) by {
        assert(children@[idx as int] == value);
    }
}

/// Builds the map from parent pid to the strictly ascending list of its
/// children's pids, dropping the records that `filter` excludes. The edges of
/// the built index are exactly the parent-child pairs the snapshot describes,
/// and a key is present exactly for the recorded parents.
pub fn get_child_process_id_map(
    process_infos: &ProcessInfos,
    filter: ChildProcessIdMapFilter,
) -> (map: ChildProcessIdMap)
    ensures
        forall |p: u32, c: u32|
            #[trigger] index_edge(map@, p, c) <==> snapshot_edge(process_infos@, filter, p, c),
        forall |p: u32|
            #[trigger] map@.contains_key(p) <==> exists |i: int|
                0 <= i < process_infos@.len() && (#[trigger] process_infos@[i]).parent_process_id
                    == p && !filter.excludes_spec(process_infos@[i]),
        forall |p: u32| #[trigger] map@.contains_key(p) ==> strictly_ascending(map@[p]@),
{
    let ghost records = process_infos@;
    let mut map: ChildProcessIdMap = HashMap::new();
    let mut n: usize = 0;
    while n < process_infos.len()
        invariant
            n <= records.len(),
            process_infos@ == records,
            forall |p: u32, c: u32|
                #[trigger] index_edge(map@, p, c) <==> snapshot_edge(
                    records.take(n as int),
                    filter,
                    p,
                    c,
                ),
            forall |p: u32|
                #[trigger] map@.contains_key(p) <==> exists |i: int|
                    0 <= i < n && (#[trigger] records[i]).parent_process_id == p
                        && !filter.excludes_spec(records[i]),
            forall |p: u32| #[trigger] map@.contains_key(p) ==> strictly_ascending(map@[p]@),
        decreases records.len() - n,
    {
        let ghost prev = map@;
        let info = &process_infos[n];
        if !filter.excludes(info) {
            let mut children: Vec<u32> = match map.remove(&info.parent_process_id) {
                Some(existing) => existing,
                None => Vec::new(),
            };
            assert(forall |c: u32|
                children@.contains(c) <==> index_edge(prev, info.parent_process_id, c));
            insert_sorted(&mut children, info.process_id);
            map.insert(info.parent_process_id, children);
            assert forall |p: u32, c: u32| #[trigger] index_edge(map@, p, c) implies snapshot_edge(
                records.take(n as int + 1),
                filter,
                p,
                c,
            ) by {
                if p == info.parent_process_id {
                    if c == info.process_id {
                        assert(records.take(n as int + 1)[n as int] == records[n as int]);
                    } else {
                        assert(index_edge(prev, p, c));
                        let i = choose |i: int|
                            0 <= i < records.take(n as int).len() && (#[trigger] records.take(
                                n as int,
                            )[i]).parent_process_id == p && records.take(n as int)[i].process_id
                                == c && !filter.excludes_spec(records.take(n as int)[i]);
                        assert(records.take(n as int + 1)[i] == records.take(n as int)[i]);
                    }
                } else {
                    assert(index_edge(prev, p, c));
                    let i = choose |i: int|
                        0 <= i < records.take(n as int).len() && (#[trigger] records.take(
                            n as int,
                        )[i]).parent_process_id == p && records.take(n as int)[i].process_id == c
                            && !filter.excludes_spec(records.take(n as int)[i]);
                    assert(records.take(n as int + 1)[i] == records.take(n as int)[i]);
                }
            }
            assert forall |p: u32, c: u32|
                snapshot_edge(records.take(n as int + 1), filter, p, c) implies #[trigger]
                index_edge(map@, p, c) by {
                let i = choose |i: int|
                    0 <= i < records.take(n as int + 1).len() && (#[trigger] records.take(
                        n as int + 1,
                    )[i]).parent_process_id == p && records.take(n as int + 1)[i].process_id == c
                        && !filter.excludes_spec(records.take(n as int + 1)[i]);
                if i < n as int {
                    assert(records.take(n as int)[i] == records.take(n as int + 1)[i]);
                    assert(snapshot_edge(records.take(n as int), filter, p, c));
                    assert(index_edge(prev, p, c));
                }
            }
            assert forall |p: u32| #[trigger] map@.contains_key(p) implies exists |i: int|
                0 <= i < n + 1 && (#[trigger] records[i]).parent_process_id == p
                    && !filter.excludes_spec(records[i]) by {
                if p == info.parent_process_id {
                    assert((records[n as int]).parent_process_id == p);
                } else {
                    assert(prev.contains_key(p));
                }
            }
            assert forall |p: u32|
                (exists |i: int|
                    0 <= i < n + 1 && (#[trigger] records[i]).parent_process_id == p
                        && !filter.excludes_spec(records[i])) implies #[trigger]
                map@.contains_key(p) by {
                let i = choose |i: int|
                    0 <= i < n + 1 && (#[trigger] records[i]).parent_process_id == p
                        && !filter.excludes_spec(records[i]);
                if i < n as int {
                    assert(prev.contains_key(p));
                }
            }
        } else {
            assert forall |p: u32, c: u32| #[trigger] index_edge(map@, p, c) implies snapshot_edge(
                records.take(n as int + 1),
                filter,
                p,
                c,
            ) by {
                let i = choose |i: int|
                    0 <= i < records.take(n as int).len() && (#[trigger] records.take(
                        n as int,
                    )[i]).parent_process_id == p && records.take(n as int)[i].process_id == c
                        && !filter.excludes_spec(records.take(n as int)[i]);
                assert(records.take(n as int + 1)[i] == records.take(n as int)[i]);
            }
            assert forall |p: u32, c: u32|
                snapshot_edge(records.take(n as int + 1), filter, p, c) implies #[trigger]
                index_edge(map@, p, c) by {
                let i = choose |i: int|
                    0 <= i < records.take(n as int + 1).len() && (#[trigger] records.take(
                        n as int + 1,
                    )[i]).parent_process_id == p && records.take(n as int + 1)[i].process_id == c
                        && !filter.excludes_spec(records.take(n as int + 1)[i]);
                assert(records.take(n as int + 1)[i] == records[i]);
                if i == n as int {
                    assert(filter.excludes_spec(records[n as int]));
                    assert(false);
                } else {
                    assert(records.take(n as int)[i] == records[i]);
                    assert(snapshot_edge(records.take(n as int), filter, p, c));
                }
            }
            assert forall |p: u32|
                (exists |i: int|
                    0 <= i < n + 1 && (#[trigger] records[i]).parent_process_id == p
                        && !filter.excludes_spec(records[i])) implies #[trigger]
                map@.contains_key(p) by {
                let i = choose |i: int|
                    0 <= i < n + 1 && (#[trigger] records[i]).parent_process_id == p
                        && !filter.excludes_spec(records[i]);
                assert(i != n as int);
            }
        }
        n += 1;
    }
    assert(records.take(records.len() as int) =~= records);
    map
}

/// The map from pid to snapshot record.
pub type ProcessInfoMap = HashMap<ProcessId, ProcessInfo>;

/// Builds the map from process id to its snapshot record. A pid is a key
/// exactly when some record carries it, and each key's record is one of the
/// snapshot's records for that pid.
pub fn get_process_info_map(process_infos: ProcessInfos) -> (map: ProcessInfoMap)
    ensures
        forall |pid: u32|
            #[trigger] map@.contains_key(pid) <==> exists |i: int|
                0 <= i < process_infos@.len() && (#[trigger] process_infos@[i]).process_id == pid,
        forall |pid: u32|
            #[trigger] map@.contains_key(pid) ==> map@[pid].process_id == pid
                && process_infos@.contains(map@[pid]),
{
    let ghost records = process_infos@;
    let mut remaining = process_infos;
    let mut map: ProcessInfoMap = HashMap::new();
    let ghost n: int = 0;
    while remaining.len() > 0
        invariant
            0 <= n <= records.len(),
            remaining@ =~= records.skip(n),
            forall |pid: u32|
                #[trigger] map@.contains_key(pid) <==> exists |i: int|
                    0 <= i < n && (#[trigger] records[i]).process_id == pid,
            forall |pid: u32|
                #[trigger] map@.contains_key(pid) ==> map@[pid].process_id == pid
                    && records.contains(map@[pid]),
        decreases remaining@.len(),
    {
        let ghost prev = map@;
        let info = remaining.remove(0);
        assert(info == records[n]);
        assert(records.contains(info)) by {
            assert(records[n] == info);
        }
        map.insert(info.process_id, info);
        proof {
            n = n + 1;
        }
        assert forall |pid: u32| #[trigger] map@.contains_key(pid) implies exists |i: int|
            0 <= i < n && (#[trigger] records[i]).process_id == pid by {
            if pid == records[n - 1].process_id {
                assert((records[n - 1]).process_id == pid);
            } else {
                assert(prev.contains_key(pid));
            }
        }
    }
    assert(records.skip(records.len() as int) =~= Seq::<ProcessInfo>::empty());
    map
}

/// Joins one kill outcome back against the snapshot records. A `Killed`
/// outcome consumes its record and carries the record's metadata out; if the
/// record is gone (a duplicate pid in the plan — defensive, should not occur)
/// the outcome is dropped rather than fabricated. A `MaybeAlreadyTerminated`
/// outcome passes through unchanged.
pub fn parse_kill_output(
    kill_output: KillOutput,
    process_info_map: &mut ProcessInfoMap,
) -> (r: Option<Output>)
    ensures
        match kill_output {
            KillOutput::Killed { process_id } => {
                if old(process_info_map)@.contains_key(process_id) {
                    &&& final(process_info_map)@ == old(process_info_map)@.remove(process_id)
                    &&& r == Some(
                        (Output::Killed {
                            process_id: old(process_info_map)@[process_id].process_id,
                            parent_process_id: old(
                                process_info_map,
                            )@[process_id].parent_process_id,
                            name: old(process_info_map)@[process_id].name,
                        }),
                    )
                } else {
                    &&& final(process_info_map)@ == old(process_info_map)@
                    &&& r is None
                }
            },
            KillOutput::MaybeAlreadyTerminated { process_id, source } => {
                &&& final(process_info_map)@ == old(process_info_map)@
                &&& r == Some((Output::MaybeAlreadyTerminated { process_id, source }))
            },
        },
{
    let ghost pre = process_info_map@;
    match kill_output {
        KillOutput::Killed { process_id } => {
            match process_info_map.remove(&process_id) {
                Some(process_info) => Some(
                    Output::Killed {
                        process_id: process_info.process_id,
                        parent_process_id: process_info.parent_process_id,
                        name: process_info.name,
                    },
                ),
                None => {
                    assert(pre.remove(process_id) =~= pre);
                    None
                },
            }
        },
        KillOutput::MaybeAlreadyTerminated { process_id, source } => Some(
            Output::MaybeAlreadyTerminated { process_id, source },
        ),
    }
}

/// What aggregation produces: the outputs for `kill_outputs` joined in order
/// against `m`, and the map left after the consumed records are removed.
pub open spec fn aggregate_spec(
    kill_outputs: Seq<KillOutput>,
    m: Map<u32, ProcessInfo>,
) -> (Seq<Output>, Map<u32, ProcessInfo>)
    decreases kill_outputs.len(),
{
    if kill_outputs.len() == 0 {
        (Seq::<Output>::empty(), m)
    } else {
        match kill_outputs[0] {
            KillOutput::Killed { process_id } => {
                if m.contains_key(process_id) {
                    let rest = aggregate_spec(kill_outputs.drop_first(), m.remove(process_id));
                    (
                        seq![
                            (Output::Killed {
                                process_id: m[process_id].process_id,
                                parent_process_id: m[process_id].parent_process_id,
                                name: m[process_id].name,
                            }),
                        ] + rest.0,
                        rest.1,
                    )
                } else {
                    aggregate_spec(kill_outputs.drop_first(), m)
                }
            },
            KillOutput::MaybeAlreadyTerminated { process_id, source } => {
                let rest = aggregate_spec(kill_outputs.drop_first(), m);
                (seq![(Output::MaybeAlreadyTerminated { process_id, source })] + rest.0, rest.1)
            },
        }
    }
}

/// Every record of the map is keyed by its own pid.
pub open spec fn keyed_by_pid(m: Map<u32, ProcessInfo>) -> bool {
    forall |pid: u32| #[trigger] m.contains_key(pid) ==> m[pid].process_id == pid
}

/// Every `Killed` output's pid is a key of `m`.
pub open spec fn killed_pids_in(outs: Seq<Output>, m: Map<u32, ProcessInfo>) -> bool {
    forall |j: int|
        0 <= j < outs.len() && outs[j] is Killed ==> m.contains_key((#[trigger] outs[j]).pid())
}

/// No two `Killed` outputs carry the same pid.
pub open spec fn no_duplicate_killed(outs: Seq<Output>) -> bool {
    forall |a: int, b: int|
        0 <= a < b < outs.len() && outs[a] is Killed && outs[b] is Killed
            ==> (#[trigger] outs[a]).pid() != (#[trigger] outs[b]).pid()
}

/// Aggregation never emits two `Killed` outputs with the same pid: each
/// `Killed` output consumes its record, so a pid's record can be consumed at
/// most once.
pub proof fn lemma_aggregate_no_duplicate_killed(
    kill_outputs: Seq<KillOutput>,
    m: Map<u32, ProcessInfo>,
)
    requires
        keyed_by_pid(m),
    ensures
        killed_pids_in(aggregate_spec(kill_outputs, m).0, m),
        no_duplicate_killed(aggregate_spec(kill_outputs, m).0),
    decreases kill_outputs.len(),
{
    if kill_outputs.len() == 0 {
    } else {
        let outs = aggregate_spec(kill_outputs, m).0;
        match kill_outputs[0] {
            KillOutput::Killed { process_id } => {
                if m.contains_key(process_id) {
                    let m2 = m.remove(process_id);
                    let rest = aggregate_spec(kill_outputs.drop_first(), m2);
                    lemma_aggregate_no_duplicate_killed(kill_outputs.drop_first(), m2);
                    assert(outs[0].pid() == process_id);
                    assert forall |j: int|
                        0 <= j < outs.len() && outs[j] is Killed implies m.contains_key(
                        (#[trigger] outs[j]).pid(),
                    ) by {
                        if j > 0 {
                            assert(outs[j] == rest.0[j - 1]);
                            assert(m2.contains_key(rest.0[j - 1].pid()));
                        }
                    }
                    assert forall |a: int, b: int|
                        0 <= a < b < outs.len() && outs[a] is Killed && outs[b] is Killed implies (
                    #[trigger] outs[a]).pid() != (#[trigger] outs[b]).pid() by {
                        assert(outs[b] == rest.0[b - 1]);
                        if a == 0 {
                            assert(m2.contains_key(rest.0[b - 1].pid()));
                            assert(!m2.contains_key(process_id));
                        } else {
                            assert(outs[a] == rest.0[a - 1]);
                        }
                    }
                } else {
                    lemma_aggregate_no_duplicate_killed(kill_outputs.drop_first(), m);
                }
            },
            KillOutput::MaybeAlreadyTerminated { .. } => {
                let rest = aggregate_spec(kill_outputs.drop_first(), m);
                lemma_aggregate_no_duplicate_killed(kill_outputs.drop_first(), m);
                assert forall |j: int|
                    0 <= j < outs.len() && outs[j] is Killed implies m.contains_key(
                    (#[trigger] outs[j]).pid(),
                ) by {
                    assert(outs[j] == rest.0[j - 1]);
                }
                assert forall |a: int, b: int|
                    0 <= a < b < outs.len() && outs[a] is Killed && outs[b] is Killed implies (
                #[trigger] outs[a]).pid() != (#[trigger] outs[b]).pid() by {
                    assert(outs[b] == rest.0[b - 1]);
                    assert(outs[a] == rest.0[a - 1]);
                }
            },
        }
    }
}

/// A `Killed` output's metadata agrees with the record of its pid in `m`.
pub open spec fn killed_fields_from(m: Map<u32, ProcessInfo>, o: Output) -> bool {
    o matches Output::Killed { process_id: p, parent_process_id: pp, name } ==> (m.contains_key(p)
        && m[p].parent_process_id == pp && m[p].name == name)
}

/// Every output of aggregation takes its pid from one of the kill outcomes,
/// and every `Killed` output takes its metadata from the record of its pid.
pub proof fn lemma_aggregate_output_sources(
    kill_outputs: Seq<KillOutput>,
    m: Map<u32, ProcessInfo>,
)
    requires
        keyed_by_pid(m),
    ensures
        forall |j: int|
            0 <= j < aggregate_spec(kill_outputs, m).0.len() ==> exists |i: int|
                0 <= i < kill_outputs.len() && (#[trigger] aggregate_spec(kill_outputs, m).0[j]).pid()
                    == kill_outputs[i].pid(),
        forall |j: int|
            0 <= j < aggregate_spec(kill_outputs, m).0.len() ==> killed_fields_from(
                m,
                #[trigger] aggregate_spec(kill_outputs, m).0[j],
            ),
    decreases kill_outputs.len(),
{
    if kill_outputs.len() == 0 {
    } else {
        let outs = aggregate_spec(kill_outputs, m).0;
        let rest_outputs = kill_outputs.drop_first();
        match kill_outputs[0] {
            KillOutput::Killed { process_id } => {
                if m.contains_key(process_id) {
                    let m2 = m.remove(process_id);
                    let rest = aggregate_spec(rest_outputs, m2);
                    lemma_aggregate_output_sources(rest_outputs, m2);
                    assert forall |j: int| 0 <= j < outs.len() implies exists |i: int|
                        0 <= i < kill_outputs.len() && (#[trigger] outs[j]).pid()
                            == kill_outputs[i].pid() by {
                        if j == 0 {
                            assert(outs[0].pid() == kill_outputs[0].pid());
                        } else {
                            assert(outs[j] == rest.0[j - 1]);
                            let i = choose |i: int|
                                0 <= i < rest_outputs.len() && (rest.0[j - 1]).pid()
                                    == rest_outputs[i].pid();
                            assert(kill_outputs[i + 1].pid() == outs[j].pid());
                        }
                    }
                    assert forall |j: int| 0 <= j < outs.len() implies killed_fields_from(
                        m,
                        #[trigger] outs[j],
                    ) by {
                        if j > 0 {
                            assert(outs[j] == rest.0[j - 1]);
                            assert(killed_fields_from(m2, rest.0[j - 1]));
                        }
                    }
                } else {
                    lemma_aggregate_output_sources(rest_outputs, m);
                    let rest = aggregate_spec(rest_outputs, m);
                    assert forall |j: int| 0 <= j < outs.len() implies exists |i: int|
                        0 <= i < kill_outputs.len() && (#[trigger] outs[j]).pid()
                            == kill_outputs[i].pid() by {
                        assert(outs[j] == rest.0[j]);
                        let i = choose |i: int|
                            0 <= i < rest_outputs.len() && (rest.0[j]).pid()
                                == rest_outputs[i].pid();
                        assert(kill_outputs[i + 1].pid() == outs[j].pid());
                    }
                }
            },
            KillOutput::MaybeAlreadyTerminated { .. } => {
                let rest = aggregate_spec(rest_outputs, m);
                lemma_aggregate_output_sources(rest_outputs, m);
                assert forall |j: int| 0 <= j < outs.len() implies exists |i: int|
                    0 <= i < kill_outputs.len() && (#[trigger] outs[j]).pid()
                        == kill_outputs[i].pid() by {
                    if j == 0 {
                        assert(outs[0].pid() == kill_outputs[0].pid());
                    } else {
                        assert(outs[j] == rest.0[j - 1]);
                        let i = choose |i: int|
                            0 <= i < rest_outputs.len() && (rest.0[j - 1]).pid()
                                == rest_outputs[i].pid();
                        assert(kill_outputs[i + 1].pid() == outs[j].pid());
                    }
                }
                assert forall |j: int| 0 <= j < outs.len() implies killed_fields_from(
                    m,
                    #[trigger] outs[j],
                ) by {
                    if j > 0 {
                        assert(outs[j] == rest.0[j - 1]);
                        assert(killed_fields_from(m, rest.0[j - 1]));
                    }
                }
            },
        }
    }
}

/// The kill outcome that the output at position `a` takes its pid from.
pub proof fn lemma_aggregate_output_source_at(
    kill_outputs: Seq<KillOutput>,
    m: Map<u32, ProcessInfo>,
    a: int,
) -> (i: int)
    requires
        keyed_by_pid(m),
        0 <= a < aggregate_spec(kill_outputs, m).0.len(),
    ensures
        0 <= i < kill_outputs.len(),
        aggregate_spec(kill_outputs, m).0[a].pid() == kill_outputs[i].pid(),
    decreases kill_outputs.len(),
{
    let outs = aggregate_spec(kill_outputs, m).0;
    let rest_outputs = kill_outputs.drop_first();
    match kill_outputs[0] {
        KillOutput::Killed { process_id } => {
            if m.contains_key(process_id) {
                let m2 = m.remove(process_id);
                assert(keyed_by_pid(m2));
                if a == 0 {
                    assert(outs[0].pid() == kill_outputs[0].pid());
                    0
                } else {
                    assert(outs[a] == aggregate_spec(rest_outputs, m2).0[a - 1]);
                    let i0 = lemma_aggregate_output_source_at(rest_outputs, m2, a - 1);
                    assert(kill_outputs[i0 + 1] == rest_outputs[i0]);
                    i0 + 1
                }
            } else {
                assert(outs[a] == aggregate_spec(rest_outputs, m).0[a]);
                let i0 = lemma_aggregate_output_source_at(rest_outputs, m, a);
                assert(kill_outputs[i0 + 1] == rest_outputs[i0]);
                i0 + 1
            }
        },
        KillOutput::MaybeAlreadyTerminated { .. } => {
            if a == 0 {
                assert(outs[0].pid() == kill_outputs[0].pid());
                0
            } else {
                assert(outs[a] == aggregate_spec(rest_outputs, m).0[a - 1]);
                let i0 = lemma_aggregate_output_source_at(rest_outputs, m, a - 1);
                assert(kill_outputs[i0 + 1] == rest_outputs[i0]);
                i0 + 1
            }
        },
    }
}

/// Aggregation reports outcomes in the order they were produced: two outputs
/// take their pids from two kill outcomes standing in the same relative
/// order.
pub proof fn lemma_aggregate_preserves_order(
    kill_outputs: Seq<KillOutput>,
    m: Map<u32, ProcessInfo>,
    a: int,
    b: int,
) -> (ij: (int, int))
    requires
        keyed_by_pid(m),
        0 <= a < b < aggregate_spec(kill_outputs, m).0.len(),
    ensures
        0 <= ij.0 < ij.1 < kill_outputs.len(),
        aggregate_spec(kill_outputs, m).0[a].pid() == kill_outputs[ij.0].pid(),
        aggregate_spec(kill_outputs, m).0[b].pid() == kill_outputs[ij.1].pid(),
    decreases kill_outputs.len(),
{
    let outs = aggregate_spec(kill_outputs, m).0;
    let rest_outputs = kill_outputs.drop_first();
    match kill_outputs[0] {
        KillOutput::Killed { process_id } => {
            if m.contains_key(process_id) {
                let m2 = m.remove(process_id);
                assert(keyed_by_pid(m2));
                if a == 0 {
                    assert(outs[0].pid() == kill_outputs[0].pid());
                    assert(outs[b] == aggregate_spec(rest_outputs, m2).0[b - 1]);
                    let j0 = lemma_aggregate_output_source_at(rest_outputs, m2, b - 1);
                    assert(kill_outputs[j0 + 1] == rest_outputs[j0]);
                    (0, j0 + 1)
                } else {
                    assert(outs[a] == aggregate_spec(rest_outputs, m2).0[a - 1]);
                    assert(outs[b] == aggregate_spec(rest_outputs, m2).0[b - 1]);
                    let ij0 = lemma_aggregate_preserves_order(rest_outputs, m2, a - 1, b - 1);
                    assert(kill_outputs[ij0.0 + 1] == rest_outputs[ij0.0]);
                    assert(kill_outputs[ij0.1 + 1] == rest_outputs[ij0.1]);
                    (ij0.0 + 1, ij0.1 + 1)
                }
            } else {
                assert(outs[a] == aggregate_spec(rest_outputs, m).0[a]);
                assert(outs[b] == aggregate_spec(rest_outputs, m).0[b]);
                let ij0 = lemma_aggregate_preserves_order(rest_outputs, m, a, b);
                assert(kill_outputs[ij0.0 + 1] == rest_outputs[ij0.0]);
                assert(kill_outputs[ij0.1 + 1] == rest_outputs[ij0.1]);
                (ij0.0 + 1, ij0.1 + 1)
            }
        },
        KillOutput::MaybeAlreadyTerminated { .. } => {
            if a == 0 {
                assert(outs[0].pid() == kill_outputs[0].pid());
                assert(outs[b] == aggregate_spec(rest_outputs, m).0[b - 1]);
                let j0 = lemma_aggregate_output_source_at(rest_outputs, m, b - 1);
                assert(kill_outputs[j0 + 1] == rest_outputs[j0]);
                (0, j0 + 1)
            } else {
                assert(outs[a] == aggregate_spec(rest_outputs, m).0[a - 1]);
                assert(outs[b] == aggregate_spec(rest_outputs, m).0[b - 1]);
                let ij0 = lemma_aggregate_preserves_order(rest_outputs, m, a - 1, b - 1);
                assert(kill_outputs[ij0.0 + 1] == rest_outputs[ij0.0]);
                assert(kill_outputs[ij0.1 + 1] == rest_outputs[ij0.1]);
                (ij0.0 + 1, ij0.1 + 1)
            }
        },
    }
}

/// Joins every kill outcome against the snapshot records, in order. The
/// result is exactly what `aggregate_spec` describes; in particular no two
/// `Killed` outputs carry the same pid.
pub fn aggregate_kill_outputs(
    kill_outputs: Vec<KillOutput>,
    process_info_map: &mut ProcessInfoMap,
) -> (outputs: Outputs)
    requires
        keyed_by_pid(old(process_info_map)@),
    ensures
        outputs@ == aggregate_spec(kill_outputs@, old(process_info_map)@).0,
        final(process_info_map)@ == aggregate_spec(kill_outputs@, old(process_info_map)@).1,
        no_duplicate_killed(outputs@),
{
    let ghost full = kill_outputs@;
    let ghost m0 = process_info_map@;
    let mut remaining = kill_outputs;
    let mut outputs: Outputs = Vec::new();
    proof {
        lemma_aggregate_no_duplicate_killed(full, m0);
    }
    while remaining.len() > 0
        invariant
            outputs@ + aggregate_spec(remaining@, process_info_map@).0 == aggregate_spec(
                full,
                m0,
            ).0,
            aggregate_spec(remaining@, process_info_map@).1 == aggregate_spec(full, m0).1,
        decreases remaining@.len(),
    {
        let ghost rem_pre = remaining@;
        let ghost map_pre = process_info_map@;
        let kill_output = remaining.remove(0);
        assert(rem_pre.drop_first() =~= remaining@);
        assert(kill_output == rem_pre[0]);
        let parsed = parse_kill_output(kill_output, process_info_map);
        match parsed {
            Some(output) => {
                outputs.push(output);
                assert(outputs@ + aggregate_spec(remaining@, process_info_map@).0 =~= aggregate_spec(
                    full,
                    m0,
                ).0);
            },
            None => {
            },
        }
    }
    assert(aggregate_spec(remaining@, process_info_map@).0 =~= Seq::<Output>::empty());
    assert(outputs@ =~= aggregate_spec(full, m0).0);
    outputs
}

/// Drives the terminator over the kill plan back to front, so that
/// descendants are signaled before ancestors, collecting one outcome per pid.
/// A hard failure aborts the whole call at once; outcomes already produced
/// are discarded.
pub fn dispatch_kills(process_ids_to_kill: &ProcessIds, killer: &crate::unix::Killer) -> (r:
    Result<Vec<KillOutput>, Error>)
    ensures
        r matches Ok(kill_outputs) ==> {
            &&& kill_outputs@.len() == process_ids_to_kill@.len()
            &&& forall |i: int|
                0 <= i < kill_outputs@.len() ==> (#[trigger] kill_outputs@[i]).pid()
                    == process_ids_to_kill@[process_ids_to_kill@.len() - 1 - i]
        },
        r matches Err(e) ==> (e is Unix || e is InvalidCast),
        (r matches Err(e) && e is InvalidCast) ==> exists |i: int|
            0 <= i < process_ids_to_kill@.len() && process_ids_to_kill@[i] > 0x7FFF_FFFF,
        process_ids_to_kill@.len() == 0 ==> r is Ok,
{
    let mut kill_outputs: Vec<KillOutput> = Vec::new();
    let mut i: usize = process_ids_to_kill.len();
    while i > 0
        invariant
            i <= process_ids_to_kill@.len(),
            kill_outputs@.len() == process_ids_to_kill@.len() - i,
            forall |j: int|
                0 <= j < kill_outputs@.len() ==> (#[trigger] kill_outputs@[j]).pid()
                    == process_ids_to_kill@[process_ids_to_kill@.len() - 1 - j],
        decreases i,
    {
        let process_id = process_ids_to_kill[i - 1];
        match killer.kill(process_id) {
            Ok(kill_output) => {
                kill_outputs.push(kill_output);
            },
            Err(e) => {
                proof {
                    if e is InvalidCast {
                        assert(process_ids_to_kill@[i - 1] > 0x7FFF_FFFF);
                    }
                }
                return Err(e);
            },
        }
        i -= 1;
    }
    Ok(kill_outputs)
}

/// Some record of the snapshot carries `pid`.
pub open spec fn has_record_for(records: Seq<ProcessInfo>, pid: u32) -> bool {
    exists |i: int| 0 <= i < records.len() && (#[trigger] records[i]).process_id == pid
}

/// An outcome whose pid no earlier outcome shares, and whose record (if the
/// outcome is `Killed`) is present, yields an output: aggregation loses
/// nothing but `Killed` reports of vanished records.
pub proof fn lemma_aggregate_output_for(
    kill_outputs: Seq<KillOutput>,
    m: Map<u32, ProcessInfo>,
    i: int,
) -> (j: int)
    requires
        keyed_by_pid(m),
        0 <= i < kill_outputs.len(),
        kill_outputs[i] is Killed ==> m.contains_key(kill_outputs[i].pid()),
        forall |i2: int| 0 <= i2 < i ==> (#[trigger] kill_outputs[i2]).pid()
            != kill_outputs[i].pid(),
    ensures
        0 <= j < aggregate_spec(kill_outputs, m).0.len(),
        aggregate_spec(kill_outputs, m).0[j].pid() == kill_outputs[i].pid(),
    decreases kill_outputs.len(),
{
    let outs = aggregate_spec(kill_outputs, m).0;
    let rest_outputs = kill_outputs.drop_first();
    match kill_outputs[0] {
        KillOutput::Killed { process_id } => {
            if m.contains_key(process_id) {
                let m2 = m.remove(process_id);
                assert(keyed_by_pid(m2));
                if i == 0 {
                    assert(outs[0].pid() == kill_outputs[0].pid());
                    0
                } else {
                    assert(kill_outputs[0].pid() != kill_outputs[i].pid());
                    assert(rest_outputs[i - 1] == kill_outputs[i]);
                    assert(m2.contains_key(kill_outputs[i].pid())
                        ==> m2.contains_key(rest_outputs[i - 1].pid()));
                    assert forall |i2: int| 0 <= i2 < i - 1 implies (
                    #[trigger] rest_outputs[i2]).pid() != rest_outputs[i - 1].pid() by {
                        assert(rest_outputs[i2] == kill_outputs[i2 + 1]);
                    }
                    let j0 = lemma_aggregate_output_for(rest_outputs, m2, i - 1);
                    assert(outs[j0 + 1] == aggregate_spec(rest_outputs, m2).0[j0]);
                    j0 + 1
                }
            } else {
                assert(i != 0);
                assert(rest_outputs[i - 1] == kill_outputs[i]);
                assert forall |i2: int| 0 <= i2 < i - 1 implies (
                #[trigger] rest_outputs[i2]).pid() != rest_outputs[i - 1].pid() by {
                    assert(rest_outputs[i2] == kill_outputs[i2 + 1]);
                }
                let j0 = lemma_aggregate_output_for(rest_outputs, m, i - 1);
                assert(outs[j0] == aggregate_spec(rest_outputs, m).0[j0]);
                j0
            }
        },
        KillOutput::MaybeAlreadyTerminated { .. } => {
            if i == 0 {
                assert(outs[0].pid() == kill_outputs[0].pid());
                0
            } else {
                assert(rest_outputs[i - 1] == kill_outputs[i]);
                assert forall |i2: int| 0 <= i2 < i - 1 implies (
                #[trigger] rest_outputs[i2]).pid() != rest_outputs[i - 1].pid() by {
                    assert(rest_outputs[i2] == kill_outputs[i2 + 1]);
                }
                let j0 = lemma_aggregate_output_for(rest_outputs, m, i - 1);
                assert(outs[j0 + 1] == aggregate_spec(rest_outputs, m).0[j0]);
                j0 + 1
            }
        },
    }
}

/// A `Killed` output's metadata agrees with some snapshot record of its pid.
pub open spec fn killed_fields_from_records(records: Seq<ProcessInfo>, o: Output) -> bool {
    o matches Output::Killed { process_id: p, parent_process_id: pp, name } ==> exists |i: int|
        0 <= i < records.len() && (#[trigger] records[i]).process_id == p
            && records[i].parent_process_id == pp && records[i].name == name
}

/// No two outputs carry the same pid.
pub open spec fn distinct_output_pids(outs: Seq<Output>) -> bool {
    forall |a: int, b: int|
        0 <= a < b < outs.len() ==> (#[trigger] outs[a]).pid() != (#[trigger] outs[b]).pid()
}

/// Every pid of the target's tree is reported: each pid reachable from the
/// target (the target itself only when included, and only if some record
/// carries it) has an output.
pub open spec fn covers_tree(
    records: Seq<ProcessInfo>,
    target: u32,
    include_target: bool,
    outs: Seq<Output>,
) -> bool {
    forall |v: u32|
        #[trigger] snapshot_reaches(records, ChildProcessIdMapFilter::KeepAll, target, v) && (
        include_target || v != target) && (v != target || has_record_for(records, v))
            ==> exists |j: int| 0 <= j < outs.len() && (#[trigger] outs[j]).pid() == v
}

/// No process is reported before any of its children.
pub open spec fn children_reported_first(records: Seq<ProcessInfo>, outs: Seq<Output>) -> bool {
    forall |a: int, b: int|
        0 <= a < b < outs.len() ==> !snapshot_edge(
            records,
            ChildProcessIdMapFilter::KeepAll,
            (#[trigger] outs[a]).pid(),
            (#[trigger] outs[b]).pid(),
        )
}

/// Resolves the kill plan from the snapshot and executes it: indexes the
/// snapshot, walks the tree breadth first from the target, kills descendants
/// before ancestors, and joins the outcomes back against the records. On
/// success the outcome list covers the target's tree — one output per tree
/// pid, no pid twice, each `Killed` report carrying its record's metadata —
/// with the one exception of a target that no snapshot record carries, whose
/// `Killed` report would have no metadata to join. Failures are an
/// unrecognized signal name, a pid too large to signal, or a hard failure of
/// the kill call itself.
#[verifier::rlimit(100)]
pub fn kill_tree_internal(
    process_id: ProcessId,
    config: &Config,
    process_infos: ProcessInfos,
) -> (r: Result<Outputs, Error>)
    ensures
        r matches Ok(outputs) ==> {
            &&& no_duplicate_killed(outputs@)
            &&& forall |j: int|
                0 <= j < outputs@.len() ==> snapshot_reaches(
                    process_infos@,
                    ChildProcessIdMapFilter::KeepAll,
                    process_id,
                    (#[trigger] outputs@[j]).pid(),
                ) && (config.include_target || outputs@[j].pid() != process_id)
            &&& forall |j: int|
                0 <= j < outputs@.len() ==> killed_fields_from_records(
                    process_infos@,
                    #[trigger] outputs@[j],
                )
            &&& distinct_output_pids(outputs@)
            &&& covers_tree(process_infos@, process_id, config.include_target, outputs@)
            &&& wf_snapshot(process_infos@) && snapshot_no_cycle_through_root(
                process_infos@,
                ChildProcessIdMapFilter::KeepAll,
                process_id,
            ) ==> children_reported_first(process_infos@, outputs@)
        },
        r matches Err(e) ==> (e is Unix || e is InvalidCast),
        (r matches Err(e) && e is InvalidCast) ==> exists |v: u32|
            snapshot_reaches(process_infos@, ChildProcessIdMapFilter::KeepAll, process_id, v) && v
                > 0x7FFF_FFFF,
        !crate::unix::recognized_signal_name(config.signal@) ==> (r matches Err(e) && e matches
        Error::Unix { message } && message@ == "EINVAL: Invalid argument"@),
        (forall |i: int|
            0 <= i < process_infos@.len() ==> (#[trigger] process_infos@[i]).parent_process_id
                != process_id) && !config.include_target && crate::unix::recognized_signal_name(
            config.signal@,
        ) ==> (r matches Ok(outputs) && outputs@.len() == 0),
{
    let ghost records = process_infos@;
    let filter = ChildProcessIdMapFilter::KeepAll;
    let child_process_id_map = get_child_process_id_map(&process_infos, filter);
    let ghost cm = child_process_id_map@;
    let process_ids_to_kill = get_process_ids_to_kill(process_id, &child_process_id_map, config);
    proof {
        if (forall |i: int|
            0 <= i < records.len() ==> (#[trigger] records[i]).parent_process_id != process_id)
            && !config.include_target {
            if process_ids_to_kill@.len() > 0 {
                let v = process_ids_to_kill@[0];
                assert(process_ids_to_kill@.contains(v));
                assert(reaches(cm, process_id, v) && v != process_id);
                assert forall |c: u32| !(#[trigger] index_edge(cm, process_id, c)) by {
                    assert(!snapshot_edge(records, ChildProcessIdMapFilter::KeepAll, process_id, c));
                }
                crate::tree::lemma_no_edges_from_root(cm, process_id, v);
            }
            assert(process_ids_to_kill@.len() == 0);
        }
    }
    let killer_builder = crate::unix::KillerBuilder {};
    let killer = match killer_builder.new_killable(config) {
        Ok(killer) => killer,
        Err(e) => {
            return Err(e);
        },
    };
    let kill_outputs = match dispatch_kills(&process_ids_to_kill, &killer) {
        Ok(kill_outputs) => kill_outputs,
        Err(e) => {
            proof {
                if e is InvalidCast {
                    let i = choose |i: int|
                        0 <= i < process_ids_to_kill@.len() && process_ids_to_kill@[i]
                            > 0x7FFF_FFFF;
                    let v = process_ids_to_kill@[i];
                    assert(process_ids_to_kill@.contains(v));
                    assert(reaches(cm, process_id, v));
                    lemma_reaches_iff_snapshot(
                        cm,
                        records,
                        ChildProcessIdMapFilter::KeepAll,
                        process_id,
                        v,
                    );
                    assert(snapshot_reaches(records, ChildProcessIdMapFilter::KeepAll, process_id, v));
                }
            }
            return Err(e);
        },
    };
    let mut process_info_map = get_process_info_map(process_infos);
    let ghost m0 = process_info_map@;
    proof {
        assert(keyed_by_pid(m0));
        lemma_aggregate_output_sources(kill_outputs@, m0);
    }
    let ghost kos = kill_outputs@;
    let ghost plan = process_ids_to_kill@;
    let outputs = aggregate_kill_outputs(kill_outputs, &mut process_info_map);
    proof {
        assert forall |j: int| 0 <= j < outputs@.len() implies snapshot_reaches(
            records,
            ChildProcessIdMapFilter::KeepAll,
            process_id,
            (#[trigger] outputs@[j]).pid(),
        ) && (config.include_target || outputs@[j].pid() != process_id) by {
            let v = outputs@[j].pid();
            let i = choose |i: int| 0 <= i < kos.len() && outputs@[j].pid() == kos[i].pid();
            assert(kos[i].pid() == plan[plan.len() - 1 - i]);
            assert(plan.contains(v)) by {
                assert(plan[plan.len() - 1 - i] == v);
            }
            lemma_reaches_iff_snapshot(cm, records, filter, process_id, v);
        }
        assert forall |j: int| 0 <= j < outputs@.len() implies killed_fields_from_records(
            records,
            #[trigger] outputs@[j],
        ) by {
            let o = outputs@[j];
            if o is Killed {
                assert(killed_fields_from(m0, o));
                let p = o->Killed_process_id;
                assert(m0.contains_key(p));
                assert(records.contains(m0[p]));
                let i = choose |i: int| 0 <= i < records.len() && records[i] == m0[p];
                assert(records[i].process_id == p);
            }
        }
        if (forall |i: int|
            0 <= i < records.len() ==> (#[trigger] records[i]).parent_process_id != process_id)
            && !config.include_target {
            assert(outputs@.len() == 0);
        }
        assert(distinct_output_pids(outputs@)) by {
            assert forall |a: int, b: int| 0 <= a < b < outputs@.len() implies (
            #[trigger] outputs@[a]).pid() != (#[trigger] outputs@[b]).pid() by {
                let ij = lemma_aggregate_preserves_order(kos, m0, a, b);
                assert(kos[ij.0].pid() == plan[plan.len() - 1 - ij.0]);
                assert(kos[ij.1].pid() == plan[plan.len() - 1 - ij.1]);
                assert(plan[plan.len() - 1 - ij.0] != plan[plan.len() - 1 - ij.1]);
            }
        }
        assert(covers_tree(records, process_id, config.include_target, outputs@)) by {
            assert forall |v: u32|
                #[trigger] snapshot_reaches(
                    records,
                    ChildProcessIdMapFilter::KeepAll,
                    process_id,
                    v,
                ) && (config.include_target || v != process_id) && (v != process_id
                    || has_record_for(records, v)) implies exists |j: int|
                    0 <= j < outputs@.len() && (#[trigger] outputs@[j]).pid() == v by {
                lemma_reaches_iff_snapshot(
                    cm,
                    records,
                    ChildProcessIdMapFilter::KeepAll,
                    process_id,
                    v,
                );
                assert(plan.contains(v));
                let pi = choose |pi: int| 0 <= pi < plan.len() && plan[pi] == v;
                let ki = plan.len() - 1 - pi;
                assert(kos[ki].pid() == plan[plan.len() - 1 - ki]);
                assert(kos[ki].pid() == v);
                if kos[ki] is Killed {
                    if v == process_id {
                        assert(m0.contains_key(v));
                    } else {
                        let u = crate::tree::lemma_reachable_has_incoming(cm, process_id, v);
                        assert(snapshot_edge(records, ChildProcessIdMapFilter::KeepAll, u, v));
                        assert(m0.contains_key(v));
                    }
                }
                assert forall |i2: int| 0 <= i2 < ki implies (#[trigger] kos[i2]).pid()
                    != kos[ki].pid() by {
                    assert(kos[i2].pid() == plan[plan.len() - 1 - i2]);
                    assert(plan[plan.len() - 1 - i2] != plan[pi]);
                }
                let j = lemma_aggregate_output_for(kos, m0, ki);
                assert(outputs@[j].pid() == v);
            }
        }
        if wf_snapshot(records) && snapshot_no_cycle_through_root(
            records,
            ChildProcessIdMapFilter::KeepAll,
            process_id,
        ) {
            lemma_wf_snapshot_parent_unique(cm, records, ChildProcessIdMapFilter::KeepAll);
            lemma_no_cycle_iff_snapshot(
                cm,
                records,
                ChildProcessIdMapFilter::KeepAll,
                process_id,
            );
            assert(child_after_parent(cm, plan));
            assert(children_reported_first(records, outputs@)) by {
                assert forall |a: int, b: int| 0 <= a < b < outputs@.len() implies !snapshot_edge(
                    records,
                    ChildProcessIdMapFilter::KeepAll,
                    (#[trigger] outputs@[a]).pid(),
                    (#[trigger] outputs@[b]).pid(),
                ) by {
                    let ij = lemma_aggregate_preserves_order(kos, m0, a, b);
                    assert(kos[ij.0].pid() == plan[plan.len() - 1 - ij.0]);
                    assert(kos[ij.1].pid() == plan[plan.len() - 1 - ij.1]);
                    if snapshot_edge(
                        records,
                        ChildProcessIdMapFilter::KeepAll,
                        outputs@[a].pid(),
                        outputs@[b].pid(),
                    ) {
                        assert(index_edge(
                            cm,
                            plan[plan.len() - 1 - ij.0],
                            plan[plan.len() - 1 - ij.1],
                        ));
                        assert(false);
                    }
                }
            }
        }
    }
    Ok(outputs)
}

/// Whether `values` holds `value`.
fn vec_contains(values: &Vec<u32>, value: u32) -> (r: bool)
    ensures
        r == values@.contains(value),
{
    let mut i: usize = 0;
    while i < values.len()
        invariant
            i <= values@.len(),
            forall |k: int| 0 <= k < i ==> values@[k] != value,
        decreases values@.len() - i,
    {
        if values[i] == value {
            return true;
        }
        i += 1;
    }
    false
}

/// Admits one child into the discovery queue: enqueued at the back unless
/// already present.
#[verifier::rlimit(100)]
fn bfs_admit_child(
    queue: &mut Vec<u32>,
    head: usize,
    pid: u32,
    child: u32,
    Ghost(m): Ghost<Map<u32, ChildProcessIds>>,
    Ghost(target): Ghost<u32>,
)
    requires
        head < old(queue)@.len() <= 0x1_0000_0000,
        old(queue)@[head as int] == pid,
        m.contains_key(pid),
        m[pid]@.contains(child),
        old(queue)@.no_duplicates(),
        bfs_justified(m, old(queue)@),
        forall |j: int|
            0 <= j < old(queue)@.len() ==> reaches(m, target, #[trigger] old(queue)@[j]),
    ensures
        final(queue)@ == (if old(queue)@.contains(child) {
            old(queue)@
        } else {
            old(queue)@.push(child)
        }),
        old(queue)@.len() <= final(queue)@.len() <= 0x1_0000_0000,
        forall |i: int| 0 <= i < old(queue)@.len() ==> final(queue)@[i] == old(queue)@[i],
        final(queue)@.no_duplicates(),
        bfs_justified(m, final(queue)@),
        forall |j: int|
            0 <= j < final(queue)@.len() ==> reaches(m, target, #[trigger] final(queue)@[j]),
        forall |c: u32| old(queue)@.contains(c) ==> final(queue)@.contains(c),
        final(queue)@.contains(child),
{
    let ghost before = queue@;
    if !vec_contains(queue, child) {
        proof {
            lemma_reaches_step(m, target, pid, child);
        }
        queue.push(child);
        assert(forall |i: int| 0 <= i < before.len() ==> #[trigger] queue@[i] == before[i]);
        assert(queue@[queue@.len() - 1] == child);
        assert(queue@.no_duplicates());
        proof {
            lemma_u32_seq_len_bound(queue@);
        }
        assert(bfs_justified(m, queue@)) by {
            assert forall |j: int| 1 <= j < queue@.len() implies exists |i: int|
                0 <= i < j && index_edge(m, queue@[i], #[trigger] queue@[j]) by {
                if j < queue@.len() - 1 {
                    assert(before[j] == queue@[j]);
                    let i = choose |i: int| 0 <= i < j && index_edge(m, before[i], before[j]);
                    assert(index_edge(m, queue@[i], queue@[j]));
                } else {
                    assert(index_edge(m, queue@[head as int], queue@[j]));
                }
            }
        }
    }
    assert forall |c: u32| before.contains(c) implies queue@.contains(c) by {
        let i = choose |i: int| 0 <= i < before.len() && before[i] == c;
        assert(queue@[i] == c);
    }
    assert(queue@.contains(child)) by {
        if !before.contains(child) {
            assert(queue@[queue@.len() - 1] == child);
        }
    }
}

/// One breadth-first expansion step: enqueues every not-yet-seen child of the
/// pid standing at position `head` of the discovery queue.
fn bfs_expand(
    queue: &mut Vec<u32>,
    head: usize,
    pid: u32,
    children: &Vec<u32>,
    Ghost(m): Ghost<Map<u32, ChildProcessIds>>,
    Ghost(target): Ghost<u32>,
)
    requires
        head < old(queue)@.len() <= 0x1_0000_0000,
        old(queue)@[head as int] == pid,
        m.contains_key(pid),
        m[pid]@ == children@,
        old(queue)@.no_duplicates(),
        bfs_justified(m, old(queue)@),
        forall |j: int|
            0 <= j < old(queue)@.len() ==> reaches(m, target, #[trigger] old(queue)@[j]),
    ensures
        old(queue)@.len() <= final(queue)@.len() <= 0x1_0000_0000,
        forall |i: int| 0 <= i < old(queue)@.len() ==> final(queue)@[i] == old(queue)@[i],
        final(queue)@.no_duplicates(),
        bfs_justified(m, final(queue)@),
        forall |j: int|
            0 <= j < final(queue)@.len() ==> reaches(m, target, #[trigger] final(queue)@[j]),
        forall |c: u32| old(queue)@.contains(c) ==> final(queue)@.contains(c),
        forall |ci: int|
            0 <= ci < children@.len() ==> final(queue)@.contains(#[trigger] children@[ci]),
        final(queue)@ == push_new(old(queue)@, children@),
{
    let mut k: usize = 0;
    while k < children.len()
        invariant
            k <= children@.len(),
            m.contains_key(pid),
            m[pid]@ == children@,
            head < old(queue)@.len() <= queue@.len() <= 0x1_0000_0000,
            forall |i: int| 0 <= i < old(queue)@.len() ==> queue@[i] == old(queue)@[i],
            queue@[head as int] == pid,
            queue@.no_duplicates(),
            bfs_justified(m, queue@),
            forall |j: int| 0 <= j < queue@.len() ==> reaches(m, target, #[trigger] queue@[j]),
            forall |ci: int| 0 <= ci < k ==> queue@.contains(#[trigger] children@[ci]),
            queue@ == push_new(old(queue)@, children@.take(k as int)),
        decreases children@.len() - k,
    {
        let ghost queue_at_entry = queue@;
        let child = children[k];
        bfs_admit_child(queue, head, pid, child, Ghost(m), Ghost(target));
        assert forall |ci: int| 0 <= ci < k + 1 implies queue@.contains(
            #[trigger] children@[ci],
        ) by {
            if ci < k {
                assert(queue_at_entry.contains(children@[ci]));
            }
        }
        proof {
            assert(children@.take(k as int + 1) =~= children@.take(k as int) + seq![
                children@[k as int],
            ]);
            lemma_push_new_split(
                old(queue)@,
                children@.take(k as int),
                seq![children@[k as int]],
            );
            let single = seq![children@[k as int]];
            let next = if queue_at_entry.contains(single[0]) {
                queue_at_entry
            } else {
                queue_at_entry.push(single[0])
            };
            assert(single.drop_first() =~= Seq::<u32>::empty());
            assert(push_new(next, single.drop_first()) == next);
            assert(push_new(queue_at_entry, single) == next);
            assert(next == queue@);
        }
        k += 1;
    }
    assert(children@.take(children@.len() as int) =~= children@);
}

/// Breadth-first discovery of the pids to kill: the target first, then its
/// children in ascending order, then theirs, and so on. The returned list in
/// discovery order holds exactly the pids reachable from the target through
/// the index (the target itself only when `config.include_target`), holds no
/// pid twice, and — whenever every child has one parent and the target is on
/// no cycle — places every child strictly after its parent, so that the
/// reversed list kills descendants before ancestors.
#[verifier::rlimit(60)]
pub fn get_process_ids_to_kill(
    target_process_id: ProcessId,
    child_process_id_map: &ChildProcessIdMap,
    config: &Config,
) -> (ids: ProcessIds)
    ensures
        ids@.no_duplicates(),
        forall |v: u32|
            #[trigger] ids@.contains(v) <==> (reaches(child_process_id_map@, target_process_id, v)
                && (config.include_target || v != target_process_id)),
        config.include_target ==> ids@.len() >= 1 && ids@[0] == target_process_id,
        parent_unique(child_process_id_map@) && no_cycle_through_root(
            child_process_id_map@,
            target_process_id,
        ) ==> child_after_parent(child_process_id_map@, ids@),
        config.include_target ==> ids@ == bfs_discovery_order(
            child_process_id_map@,
            target_process_id,
        ),
        !config.include_target ==> ids@ == bfs_discovery_order(
            child_process_id_map@,
            target_process_id,
        ).drop_first(),
{
    let ghost m = child_process_id_map@;
    let mut queue: Vec<u32> = Vec::new();
    queue.push(target_process_id);
    proof {
        lemma_reaches_refl(m, target_process_id);
        assert(queue@ =~= seq![target_process_id]);
    }
    let mut head: usize = 0;
    while head < queue.len()
        invariant
            head <= queue@.len(),
            1 <= queue@.len() <= 0x1_0000_0000,
            queue@[0] == target_process_id,
            queue@.no_duplicates(),
            bfs_justified(m, queue@),
            forall |j: int|
                0 <= j < queue@.len() ==> reaches(m, target_process_id, #[trigger] queue@[j]),
            forall |i: int, c: u32|
                0 <= i < head && #[trigger] index_edge(m, queue@[i], c) ==> queue@.contains(c),
            child_process_id_map@ == m,
            bfs_expand_from(m, seq![target_process_id], 0) == bfs_expand_from(
                m,
                queue@,
                head as int,
            ),
        decreases 0x1_0000_0000int - head,
    {
        let pid = queue[head];
        let ghost before = queue@;
        if let Some(children) = child_process_id_map.get(&pid) {
            assert(m.contains_key(pid) && m[pid] == *children);
            bfs_expand(&mut queue, head, pid, children, Ghost(m), Ghost(target_process_id));
            assert forall |i: int, c: u32|
                0 <= i < head + 1 && #[trigger] index_edge(m, queue@[i], c) implies queue@.contains(
                c,
            ) by {
                if i == head as int {
                    let ci = choose |ci: int| 0 <= ci < children@.len() && children@[ci] == c;
                    assert(queue@.contains(children@[ci]));
                } else {
                    assert(queue@[i] == before[i]);
                    assert(before.contains(c));
                    let bi = choose |bi: int| 0 <= bi < before.len() && before[bi] == c;
                    assert(queue@[bi] == c);
                }
            }
            proof {
                assert(queue@ == push_new(before, m[before[head as int]]@));
                assert(bfs_expand_from(m, before, head as int) == bfs_expand_from(
                    m,
                    queue@,
                    head as int + 1,
                ));
            }
        } else {
            assert(!m.contains_key(pid));
            assert forall |i: int, c: u32|
                0 <= i < head + 1 && #[trigger] index_edge(m, queue@[i], c) implies queue@.contains(
                c,
            ) by {
                if i == head as int {
                    assert(index_edge(m, pid, c));
                    assert(false);
                }
            }
            proof {
                assert(bfs_expand_from(m, before, head as int) == bfs_expand_from(
                    m,
                    queue@,
                    head as int + 1,
                ));
            }
        }
        head += 1;
    }
    assert(edge_closed(m, queue@));
    proof {
        assert(bfs_expand_from(m, queue@, head as int) == queue@);
        assert(queue@ == bfs_discovery_order(m, target_process_id));
    }
    proof {
        lemma_order_membership(m, target_process_id, queue@);
        if parent_unique(m) && no_cycle_through_root(m, target_process_id) {
            lemma_bfs_child_after_parent(m, target_process_id, queue@);
        }
    }
    if config.include_target {
        queue
    } else {
        let ghost order = queue@;
        let mut ids: Vec<u32> = Vec::new();
        let mut i: usize = 1;
        while i < queue.len()
            invariant
                1 <= i <= queue@.len(),
                queue@ == order,
                ids@ =~= order.subrange(1, i as int),
            decreases queue@.len() - i,
        {
            ids.push(queue[i]);
            i += 1;
        }
        proof {
            assert(ids@ =~= order.subrange(1, order.len() as int));
            assert(ids@ == order.drop_first()) by {
                assert(order.drop_first() =~= order.subrange(1, order.len() as int));
            }
            lemma_plan_without_root(m, target_process_id, order);
        }
        ids
    }
}

} // verus!
