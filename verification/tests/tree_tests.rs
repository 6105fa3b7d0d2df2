//! Indexing, breadth-first resolution and aggregation over constructed
//! snapshots.

use kill_tree::common::{
    aggregate_kill_outputs, get_child_process_id_map, get_process_ids_to_kill,
    get_process_info_map,
};
use kill_tree::{ChildProcessIdMapFilter, Config, KillOutput, Output, ProcessInfo};

fn info(process_id: u32, parent_process_id: u32, name: &str) -> ProcessInfo {
    ProcessInfo {
        process_id,
        parent_process_id,
        name: name.to_string(),
    }
}

#[test]
fn get_child_process_id_map_no_filter() {
    let process_infos = vec![info(1, 0, "1"), info(2, 1, "2"), info(3, 1, "3")];
    let map = get_child_process_id_map(&process_infos, ChildProcessIdMapFilter::KeepAll);
    assert_eq!(map.len(), 2);
}

#[test]
fn get_child_process_id_map_filter_process_id_and_parant_process_id_is_same() {
    let process_infos = vec![info(1, 1, "1"), info(2, 1, "2"), info(3, 1, "3")];
    let map = get_child_process_id_map(&process_infos, ChildProcessIdMapFilter::SkipSelfParented);
    assert_eq!(map.len(), 1);
}

#[test]
fn get_process_info_map_test() {
    let process_infos = vec![info(1, 0, "1"), info(2, 1, "2"), info(3, 1, "3")];
    let map = get_process_info_map(process_infos);
    assert_eq!(map.len(), 3);
}

#[test]
fn get_process_ids_to_kill_test() {
    let process_infos = vec![info(1, 0, "1"), info(2, 1, "2"), info(3, 1, "3")];
    let child_process_id_map =
        get_child_process_id_map(&process_infos, ChildProcessIdMapFilter::KeepAll);
    let config = Config::default();
    let process_ids_to_kill = get_process_ids_to_kill(1, &child_process_id_map, &config);
    assert_eq!(process_ids_to_kill, vec![1, 2, 3]);
}

#[test]
fn parse_kill_output_test() {
    let mut process_info_map = get_process_info_map(vec![info(1, 0, "1")]);
    let kill_output = KillOutput::Killed { process_id: 1 };
    let output = kill_tree::common::parse_kill_output(kill_output, &mut process_info_map)
        .expect("output is None");
    match output {
        Output::Killed {
            process_id,
            parent_process_id,
            name,
        } => {
            assert_eq!(process_id, 1);
            assert_eq!(parent_process_id, 0);
            assert_eq!(name, "1");
        }
        Output::MaybeAlreadyTerminated { .. } => {
            panic!("output is MaybeAlreadyTerminated");
        }
    }
}

fn family_snapshot() -> Vec<ProcessInfo> {
    vec![
        info(10, 1, "a"),
        info(11, 10, "b"),
        info(12, 10, "c"),
        info(13, 11, "d"),
    ]
}

#[test]
fn discovery_order_includes_target_first() {
    let process_infos = family_snapshot();
    let map = get_child_process_id_map(&process_infos, ChildProcessIdMapFilter::KeepAll);
    let config = Config::default();
    let plan = get_process_ids_to_kill(10, &map, &config);
    assert_eq!(plan, vec![10, 11, 12, 13]);
    let kill_order: Vec<u32> = plan.iter().rev().copied().collect();
    assert_eq!(kill_order, vec![13, 12, 11, 10]);
}

#[test]
fn discovery_order_without_target() {
    let process_infos = family_snapshot();
    let map = get_child_process_id_map(&process_infos, ChildProcessIdMapFilter::KeepAll);
    let config = Config {
        signal: "SIGTERM".to_string(),
        include_target: false,
    };
    let plan = get_process_ids_to_kill(10, &map, &config);
    assert_eq!(plan, vec![11, 12, 13]);
    let kill_order: Vec<u32> = plan.iter().rev().copied().collect();
    assert_eq!(kill_order, vec![13, 12, 11]);
}

#[test]
fn children_are_visited_in_ascending_pid_order() {
    let process_infos = vec![info(12, 10, "c"), info(11, 10, "b"), info(13, 11, "d")];
    let map = get_child_process_id_map(&process_infos, ChildProcessIdMapFilter::KeepAll);
    let config = Config::default();
    let plan = get_process_ids_to_kill(10, &map, &config);
    assert_eq!(plan, vec![10, 11, 12, 13]);
}

#[test]
fn absent_target_resolves_to_itself() {
    let process_infos = vec![info(20, 1, "x")];
    let map = get_child_process_id_map(&process_infos, ChildProcessIdMapFilter::KeepAll);
    let config = Config::default();
    let plan = get_process_ids_to_kill(10, &map, &config);
    assert_eq!(plan, vec![10]);
}

#[test]
fn absent_target_excluded_resolves_to_nothing() {
    let process_infos = vec![info(20, 1, "x")];
    let map = get_child_process_id_map(&process_infos, ChildProcessIdMapFilter::KeepAll);
    let config = Config {
        signal: "SIGTERM".to_string(),
        include_target: false,
    };
    let plan = get_process_ids_to_kill(10, &map, &config);
    assert!(plan.is_empty());
}

#[test]
fn every_child_follows_its_parent_in_discovery() {
    let process_infos = vec![
        info(10, 1, "a"),
        info(21, 10, "b"),
        info(14, 10, "c"),
        info(35, 21, "d"),
        info(2, 14, "e"),
        info(99, 35, "f"),
    ];
    let map = get_child_process_id_map(&process_infos, ChildProcessIdMapFilter::KeepAll);
    let config = Config::default();
    let plan = get_process_ids_to_kill(10, &map, &config);
    let position = |pid: u32| plan.iter().position(|&p| p == pid).unwrap();
    for record in &process_infos {
        if record.process_id == 10 {
            continue;
        }
        assert!(position(record.parent_process_id) < position(record.process_id));
    }
}

#[test]
fn aggregate_joins_names_and_drops_consumed_records() {
    let process_infos = family_snapshot();
    let mut map = get_process_info_map(process_infos);
    let kill_outputs = vec![
        KillOutput::Killed { process_id: 13 },
        KillOutput::Killed { process_id: 12 },
        KillOutput::Killed { process_id: 11 },
        KillOutput::Killed { process_id: 10 },
    ];
    let outputs = aggregate_kill_outputs(kill_outputs, &mut map);
    assert_eq!(outputs.len(), 4);
    let expected = [(13, 11, "d"), (12, 10, "c"), (11, 10, "b"), (10, 1, "a")];
    for (output, (pid, ppid, name)) in outputs.iter().zip(expected.iter()) {
        match output {
            Output::Killed {
                process_id,
                parent_process_id,
                name: out_name,
            } => {
                assert_eq!(process_id, pid);
                assert_eq!(parent_process_id, ppid);
                assert_eq!(out_name, name);
            }
            Output::MaybeAlreadyTerminated { .. } => panic!("unexpected outcome"),
        }
    }
    assert!(map.is_empty());
}

#[test]
fn aggregate_never_duplicates_a_killed_pid() {
    let mut map = get_process_info_map(vec![info(7, 1, "x")]);
    let kill_outputs = vec![
        KillOutput::Killed { process_id: 7 },
        KillOutput::Killed { process_id: 7 },
    ];
    let outputs = aggregate_kill_outputs(kill_outputs, &mut map);
    let killed: Vec<u32> = outputs
        .iter()
        .filter_map(|o| match o {
            Output::Killed { process_id, .. } => Some(*process_id),
            Output::MaybeAlreadyTerminated { .. } => None,
        })
        .collect();
    assert_eq!(killed, vec![7]);
}

#[test]
fn aggregate_passes_already_terminated_through() {
    let mut map = get_process_info_map(vec![info(7, 1, "x")]);
    let kill_outputs = vec![KillOutput::MaybeAlreadyTerminated {
        process_id: 9,
        source: kill_tree::Error::Unix {
            message: "ESRCH: No such process".to_string(),
        },
    }];
    let outputs = aggregate_kill_outputs(kill_outputs, &mut map);
    assert_eq!(outputs.len(), 1);
    match &outputs[0] {
        Output::MaybeAlreadyTerminated { process_id, source } => {
            assert_eq!(*process_id, 9);
            assert_eq!(source.to_string(), "Unix error: ESRCH: No such process");
        }
        Output::Killed { .. } => panic!("unexpected outcome"),
    }
    assert_eq!(map.len(), 1);
}

#[test]
fn self_parented_records_are_dropped_from_the_index() {
    let process_infos = vec![info(0, 0, "idle"), info(4, 0, "system"), info(8, 4, "w")];
    let map = get_child_process_id_map(&process_infos, ChildProcessIdMapFilter::SkipSelfParented);
    let config = Config::default();
    let plan = get_process_ids_to_kill(0, &map, &config);
    assert_eq!(plan, vec![0, 4, 8]);
}

#[test]
fn child_lists_are_ascending_and_deduplicated() {
    let process_infos = vec![
        info(12, 10, "c"),
        info(11, 10, "b"),
        info(12, 10, "c-again"),
        info(13, 11, "d"),
    ];
    let map = get_child_process_id_map(&process_infos, ChildProcessIdMapFilter::KeepAll);
    assert_eq!(map.len(), 2);
    assert_eq!(map[&10], vec![11, 12]);
    assert_eq!(map[&11], vec![13]);
    assert!(!map.contains_key(&12));
    assert!(!map.contains_key(&13));
}
