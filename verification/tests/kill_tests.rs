//! The signal-based terminator and the end-to-end entry points, exercised
//! against pids that are guaranteed not to exist.

use kill_tree::{blocking, get_available_max_process_id, unix, Config, KillOutput, Output};

#[test]
fn kii_sigterm() {
    let target_process_id = get_available_max_process_id();
    let kill_output =
        unix::kill(target_process_id, nix::sys::signal::Signal::SIGTERM).expect("Failed to kill");
    match kill_output {
        KillOutput::Killed { process_id: _ } => {
            panic!("This should not happen");
        }
        KillOutput::MaybeAlreadyTerminated { process_id, source } => {
            assert_eq!(process_id, target_process_id);
            assert_eq!(source.to_string(), "Unix error: ESRCH: No such process");
        }
    }
}

#[test]
fn kii_sigkill() {
    let target_process_id = get_available_max_process_id();
    let kill_output =
        unix::kill(target_process_id, nix::sys::signal::Signal::SIGKILL).expect("Failed to kill");
    match kill_output {
        KillOutput::Killed { process_id: _ } => {
            panic!("This should not happen");
        }
        KillOutput::MaybeAlreadyTerminated { process_id, source } => {
            assert_eq!(process_id, target_process_id);
            assert_eq!(source.to_string(), "Unix error: ESRCH: No such process");
        }
    }
}

#[test]
fn kii_sigint() {
    let target_process_id = get_available_max_process_id();
    let kill_output =
        unix::kill(target_process_id, nix::sys::signal::Signal::SIGINT).expect("Failed to kill");
    match kill_output {
        KillOutput::Killed { process_id: _ } => {
            panic!("This should not happen");
        }
        KillOutput::MaybeAlreadyTerminated { process_id, source } => {
            assert_eq!(process_id, target_process_id);
            assert_eq!(source.to_string(), "Unix error: ESRCH: No such process");
        }
    }
}

#[test]
fn already_terminated_twice_is_never_an_error() {
    let target_process_id = get_available_max_process_id();
    for _ in 0..2 {
        let kill_output = unix::kill(target_process_id, nix::sys::signal::Signal::SIGTERM)
            .expect("Failed to kill");
        assert!(matches!(
            kill_output,
            KillOutput::MaybeAlreadyTerminated { .. }
        ));
    }
}

#[test]
fn blocking_kill_tree_available_max_process_id_unix() {
    let target_process_id = get_available_max_process_id();
    let result = blocking::kill_tree(target_process_id, Vec::new()).expect("Failed to kill");
    assert_eq!(result.len(), 1);
    let output = &result[0];
    match output {
        Output::Killed { .. } => {
            panic!("This should not happen");
        }
        Output::MaybeAlreadyTerminated { process_id, source } => {
            assert_eq!(*process_id, target_process_id);
            assert_eq!(source.to_string(), "Unix error: ESRCH: No such process");
        }
    }
}

#[test]
fn blocking_kill_tree_with_config_sigkill_available_max_process_id_unix() {
    let target_process_id = get_available_max_process_id();
    let config = Config {
        signal: String::from("SIGKILL"),
        ..Default::default()
    };
    let result = blocking::kill_tree_with_config(target_process_id, &config, Vec::new())
        .expect("Failed to kill");
    assert_eq!(result.len(), 1);
    let output = &result[0];
    match output {
        Output::Killed { .. } => {
            panic!("This should not happen");
        }
        Output::MaybeAlreadyTerminated { process_id, source } => {
            assert_eq!(*process_id, target_process_id);
            assert_eq!(source.to_string(), "Unix error: ESRCH: No such process");
        }
    }
}

#[test]
fn blocking_kill_tree_with_config_include_target_false_available_max_process_id() {
    let target_process_id = get_available_max_process_id();
    let config = Config {
        include_target: false,
        ..Default::default()
    };
    let result = blocking::kill_tree_with_config(target_process_id, &config, Vec::new())
        .expect("Failed to kill");
    assert_eq!(result.len(), 0);
}

#[test]
fn kill_tree_rejects_the_kernel_process() {
    let snapshot = vec![kill_tree::ProcessInfo {
        process_id: 7,
        parent_process_id: 0,
        name: "x".to_string(),
    }];
    let result = blocking::kill_tree(0, snapshot);
    assert!(result.is_err());
    assert_eq!(
        result.unwrap_err().to_string(),
        "Invalid process id: 0. Reason: Not allowed to kill kernel process"
    );
}

#[test]
fn kill_tree_rejects_the_init_process() {
    let result = blocking::kill_tree(1, Vec::new());
    assert!(result.is_err());
    assert_eq!(
        result.unwrap_err().to_string(),
        "Invalid process id: 1. Reason: Not allowed to kill init process"
    );
}

#[test]
fn kill_tree_rejects_a_pid_above_the_ceiling() {
    let max = get_available_max_process_id();
    let result = blocking::kill_tree(max + 1, Vec::new());
    assert!(result.is_err());
    assert_eq!(
        result.unwrap_err().to_string(),
        "Invalid process id: 4194305. Reason: Process id is too large. process id: 4194305, available max process id: 4194304"
    );
}

#[test]
fn kill_tree_accepts_the_ceiling_pid() {
    let max = get_available_max_process_id();
    assert!(blocking::kill_tree(max, Vec::new()).is_ok());
}

#[test]
fn unknown_signal_name_fails_before_any_kill() {
    let target_process_id = get_available_max_process_id();
    let config = Config {
        signal: "SIGWRONG".to_string(),
        ..Default::default()
    };
    let result = blocking::kill_tree_with_config(target_process_id, &config, Vec::new());
    assert!(result.is_err());
    assert_eq!(
        result.unwrap_err().to_string(),
        "Unix error: EINVAL: Invalid argument"
    );
}

#[test]
fn hard_failure_aborts_without_fabricating_outputs() {
    // The plan is executed back to front, so the child whose pid exceeds the
    // kernel's signed pid range is attempted first; the resulting hard
    // InvalidCast error aborts the whole call before anything is signaled,
    // and no outcome is reported for any pid.
    let target_process_id = get_available_max_process_id();
    let snapshot = vec![kill_tree::ProcessInfo {
        process_id: 0x8000_0001,
        parent_process_id: target_process_id,
        name: "too-big".to_string(),
    }];
    let result = blocking::kill_tree(target_process_id, snapshot);
    assert!(result.is_err());
    assert_eq!(
        result.unwrap_err().to_string(),
        "Invalid cast. Reason: Failed to cast process id to i32"
    );
}

#[test]
fn whole_tree_of_vanished_processes_reports_children_first() {
    // Pids above the Linux pid ceiling never exist, so every signal reports
    // "no such process"; the outcomes arrive descendants before ancestors.
    let target_process_id = get_available_max_process_id();
    let child = target_process_id + 96;
    let grandchild = target_process_id + 196;
    let snapshot = vec![
        kill_tree::ProcessInfo {
            process_id: child,
            parent_process_id: target_process_id,
            name: "child".to_string(),
        },
        kill_tree::ProcessInfo {
            process_id: grandchild,
            parent_process_id: child,
            name: "grandchild".to_string(),
        },
    ];
    let outputs = blocking::kill_tree(target_process_id, snapshot).expect("Failed to kill");
    let pids: Vec<u32> = outputs
        .iter()
        .map(|o| match o {
            Output::Killed { process_id, .. } => *process_id,
            Output::MaybeAlreadyTerminated { process_id, .. } => *process_id,
        })
        .collect();
    assert_eq!(pids, vec![grandchild, child, target_process_id]);
    for output in &outputs {
        assert!(matches!(output, Output::MaybeAlreadyTerminated { .. }));
    }
}

#[test]
fn excluded_childless_target_yields_empty_success() {
    // The snapshot is nonempty but nothing names the target as parent, so
    // with the target excluded there is nothing to kill and the call
    // succeeds with an empty outcome list without signaling anything.
    let target_process_id = get_available_max_process_id();
    let snapshot = vec![
        kill_tree::ProcessInfo {
            process_id: 7,
            parent_process_id: 1,
            name: "a".to_string(),
        },
        kill_tree::ProcessInfo {
            process_id: 9,
            parent_process_id: 7,
            name: "b".to_string(),
        },
    ];
    let config = Config {
        include_target: false,
        ..Default::default()
    };
    let result = blocking::kill_tree_with_config(target_process_id, &config, snapshot)
        .expect("Failed to kill");
    assert_eq!(result.len(), 0);
}

#[test]
fn every_recognized_signal_name_builds_a_killer() {
    let builder = unix::KillerBuilder {};
    for name in [
        "SIGHUP", "SIGINT", "SIGQUIT", "SIGILL", "SIGTRAP", "SIGABRT", "SIGBUS", "SIGFPE",
        "SIGKILL", "SIGUSR1", "SIGSEGV", "SIGUSR2", "SIGPIPE", "SIGALRM", "SIGTERM",
        "SIGSTKFLT", "SIGCHLD", "SIGCONT", "SIGSTOP", "SIGTSTP", "SIGTTIN", "SIGTTOU",
        "SIGURG", "SIGXCPU", "SIGXFSZ", "SIGVTALRM", "SIGPROF", "SIGWINCH", "SIGIO",
        "SIGPWR", "SIGSYS",
    ] {
        let config = Config {
            signal: name.to_string(),
            ..Default::default()
        };
        assert!(builder.new_killable(&config).is_ok());
    }
}

#[test]
fn unrecognized_signal_name_is_refused_by_the_builder() {
    let builder = unix::KillerBuilder {};
    for name in ["", "sigterm", "SIGINVALID", "TERM", "SIGEMT", "SIGINFO"] {
        let config = Config {
            signal: name.to_string(),
            ..Default::default()
        };
        let result = builder.new_killable(&config);
        assert!(result.is_err());
        assert_eq!(
            result.unwrap_err().to_string(),
            "Unix error: EINVAL: Invalid argument"
        );
    }
}
