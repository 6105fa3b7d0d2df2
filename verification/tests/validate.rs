//! Validation of target pids against reserved ids and platform ceilings.

use kill_tree::{get_available_max_process_id, linux, macos, unix, windows, ProcessInfo};

#[test]
fn test_validate_process_id_kernel() {
    let result = unix::validate_process_id(0, 100);
    assert!(result.is_err());
    assert_eq!(
        result.unwrap_err().to_string(),
        "Invalid process id: 0. Reason: Not allowed to kill kernel process"
    );
}

#[test]
fn test_validate_process_id_init() {
    let result = unix::validate_process_id(1, 100);
    assert!(result.is_err());
    assert_eq!(
        result.unwrap_err().to_string(),
        "Invalid process id: 1. Reason: Not allowed to kill init process"
    );
}

#[test]
fn test_validate_process_id_too_large() {
    let result = unix::validate_process_id(101, 100);
    assert!(result.is_err());
    assert_eq!(
        result.unwrap_err().to_string(),
        "Invalid process id: 101. Reason: Process id is too large. process id: 101, available max process id: 100"
    );
}

#[test]
fn test_validate_process_id_ok() {
    let result = unix::validate_process_id(100, 100);
    assert!(result.is_ok());
}

#[test]
fn validate_process_id_kernel_process_id() {
    let process_id = 0;
    let result = linux::validate_process_id(process_id);
    assert!(result.is_err());
}

#[test]
fn validate_process_id_init_process_id() {
    let process_id = 1;
    let result = linux::validate_process_id(process_id);
    assert!(result.is_err());
}

#[test]
fn validate_process_id_available_max_process_id() {
    let process_id = linux::AVAILABLE_MAX_PROCESS_ID;
    linux::validate_process_id(process_id).expect("Failed to validate process id");
}

#[test]
fn validate_process_id_0() {
    let process_id = 0;
    let result = macos::validate_process_id(process_id);
    assert!(result.is_err());
}

#[test]
fn validate_process_id_1() {
    let process_id = 1;
    let result = macos::validate_process_id(process_id);
    assert!(result.is_err());
}

#[test]
fn validate_process_id_99998() {
    let process_id = 99998;
    let result = macos::validate_process_id(process_id);
    assert!(result.is_ok());
}

#[test]
fn validate_process_id_99999() {
    let process_id = 99999;
    let result = macos::validate_process_id(process_id);
    assert!(result.is_err());
}

#[test]
fn validate_process_id_system_idle_process() {
    let process_id = 0;
    let result = windows::validate_process_id(process_id);
    assert!(result.is_err());
    assert_eq!(
        result.unwrap_err().to_string(),
        format!(
            "Invalid process id: {process_id}. Reason: Not allowed to kill System Idle Process",
            process_id = process_id
        )
    );
}

#[test]
fn validate_process_id_system() {
    let process_id = 4;
    let result = windows::validate_process_id(process_id);
    assert!(result.is_err());
    assert_eq!(
        result.unwrap_err().to_string(),
        format!(
            "Invalid process id: {process_id}. Reason: Not allowed to kill System",
            process_id = process_id
        )
    );
}

#[test]
fn validate_process_id_other() {
    let process_id = 1;
    let result = windows::validate_process_id(process_id);
    assert!(result.is_ok());
}

#[test]
fn validate_process_id_available_max() {
    let process_id = windows::AVAILABLE_MAX_PROCESS_ID;
    let result = windows::validate_process_id(process_id);
    assert!(result.is_ok());
}

#[test]
fn available_max_process_id_windows() {
    assert_eq!(windows::AVAILABLE_MAX_PROCESS_ID, 0xFFFF_FFFF);
}

#[test]
fn available_max_process_id_linux() {
    assert_eq!(get_available_max_process_id(), 0x0040_0000);
}

#[test]
fn available_max_process_id_macos() {
    assert_eq!(macos::AVAILABLE_MAX_PROCESS_ID, 99998);
}

#[test]
fn linux_child_process_id_map_filter_false() {
    let process_info = ProcessInfo {
        process_id: 0,
        parent_process_id: 0,
        name: "init".to_string(),
    };
    assert!(!linux::child_process_id_map_filter(&process_info));
}

#[test]
fn macos_child_process_id_map_filter_false() {
    let process_info = ProcessInfo {
        process_id: 0,
        parent_process_id: 0,
        name: "name".to_string(),
    };
    assert!(!macos::child_process_id_map_filter(&process_info));
}

#[test]
fn child_process_id_map_filter_same() {
    let process_info = ProcessInfo {
        process_id: 1,
        parent_process_id: 1,
        name: "1".to_string(),
    };
    assert_eq!(windows::child_process_id_map_filter(&process_info), true);
}

#[test]
fn child_process_id_map_filter_not_same() {
    let process_info = ProcessInfo {
        process_id: 1,
        parent_process_id: 0,
        name: "1".to_string(),
    };
    assert_eq!(windows::child_process_id_map_filter(&process_info), false);
}
