//! Parsing of process directory status records, decimal rendering and error
//! messages.

use kill_tree::linux::parse_status;
use kill_tree::{u32_to_string, Error};

#[test]
fn parse_status_kernel_process_id() {
    let process_id = 0;
    let status_path = "/proc/0/status".to_string();
    let status = "Name: init\nPPid: 0\n".to_string();
    let process_info =
        parse_status(process_id, status_path, &status).expect("Failed to parse status");
    assert_eq!(process_info.process_id, process_id);
    assert_eq!(process_info.parent_process_id, 0);
    assert_eq!(process_info.name, "init");
}

#[test]
fn parse_status_tab_separated_fields() {
    let status = "Name:\tsystemd\nUmask:\t0000\nState:\tS (sleeping)\nPPid:\t0\n";
    let process_info = parse_status(1, "/proc/1/status".to_string(), status)
        .expect("Failed to parse status");
    assert_eq!(process_info.process_id, 1);
    assert_eq!(process_info.parent_process_id, 0);
    assert_eq!(process_info.name, "systemd");
}

#[test]
fn parse_status_carriage_returns_are_stripped() {
    let status = "Name:\tbash\r\nPPid:\t42\r\n";
    let process_info = parse_status(77, "/proc/77/status".to_string(), status)
        .expect("Failed to parse status");
    assert_eq!(process_info.parent_process_id, 42);
    assert_eq!(process_info.name, "bash");
}

#[test]
fn parse_status_missing_ppid() {
    let status = "Name:\tbash\n";
    let result = parse_status(5, "/proc/5/status".to_string(), status);
    assert_eq!(
        result.unwrap_err().to_string(),
        "Invalid proc entry. Process id: 5. Path: /proc/5/status. Reason: Parent process id is None"
    );
}

#[test]
fn parse_status_missing_name() {
    let status = "PPid:\t1\n";
    let result = parse_status(5, "/proc/5/status".to_string(), status);
    assert_eq!(
        result.unwrap_err().to_string(),
        "Invalid proc entry. Process id: 5. Path: /proc/5/status. Reason: Name is None"
    );
}

#[test]
fn parse_status_bare_ppid_line() {
    let status = "PPid:\nName:\tbash\n";
    let result = parse_status(5, "/proc/5/status".to_string(), status);
    assert_eq!(
        result.unwrap_err().to_string(),
        "Invalid proc entry. Process id: 5. Path: /proc/5/status. Reason: PPid line is invalid"
    );
}

#[test]
fn parse_status_non_numeric_ppid() {
    let status = "PPid:\tabc\nName:\tbash\n";
    let result = parse_status(5, "/proc/5/status".to_string(), status);
    assert_eq!(
        result.unwrap_err().to_string(),
        "Invalid proc entry. Process id: 5. Path: /proc/5/status. Reason: Failed to parse parent process id"
    );
}

#[test]
fn parse_status_overflowing_ppid() {
    let status = "PPid:\t99999999999999\nName:\tbash\n";
    let result = parse_status(5, "/proc/5/status".to_string(), status);
    assert_eq!(
        result.unwrap_err().to_string(),
        "Invalid proc entry. Process id: 5. Path: /proc/5/status. Reason: Failed to parse parent process id"
    );
}

#[test]
fn parse_status_bare_name_line() {
    let status = "Name:\nPPid:\t1\n";
    let result = parse_status(5, "/proc/5/status".to_string(), status);
    assert_eq!(
        result.unwrap_err().to_string(),
        "Invalid proc entry. Process id: 5. Path: /proc/5/status. Reason: Name line is invalid"
    );
}

#[test]
fn parse_status_empty_text() {
    let result = parse_status(5, "/proc/5/status".to_string(), "");
    assert_eq!(
        result.unwrap_err().to_string(),
        "Invalid proc entry. Process id: 5. Path: /proc/5/status. Reason: Parent process id is None"
    );
}

#[test]
fn parse_status_plus_signed_ppid() {
    let status = "Name:\tbash\nPPid:\t+7\n";
    let process_info = parse_status(9, "/proc/9/status".to_string(), status)
        .expect("Failed to parse status");
    assert_eq!(process_info.parent_process_id, 7);
}

#[test]
fn parse_status_stops_after_both_fields() {
    let status = "Name:\tfirst\nPPid:\t3\nName:\tsecond\nPPid:\tnot-a-number\n";
    let process_info = parse_status(9, "/proc/9/status".to_string(), status)
        .expect("Failed to parse status");
    assert_eq!(process_info.parent_process_id, 3);
    assert_eq!(process_info.name, "first");
}

#[test]
fn u32_to_string_zero() {
    assert_eq!(u32_to_string(0), "0");
}

#[test]
fn u32_to_string_all_digits() {
    assert_eq!(u32_to_string(1234567890), "1234567890");
}

#[test]
fn u32_to_string_max() {
    assert_eq!(u32_to_string(u32::MAX), "4294967295");
}

#[test]
fn error_display_invalid_process_id() {
    let error = Error::InvalidProcessId {
        process_id: 0,
        reason: "reason".to_string(),
    };
    assert_eq!(error.to_string(), "Invalid process id: 0. Reason: reason");
}

#[test]
fn error_display_io() {
    let error = Error::Io {
        message: "error".to_string(),
    };
    assert_eq!(error.to_string(), "I/O error: error");
}

#[test]
fn invalid_cast_message() {
    let error = Error::InvalidCast {
        reason: "reason".to_string(),
    };
    assert_eq!(error.to_string(), "Invalid cast. Reason: reason");
}

#[test]
fn unix_error_message() {
    let error = Error::Unix {
        message: "ESRCH: No such process".to_string(),
    };
    assert_eq!(error.to_string(), "Unix error: ESRCH: No such process");
}

#[test]
fn invalid_proc_entry_message() {
    let error = Error::InvalidProcEntry {
        process_id: 0,
        path: "/proc/0".to_string(),
        reason: "reason".to_string(),
    };
    assert_eq!(
        error.to_string(),
        "Invalid proc entry. Process id: 0. Path: /proc/0. Reason: reason"
    );
}

#[test]
fn default_config() {
    let config = kill_tree::Config::default();
    assert_eq!(config.signal, "SIGTERM");
    assert_eq!(config.include_target, true);
}
