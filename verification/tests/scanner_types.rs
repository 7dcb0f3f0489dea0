//! The record and error types, the response envelope, the coordinator and
//! the terminator.

use unbind::commands::CommandResponse;
use unbind::scanner::{kill_process, scan_ports, CmdOutput, PortInfo, ScanError};

fn sample_record() -> PortInfo {
    PortInfo {
        port: 3000,
        pid: 1234,
        process_name: "node".to_string(),
        protocol: "tcp".to_string(),
        local_address: "0.0.0.0".to_string(),
        state: "LISTEN".to_string(),
    }
}

#[test]
fn test_port_info_clone() {
    let original = PortInfo {
        port: 3000,
        pid: 1234,
        process_name: "node".to_string(),
        protocol: "tcp".to_string(),
        local_address: "0.0.0.0".to_string(),
        state: "LISTEN".to_string(),
    };

    let cloned = original.clone();
    assert_eq!(original.port, cloned.port);
    assert_eq!(original.pid, cloned.pid);
    assert_eq!(original.process_name, cloned.process_name);
}

#[test]
fn test_scan_error_from_string() {
    let error: ScanError = "Something went wrong".to_string().into();
    assert_eq!(error.message, "Something went wrong");
}

#[test]
fn test_scan_error_from_str() {
    let error: ScanError = "Error message".into();
    assert_eq!(error.message, "Error message");
}

#[test]
fn test_command_response_ok() {
    let r: CommandResponse<u32> = CommandResponse::ok(7);
    assert!(r.success);
    assert_eq!(r.data, Some(7));
    assert!(r.error.is_none());
}

#[test]
fn test_command_response_err() {
    let r: CommandResponse<u32> = CommandResponse::err("boom".to_string());
    assert!(!r.success);
    assert!(r.data.is_none());
    assert_eq!(r.error, Some("boom".to_string()));
}

#[test]
fn test_scan_ports_unsupported_platform() {
    let r = scan_ports(None);
    assert!(r.is_err());
    assert_eq!(r.err().unwrap().message, "Unsupported operating system");
}

#[test]
fn test_scan_ports_passes_probe_outcome_through() {
    let r = scan_ports(Some(Ok(vec![sample_record()])));
    assert!(r.is_ok());
    let ports = r.unwrap();
    assert_eq!(ports.len(), 1);
    assert_eq!(ports[0].port, 3000);

    let r = scan_ports(Some(Err(ScanError::from("probe failed"))));
    assert_eq!(r.err().unwrap().message, "probe failed");
}

#[test]
fn test_kill_process_success() {
    let out = CmdOutput { success: true, stdout: String::new(), stderr: String::new() };
    assert!(kill_process(Some(Ok(out))).is_ok());
}

#[test]
fn test_kill_process_nonexistent_pid_reports_diagnostic() {
    // The tool's own diagnostic text is carried verbatim, behind the fixed
    // prefix, so the failure message is never empty.
    let out = CmdOutput {
        success: false,
        stdout: String::new(),
        stderr: "kill: (99999) - No such process".to_string(),
    };
    let r = kill_process(Some(Ok(out)));
    assert!(r.is_err());
    let message = r.err().unwrap().message;
    assert!(!message.is_empty());
    assert_eq!(message, "Failed to kill process: kill: (99999) - No such process");
}

#[test]
fn test_kill_process_spawn_failure_passes_message() {
    let r = kill_process(Some(Err(ScanError::from("No such file or directory"))));
    assert_eq!(r.err().unwrap().message, "No such file or directory");
}

#[test]
fn test_kill_process_unsupported_platform() {
    let r = kill_process(None);
    assert_eq!(r.err().unwrap().message, "Unsupported operating system");
}
