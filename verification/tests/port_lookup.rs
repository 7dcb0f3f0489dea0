//! The command wrappers: wrapping scan outcomes, and the port lookup's
//! success-with-empty versus hard-error distinction.

use unbind::commands::{get_port_info, kill_process, scan_ports};
use unbind::scanner::{PortInfo, ScanError};

fn record(port: u16, pid: u32, name: &str) -> PortInfo {
    PortInfo {
        port,
        pid,
        process_name: name.to_string(),
        protocol: "tcp".to_string(),
        local_address: "0.0.0.0".to_string(),
        state: "LISTEN".to_string(),
    }
}

#[test]
fn test_scan_ports_wraps_success() {
    let r = scan_ports(Ok(vec![record(80, 1, "web")]));
    assert!(r.success);
    assert!(r.error.is_none());
    let ports = r.data.unwrap();
    assert_eq!(ports.len(), 1);
    assert_eq!(ports[0].port, 80);
}

#[test]
fn test_scan_ports_wraps_failure() {
    let r = scan_ports(Err(ScanError::from("scan blew up")));
    assert!(!r.success);
    assert!(r.data.is_none());
    assert_eq!(r.error, Some("scan blew up".to_string()));
}

#[test]
fn test_kill_process_wraps_both_outcomes() {
    let ok = kill_process(Ok(()));
    assert!(ok.success);
    assert!(ok.error.is_none());

    let err = kill_process(Err(ScanError::from("Failed to kill process: denied")));
    assert!(!err.success);
    assert_eq!(err.error, Some("Failed to kill process: denied".to_string()));
}

#[test]
fn test_get_port_info_finds_first_match() {
    let ports = vec![record(80, 1, "web"), record(3000, 2, "node"), record(3000, 3, "other")];
    let r = get_port_info(Ok(ports), 3000);
    assert!(r.success);
    assert!(r.error.is_none());
    let found = r.data.unwrap().unwrap();
    assert_eq!(found.port, 3000);
    assert_eq!(found.pid, 2);
    assert_eq!(found.process_name, "node");
}

#[test]
fn test_get_port_info_no_listener_is_success_with_empty() {
    // A port with no listener: success with an explicit absence...
    let ports = vec![record(80, 1, "web")];
    let r = get_port_info(Ok(ports), 4444);
    assert!(r.success);
    assert!(r.error.is_none());
    assert!(matches!(r.data, Some(None)));
}

#[test]
fn test_get_port_info_scan_failure_surfaces_as_error() {
    // ...which is a distinct outcome from a failed scan.
    let r = get_port_info(Err(ScanError::from("probe exploded")), 4444);
    assert!(!r.success);
    assert!(r.data.is_none());
    assert_eq!(r.error, Some("probe exploded".to_string()));
}

#[test]
fn test_get_port_info_on_empty_scan() {
    let r = get_port_info(Ok(Vec::new()), 1);
    assert!(r.success);
    assert!(matches!(r.data, Some(None)));
}
