//! The Windows `netstat` parsers and the `tasklist` PID-to-name table.

use unbind::scanner::windows::{
    build_pid_name_map, parse_address_port, parse_netstat_line, scan_ports,
};
use unbind::scanner::{CmdOutput, ScanError};

fn tasklist_output() -> ScanResultCmd {
    Ok(CmdOutput {
        success: true,
        stdout: "\"node.exe\",\"1234\",\"Console\",\"1\",\"10,000 K\"\n\"svchost.exe\",\"800\",\"Services\",\"0\",\"5,000 K\"\n"
        .to_string(),
        stderr: String::new(),
    })
}

type ScanResultCmd = Result<CmdOutput, ScanError>;

#[test]
fn test_windows_parse_address_port() {
    assert_eq!(parse_address_port("0.0.0.0:3000"), Some(("0.0.0.0".to_string(), 3000)));
    assert_eq!(parse_address_port("[::]:80"), Some(("[::]".to_string(), 80)));
    assert_eq!(parse_address_port("junk"), None);
}

#[test]
fn test_parse_netstat_line_tcp_listening() {
    let map = build_pid_name_map(&tasklist_output()).unwrap();
    let line = "  TCP    0.0.0.0:3000           0.0.0.0:0              LISTENING       1234";
    let r = parse_netstat_line(line, "tcp", &map);
    assert!(r.is_some());
    let info = r.unwrap();
    assert_eq!(info.port, 3000);
    assert_eq!(info.pid, 1234);
    assert_eq!(info.process_name, "node.exe");
    assert_eq!(info.protocol, "tcp");
    assert_eq!(info.local_address, "0.0.0.0");
    assert_eq!(info.state, "LISTEN");
}

#[test]
fn test_parse_netstat_line_tcp_not_listening() {
    let map = build_pid_name_map(&tasklist_output()).unwrap();
    let line = "  TCP    10.0.0.5:52000         142.250.74.78:443      ESTABLISHED     1234";
    assert!(parse_netstat_line(line, "tcp", &map).is_none());
}

#[test]
fn test_parse_netstat_line_udp() {
    let map = build_pid_name_map(&tasklist_output()).unwrap();
    let line = "  UDP    0.0.0.0:5353           *:*                                    800";
    let r = parse_netstat_line(line, "udp", &map);
    assert!(r.is_some());
    let info = r.unwrap();
    assert_eq!(info.port, 5353);
    assert_eq!(info.pid, 800);
    assert_eq!(info.process_name, "svchost.exe");
}

#[test]
fn test_parse_netstat_line_headers_and_pid_zero() {
    let map = build_pid_name_map(&tasklist_output()).unwrap();
    assert!(parse_netstat_line("Active Connections", "tcp", &map).is_none());
    assert!(parse_netstat_line("  Proto  Local Address  Foreign Address  State  PID", "tcp", &map)
        .is_none());
    assert!(parse_netstat_line("", "tcp", &map).is_none());
    // The system idle process is skipped outright.
    let line = "  TCP    0.0.0.0:445            0.0.0.0:0              LISTENING       0";
    assert!(parse_netstat_line(line, "tcp", &map).is_none());
}

#[test]
fn test_parse_netstat_line_unknown_pid_keeps_pid() {
    // A PID missing from the table keeps its number; only the name falls
    // back to the sentinel.
    let map = build_pid_name_map(&tasklist_output()).unwrap();
    let line = "  TCP    0.0.0.0:8080           0.0.0.0:0              listening       4242";
    let r = parse_netstat_line(line, "tcp", &map);
    assert!(r.is_some());
    let info = r.unwrap();
    assert_eq!(info.pid, 4242);
    assert_eq!(info.process_name, "unknown");
}

#[test]
fn test_build_pid_name_map_spawn_failure_is_error() {
    let r = build_pid_name_map(&Err(ScanError::from("tasklist missing")));
    assert_eq!(r.err().unwrap().message, "tasklist missing");
}

#[test]
fn test_build_pid_name_map_unsuccessful_exit_is_error() {
    // A `tasklist` run that exits non-zero is an error for the whole scan,
    // not an empty table.
    let q = Ok(CmdOutput { success: false, stdout: String::new(), stderr: String::new() });
    let r = build_pid_name_map(&q);
    assert_eq!(r.err().unwrap().message, "tasklist command failed");
}

#[test]
fn test_windows_scan_unsuccessful_pass_is_hard_failure() {
    // A `netstat` pass that runs but exits non-zero fails the whole scan:
    // no partial results are returned.
    let good = CmdOutput {
        success: true,
        stdout: "  TCP    0.0.0.0:3000           0.0.0.0:0              LISTENING       1234\n"
            .to_string(),
        stderr: String::new(),
    };
    let bad = CmdOutput { success: false, stdout: String::new(), stderr: String::new() };

    let r = scan_ports(&tasklist_output(), &Ok(bad.clone()), &Ok(good.clone()));
    assert_eq!(r.err().unwrap().message, "netstat command failed");

    let r = scan_ports(&tasklist_output(), &Ok(good), &Ok(bad));
    assert_eq!(r.err().unwrap().message, "netstat command failed");
}

#[test]
fn test_windows_scan_merges_passes() {
    let tcp = Ok(CmdOutput {
        success: true,
        stdout: "Active Connections\n  Proto  Local Address          Foreign Address        State           PID\n  TCP    0.0.0.0:3000           0.0.0.0:0              LISTENING       1234\n"
        .to_string(),
        stderr: String::new(),
    });
    let udp = Ok(CmdOutput {
        success: true,
        stdout: "  UDP    0.0.0.0:5353           *:*                                    800\n"
            .to_string(),
        stderr: String::new(),
    });
    let r = scan_ports(&tasklist_output(), &tcp, &udp);
    assert!(r.is_ok());
    let ports = r.unwrap();
    assert_eq!(ports.len(), 2);
    assert_eq!(ports[0].port, 3000);
    assert_eq!(ports[0].protocol, "tcp");
    assert_eq!(ports[1].port, 5353);
    assert_eq!(ports[1].protocol, "udp");
}
