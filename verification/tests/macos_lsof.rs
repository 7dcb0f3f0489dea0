//! The macOS `lsof` parsers and the per-port deduplication.

use unbind::scanner::macos::{
    extract_address_from_name, extract_port_from_name, parse_lsof_line, scan_ports,
};
use unbind::scanner::CmdOutput;

#[test]
fn test_extract_port_wildcard() {
    assert_eq!(extract_port_from_name("*:3000"), Some(3000));
}

#[test]
fn test_extract_port_ipv6() {
    assert_eq!(extract_port_from_name("[::1]:443"), Some(443));
}

#[test]
fn test_extract_port_absent() {
    assert_eq!(extract_port_from_name("nocolon"), None);
    assert_eq!(extract_port_from_name("host:web"), None);
}

#[test]
fn test_extract_address_forms() {
    assert_eq!(extract_address_from_name("*:3000"), "0.0.0.0");
    assert_eq!(extract_address_from_name("127.0.0.1:3000"), "127.0.0.1");
    assert_eq!(extract_address_from_name("[::1]:443"), "[::1]");
    assert_eq!(extract_address_from_name("nocolon"), "0.0.0.0");
}

#[test]
fn test_parse_lsof_line_udp() {
    let line = "mDNSRespo  400 user  10u  IPv4 0xdeadbeef      0t0  UDP *:5353";
    let r = parse_lsof_line(line, "udp");
    assert!(r.is_some());
    let info = r.unwrap();
    assert_eq!(info.port, 5353);
    assert_eq!(info.pid, 400);
    assert_eq!(info.process_name, "mDNSRespo");
    assert_eq!(info.protocol, "udp");
    assert_eq!(info.local_address, "0.0.0.0");
    assert_eq!(info.state, "LISTEN");
}

#[test]
fn test_parse_lsof_line_short_yields_nothing() {
    assert!(parse_lsof_line("COMMAND PID USER", "tcp").is_none());
    assert!(parse_lsof_line("", "tcp").is_none());
}

#[test]
fn test_parse_lsof_line_nonnumeric_pid_yields_nothing() {
    let line = "node  abc user  22u  IPv4 0x0 0t0  UDP *:3000";
    assert!(parse_lsof_line(line, "udp").is_none());
}

#[test]
fn test_macos_scan_dedups_by_port_keeping_first() {
    // Two sockets on the same port: only the earlier record survives, and
    // the result is ordered by port.
    let tcp = Ok(CmdOutput {
        success: true,
        stdout: "COMMAND PID USER FD TYPE DEVICE SIZE/OFF NODE NAME\n".to_string(),
        stderr: String::new(),
    });
    let udp = Ok(CmdOutput {
        success: true,
        stdout: "COMMAND PID USER FD TYPE DEVICE SIZE/OFF NODE NAME\nlate  30 user 10u IPv4 0x0 0t0 UDP *:9999\nfirst 10 user 10u IPv4 0x0 0t0 UDP *:53\nsecond 20 user 10u IPv4 0x0 0t0 UDP *:53\n"
        .to_string(),
        stderr: String::new(),
    });
    let r = scan_ports(&tcp, &udp);
    assert!(r.is_ok());
    let ports = r.unwrap();
    assert_eq!(ports.len(), 2);
    assert_eq!(ports[0].port, 53);
    assert_eq!(ports[0].process_name, "first");
    assert_eq!(ports[1].port, 9999);
    assert_eq!(ports[1].process_name, "late");
}

#[test]
fn test_macos_scan_spawn_failure_is_hard() {
    let tcp = Err(unbind::scanner::ScanError::from("lsof not found"));
    let udp = Ok(CmdOutput { success: true, stdout: String::new(), stderr: String::new() });
    let r = scan_ports(&tcp, &udp);
    assert_eq!(r.err().unwrap().message, "lsof not found");
}

#[test]
fn test_macos_scan_skips_header_line() {
    let tcp = Ok(CmdOutput {
        success: true,
        stdout: "COMMAND PID USER FD TYPE DEVICE SIZE/OFF NODE NAME\n".to_string(),
        stderr: String::new(),
    });
    // A lone header line parses to nothing even though it is skipped anyway.
    let udp = Ok(CmdOutput {
        success: true,
        stdout: "COMMAND PID USER FD TYPE DEVICE SIZE/OFF NODE NAME\n".to_string(),
        stderr: String::new(),
    });
    let r = scan_ports(&tcp, &udp);
    assert_eq!(r.unwrap().len(), 0);
}

#[test]
fn test_macos_scan_unsuccessful_pass_is_hard_failure() {
    // A pass that runs but exits non-zero fails the whole scan: this
    // platform has no fallback, so no partial results are returned.
    let good = CmdOutput {
        success: true,
        stdout: "COMMAND PID USER FD TYPE DEVICE SIZE/OFF NODE NAME\nnode 1 u 22u IPv4 0x0 0t0 UDP *:53\n"
            .to_string(),
        stderr: String::new(),
    };
    let bad = CmdOutput { success: false, stdout: String::new(), stderr: String::new() };

    let r = scan_ports(&Ok(bad.clone()), &Ok(good.clone()));
    assert_eq!(r.err().unwrap().message, "lsof command failed");

    let r = scan_ports(&Ok(good), &Ok(bad));
    assert_eq!(r.err().unwrap().message, "lsof command failed");
}

#[test]
fn test_parse_lsof_line_strips_listen_marker() {
    // A NAME field with the state marker glued on still yields its port.
    let line = "node 1 user 22u IPv4 0x0 0t0 TCP *:8080(LISTEN)";
    let r = parse_lsof_line(line, "tcp");
    assert!(r.is_some());
    let info = r.unwrap();
    assert_eq!(info.port, 8080);
    assert_eq!(info.local_address, "0.0.0.0");
}
