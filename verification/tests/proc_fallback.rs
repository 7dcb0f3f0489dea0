//! The pseudo-table fallback: table lines, inode correlation, and the
//! primary/fallback strategy chain.

use unbind::scanner::linux::{
    build_pid_name_map, find_pid_by_inode, parse_proc_net_line, scan_ports, scan_with_proc,
    scan_with_ss, ProcSnapshot,
};
use unbind::scanner::{CmdOutput, ScanError};

// The tx/rx, timer, retransmit, uid and timeout columns precede the inode.
const LISTEN_8080: &str =
    "   0: 00000000:1F90 00000000:0000 0A 00000000:00000000 00:00000000 00000000  1000        0 12345 1 0000000000000000 100 0 0 10 0";
const ESTABLISHED_8080: &str =
    "   0: 00000000:1F90 00000000:0000 01 00000000:00000000 00:00000000 00000000  1000        0 12345 1 0000000000000000 100 0 0 10 0";

fn entries() -> Vec<(String, String)> {
    vec![
        ("999".to_string(), "node\n".to_string()),
        ("self".to_string(), "ignored".to_string()),
    ]
}

fn links() -> Vec<(u32, String)> {
    vec![
        (998, "/dev/null".to_string()),
        (999, "socket:[12345]".to_string()),
    ]
}

#[test]
fn test_proc_line_listening_state_yields_record() {
    let map = build_pid_name_map(&entries());
    let r = parse_proc_net_line(LISTEN_8080, "tcp", &map, &links());
    assert!(r.is_some());
    let info = r.unwrap();
    assert_eq!(info.port, 0x1F90);
    assert_eq!(info.port, 8080);
    assert_eq!(info.pid, 999);
    assert_eq!(info.process_name, "node");
    assert_eq!(info.protocol, "tcp");
    assert_eq!(info.local_address, "0.0.0.0");
    assert_eq!(info.state, "LISTEN");
}

#[test]
fn test_proc_line_other_state_yields_nothing() {
    // The same line with any state code other than the listening one is
    // skipped.
    let map = build_pid_name_map(&entries());
    assert!(parse_proc_net_line(ESTABLISHED_8080, "tcp", &map, &links()).is_none());
}

#[test]
fn test_proc_line_lowercase_hex_port() {
    let map = build_pid_name_map(&entries());
    let line =
        "   1: 00000000:1f90 00000000:0000 0A 00000000:00000000 00:00000000 00000000  1000        0 12345 1";
    let r = parse_proc_net_line(line, "udp", &map, &links());
    assert!(r.is_some());
    let info = r.unwrap();
    assert_eq!(info.port, 8080);
    assert_eq!(info.protocol, "udp");
}

#[test]
fn test_proc_line_header_and_empty_yield_nothing() {
    let map = build_pid_name_map(&entries());
    let header = "  sl  local_address rem_address   st tx_queue rx_queue tr tm->when retrnsmt   uid  timeout inode";
    assert!(parse_proc_net_line(header, "tcp", &map, &links()).is_none());
    assert!(parse_proc_net_line("", "tcp", &map, &links()).is_none());
}

#[test]
fn test_find_pid_by_inode_match_and_miss() {
    let map = build_pid_name_map(&entries());
    let (pid, name) = find_pid_by_inode(12345, &map, &links());
    assert_eq!(pid, 999);
    assert_eq!(name, "node");

    // Exhausting the walk without a match falls back to the sentinels.
    let (pid, name) = find_pid_by_inode(777, &map, &links());
    assert_eq!(pid, 0);
    assert_eq!(name, "unknown");
}

#[test]
fn test_find_pid_by_inode_unnamed_pid_keeps_pid() {
    let map = build_pid_name_map(&entries());
    let other_links = vec![(321u32, "socket:[42]".to_string())];
    let (pid, name) = find_pid_by_inode(42, &map, &other_links);
    assert_eq!(pid, 321);
    assert_eq!(name, "unknown");
}

#[test]
fn test_build_pid_name_map_later_entry_wins() {
    // Two entries under the same PID: the later one overrides the earlier.
    let dup = vec![
        ("7".to_string(), "old\n".to_string()),
        ("7".to_string(), "new\n".to_string()),
    ];
    let map = build_pid_name_map(&dup);
    let dup_links = vec![(7u32, "socket:[5]".to_string())];
    let (pid, name) = find_pid_by_inode(5, &map, &dup_links);
    assert_eq!(pid, 7);
    assert_eq!(name, "new");
}

#[test]
fn test_scan_with_proc_reads_all_tables() {
    let snap = ProcSnapshot {
        tcp: Ok(format!("header\n{}\n", LISTEN_8080)),
        tcp6: Ok("header\n".to_string()),
        udp: Ok("header\n".to_string()),
        proc_entries: entries(),
        fd_links: links(),
    };
    let r = scan_with_proc(&snap);
    assert!(r.is_ok());
    let ports = r.unwrap();
    assert_eq!(ports.len(), 1);
    assert_eq!(ports[0].port, 8080);
    assert_eq!(ports[0].process_name, "node");
}

#[test]
fn test_scan_with_proc_unreadable_table_is_hard_failure() {
    // An I/O failure on a table read fails the whole strategy: no partial
    // results are returned even though the TCP table was readable.
    let snap = ProcSnapshot {
        tcp: Ok(format!("header\n{}\n", LISTEN_8080)),
        tcp6: Err(ScanError::from("Permission denied")),
        udp: Ok("header\n".to_string()),
        proc_entries: entries(),
        fd_links: links(),
    };
    let r = scan_with_proc(&snap);
    assert_eq!(r.err().unwrap().message, "Permission denied");
}

#[test]
fn test_scan_with_ss_parses_both_passes() {
    let tcp = Ok(CmdOutput {
        success: true,
        stdout: "LISTEN 0 4096 0.0.0.0:3000 0.0.0.0:* users:((\"node\",pid=1234,fd=20))\n"
            .to_string(),
        stderr: String::new(),
    });
    let udp = Ok(CmdOutput {
        success: true,
        stdout: "UNCONN 0 0 0.0.0.0:53 0.0.0.0:* users:((\"dnsmasq\",pid=77,fd=4))\n".to_string(),
        stderr: String::new(),
    });
    let r = scan_with_ss(&tcp, &udp);
    assert!(r.is_ok());
    let ports = r.unwrap();
    assert_eq!(ports.len(), 2);
    assert_eq!(ports[0].port, 3000);
    assert_eq!(ports[0].protocol, "tcp");
    assert_eq!(ports[1].port, 53);
    assert_eq!(ports[1].protocol, "udp");
}

#[test]
fn test_scan_with_ss_tool_failure_is_hard() {
    let tcp = Ok(CmdOutput { success: false, stdout: String::new(), stderr: String::new() });
    let udp = Ok(CmdOutput { success: true, stdout: String::new(), stderr: String::new() });
    let r = scan_with_ss(&tcp, &udp);
    assert_eq!(r.err().unwrap().message, "ss command failed");
}

#[test]
fn test_scan_with_ss_udp_failure_is_hard() {
    // A UDP pass that runs but exits non-zero fails the whole strategy:
    // the TCP pass's records are not returned.
    let tcp = Ok(CmdOutput {
        success: true,
        stdout: "LISTEN 0 4096 0.0.0.0:3000 0.0.0.0:* users:((\"node\",pid=1234,fd=20))\n"
            .to_string(),
        stderr: String::new(),
    });
    let udp = Ok(CmdOutput { success: false, stdout: String::new(), stderr: String::new() });
    let r = scan_with_ss(&tcp, &udp);
    assert_eq!(r.err().unwrap().message, "ss command failed");
}

#[test]
fn test_scan_with_ss_garbage_lines_do_not_fail_scan() {
    let tcp = Ok(CmdOutput {
        success: true,
        stdout: "not a socket line\n\nshort\n".to_string(),
        stderr: String::new(),
    });
    let udp = Ok(CmdOutput { success: true, stdout: String::new(), stderr: String::new() });
    let r = scan_with_ss(&tcp, &udp);
    assert!(r.is_ok());
    assert_eq!(r.unwrap().len(), 0);
}

#[test]
fn test_linux_scan_falls_back_and_discards_primary_error() {
    let tcp = Err(ScanError::from("spawning ss failed"));
    let udp = Err(ScanError::from("spawning ss failed"));
    let snap = ProcSnapshot {
        tcp: Ok(format!("header\n{}\n", LISTEN_8080)),
        tcp6: Ok("header\n".to_string()),
        udp: Ok("header\n".to_string()),
        proc_entries: entries(),
        fd_links: links(),
    };
    let r = scan_ports(&tcp, &udp, &snap);
    // The fallback's outcome is returned as-is; the primary's error is gone.
    assert!(r.is_ok());
    let ports = r.unwrap();
    assert_eq!(ports.len(), 1);
    assert_eq!(ports[0].port, 8080);
}

#[test]
fn test_linux_scan_prefers_primary() {
    let tcp = Ok(CmdOutput {
        success: true,
        stdout: "LISTEN 0 4096 127.0.0.1:9000 0.0.0.0:*\n".to_string(),
        stderr: String::new(),
    });
    let udp = Ok(CmdOutput { success: true, stdout: String::new(), stderr: String::new() });
    let snap = ProcSnapshot {
        tcp: Ok(format!("header\n{}\n", LISTEN_8080)),
        tcp6: Ok("header\n".to_string()),
        udp: Ok("header\n".to_string()),
        proc_entries: entries(),
        fd_links: links(),
    };
    let r = scan_ports(&tcp, &udp, &snap);
    let ports = r.unwrap();
    assert_eq!(ports.len(), 1);
    assert_eq!(ports[0].port, 9000);
    assert_eq!(ports[0].local_address, "127.0.0.1");
}

#[test]
fn test_linux_scan_surfaces_fallback_failure() {
    // When the primary strategy fails and the fallback also fails, the
    // fallback's own error is the scan's error.
    let tcp = Err(ScanError::from("spawning ss failed"));
    let udp = Err(ScanError::from("spawning ss failed"));
    let snap = ProcSnapshot {
        tcp: Err(ScanError::from("No such file or directory")),
        tcp6: Ok("header\n".to_string()),
        udp: Ok("header\n".to_string()),
        proc_entries: entries(),
        fd_links: links(),
    };
    let r = scan_ports(&tcp, &udp, &snap);
    assert_eq!(r.err().unwrap().message, "No such file or directory");
}
