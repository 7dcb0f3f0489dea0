//! The Windows probe: parsing of `netstat` output with a PID-to-name table
//! built from `tasklist`.
//!
//! The PID column is mandatory in the `netstat` layout, so a line without it
//! is rejected outright; a PID the table cannot name keeps its number and
//! takes the `"unknown"` name.

use vstd::prelude::*;

use crate::scanner::{
    lemma_map_view_insert, map_view, parse_address_port_str, query_view, spec_parse_address_port,
    valid_record, CmdOutput, CmdOutputV, PortInfo, PortInfoV, ScanError, ScanResult,
};
use crate::text::{
    lines_of, parse_dec_bounded, seq_eq_ci, spec_parse_dec, split_char, split_lines, split_on_char,
    split_tokens, starts_with_ci, starts_with_str, tokens_of, trim_cl, trim_class,
};

verus! {

/// Whether `s` begins with `p`, letter for letter.
pub open spec fn spec_starts_with(s: Seq<char>, p: Seq<char>) -> bool {
    s.len() >= p.len() && s.take(p.len() as int) == p
}

/// Whether `s` begins with `p` up to ASCII case.
pub open spec fn spec_starts_with_ci(s: Seq<char>, p: Seq<char>) -> bool {
    s.len() >= p.len() && seq_eq_ci(s.take(p.len() as int), p)
}

/// The record a `netstat` row's address and PID columns yield: the address
/// token must split into address and port, the PID column must be a decimal
/// 32-bit numeral, and the system idle process (PID 0) is skipped; the name
/// comes from the PID-to-name table, `"unknown"` where the table lacks the
/// PID — the PID itself is retained.
pub open spec fn spec_netstat_row(
    addr_tok: Seq<char>,
    pid_tok: Seq<char>,
    proto: Seq<char>,
    pm: Map<u32, Seq<char>>,
) -> Option<PortInfoV> {
    match spec_parse_address_port(addr_tok) {
        None => None,
        Some(ap) => match spec_parse_dec(pid_tok, 0xFFFF_FFFF) {
            None => None,
            Some(pid) => if pid == 0 {
                None
            } else {
                Some(
                    PortInfoV {
                        port: ap.1,
                        pid: pid as u32,
                        process_name: if pm.contains_key(pid as u32) {
                            pm[pid as u32]
                        } else {
                            "unknown"@
                        },
                        protocol: proto,
                        local_address: ap.0,
                        state: "LISTEN"@,
                    },
                )
            },
        },
    }
}

/// What one `netstat` line yields.  The line is trimmed; empty and header
/// lines are skipped; a TCP row needs five columns and the `LISTENING`
/// state (case-insensitively), a UDP row four columns and no state; the
/// transport prefix is matched case-insensitively.
pub open spec fn spec_parse_netstat_line(
    s: Seq<char>,
    proto: Seq<char>,
    pm: Map<u32, Seq<char>>,
) -> Option<PortInfoV> {
    let t = trim_cl(s, None);
    if t.len() == 0 {
        None
    } else if spec_starts_with(t, "Proto"@) || spec_starts_with(t, "Active"@) {
        None
    } else {
        let toks = tokens_of(t);
        if spec_starts_with_ci(t, "TCP"@) {
            if toks.len() < 5 {
                None
            } else if !seq_eq_ci(toks[3], "LISTENING"@) {
                None
            } else {
                spec_netstat_row(toks[1], toks[4], proto, pm)
            }
        } else if spec_starts_with_ci(t, "UDP"@) {
            if toks.len() < 4 {
                None
            } else {
                spec_netstat_row(toks[1], toks[3], proto, pm)
            }
        } else {
            None
        }
    }
}

/// Splits a bound-address token at the last colon — or just after the
/// closing bracket of an IPv6 address — into the address text and the port.
pub fn parse_address_port(addr_port: &str) -> (r: Option<(String, u16)>)
    ensures
        match r {
            Some(ap) => spec_parse_address_port(addr_port@) == Some((ap.0@, ap.1)),
            None => spec_parse_address_port(addr_port@) is None,
        },
{
    parse_address_port_str(addr_port)
}

/// Parses one trimmed `netstat` row's columns into a record.
fn parse_netstat_row(
    addr_tok: &str,
    pid_tok: &str,
    protocol: &str,
    pid_map: &vstd::hash_map::HashMapWithView<u32, String>,
) -> (r: Option<PortInfo>)
    ensures
        match r {
            Some(p) => spec_netstat_row(addr_tok@, pid_tok@, protocol@, map_view(pid_map@)) == Some(
                p@,
            ),
            None => spec_netstat_row(addr_tok@, pid_tok@, protocol@, map_view(pid_map@)) is None,
        },
{
    match parse_address_port(addr_tok) {
        None => None,
        Some(ap) => {
            let (address, port) = ap;
            match parse_dec_bounded(pid_tok, 0xFFFF_FFFF) {
                None => None,
                Some(pid64) => {
                    if pid64 == 0 {
                        return None;
                    }
                    let pid = pid64 as u32;
                    let process_name = match pid_map.get(&pid) {
                        Some(n) => n.clone(),
                        None => "unknown".to_owned(),
                    };
                    proof {
                        if map_view(pid_map@).contains_key(pid) {
                            assert(map_view(pid_map@)[pid] == pid_map@[pid]@);
                        }
                    }
                    Some(
                        PortInfo {
                            port,
                            pid,
                            process_name,
                            protocol: protocol.to_owned(),
                            local_address: address,
                            state: "LISTEN".to_owned(),
                        },
                    )
                },
            }
        },
    }
}

/// Parses one line of `netstat` output into a record, or nothing for a
/// header, an empty line, a non-listening TCP socket, or a malformed row.
pub fn parse_netstat_line(
    line: &str,
    protocol: &str,
    pid_map: &vstd::hash_map::HashMapWithView<u32, String>,
) -> (r: Option<PortInfo>)
    ensures
        match r {
            Some(p) => spec_parse_netstat_line(line@, protocol@, map_view(pid_map@)) == Some(p@),
            None => spec_parse_netstat_line(line@, protocol@, map_view(pid_map@)) is None,
        },
{
    let trimmed = trim_class(line, None);
    let t = trimmed.as_str();
    if t.unicode_len() == 0 {
        return None;
    }
    if starts_with_str(t, "Proto") || starts_with_str(t, "Active") {
        return None;
    }
    let toks = split_tokens(t);
    proof {
        assert(toks.deep_view().len() == toks@.len());
    }
    if starts_with_ci(t, "TCP") {
        if toks.len() < 5 {
            return None;
        }
        proof {
            assert(toks.deep_view()[1] == toks@[1]@);
            assert(toks.deep_view()[3] == toks@[3]@);
            assert(toks.deep_view()[4] == toks@[4]@);
        }
        if !crate::text::eq_ignore_case(toks[3].as_str(), "LISTENING") {
            return None;
        }
        parse_netstat_row(toks[1].as_str(), toks[4].as_str(), protocol, pid_map)
    } else if starts_with_ci(t, "UDP") {
        if toks.len() < 4 {
            return None;
        }
        proof {
            assert(toks.deep_view()[1] == toks@[1]@);
            assert(toks.deep_view()[3] == toks@[3]@);
        }
        parse_netstat_row(toks[1].as_str(), toks[3].as_str(), protocol, pid_map)
    } else {
        None
    }
}

/// The PID-to-name table read out of `tasklist`'s CSV rows: each row with at
/// least two comma-separated columns contributes its quoted name under its
/// quoted numeric PID; a later row for the same PID wins.
pub open spec fn tasklist_map(lines: Seq<Seq<char>>) -> Map<u32, Seq<char>>
    decreases lines.len(),
{
    if lines.len() == 0 {
        Map::empty()
    } else {
        let m = tasklist_map(lines.drop_last());
        let parts = split_char(lines.last(), ',');
        if parts.len() >= 2 {
            match spec_parse_dec(trim_cl(parts[1], Some('"')), 0xFFFF_FFFF) {
                Some(pid) => m.insert(pid as u32, trim_cl(parts[0], Some('"'))),
                None => m,
            }
        } else {
            m
        }
    }
}

/// What the `tasklist` query yields: a spawn failure, or a run that exited
/// unsuccessfully, is an error for the whole scan.
pub open spec fn spec_build_pid_map(q: Result<CmdOutputV, Seq<char>>) -> Result<
    Map<u32, Seq<char>>,
    Seq<char>,
> {
    match q {
        Err(m) => Err(m),
        Ok(o) => if !o.success {
            Err("tasklist command failed"@)
        } else {
            Ok(tasklist_map(lines_of(o.stdout)))
        },
    }
}

/// Builds the PID-to-name table from the captured `tasklist` output.
pub fn build_pid_name_map(q: &ScanResult<CmdOutput>) -> (r: ScanResult<
    vstd::hash_map::HashMapWithView<u32, String>,
>)
    ensures
        match r {
            Ok(m) => spec_build_pid_map(query_view(q)) == Ok::<Map<u32, Seq<char>>, Seq<char>>(
                map_view(m@),
            ),
            Err(e) => spec_build_pid_map(query_view(q)) == Err::<Map<u32, Seq<char>>, Seq<char>>(
                e@,
            ),
        },
{
    proof {
        broadcast use vstd::std_specs::hash::axiom_u32_obeys_hash_table_key_model;

    }
    let out = match q {
        Ok(o) => o,
        Err(e) => {
            return Err(ScanError { message: e.message.clone() });
        },
    };
    if !out.success {
        return Err(ScanError::from("tasklist command failed"));
    }
    let mut m = vstd::hash_map::HashMapWithView::<u32, String>::new();
    proof {
        assert(map_view(m@) =~= Map::<u32, Seq<char>>::empty());
    }
    let lines = split_lines(out.stdout.as_str());
    let ghost all = lines.deep_view();
    let mut i: usize = 0;
    proof {
        assert(all.take(0) =~= Seq::<Seq<char>>::empty());
    }
    while i < lines.len()
        invariant
            all == lines.deep_view(),
            0 <= i <= lines@.len(),
            all.len() == lines@.len(),
            map_view(m@) == tasklist_map(all.take(i as int)),
        decreases lines@.len() - i,
    {
        proof {
            assert(all[i as int] == lines@[i as int]@);
            assert(all.take(i + 1).drop_last() =~= all.take(i as int));
            assert(all.take(i + 1).last() == all[i as int]);
        }
        let parts = split_on_char(lines[i].as_str(), ',');
        if parts.len() >= 2 {
            proof {
                assert(parts.deep_view()[0] == parts@[0]@);
                assert(parts.deep_view()[1] == parts@[1]@);
            }
            let pid_text = trim_class(parts[1].as_str(), Some('"'));
            match parse_dec_bounded(pid_text.as_str(), 0xFFFF_FFFF) {
                Some(pid) => {
                    let name = trim_class(parts[0].as_str(), Some('"'));
                    proof {
                        lemma_map_view_insert(m@, (pid as u32), name);
                    }
                    m.insert(pid as u32, name);
                },
                None => {},
            }
        }
        i = i + 1;
    }
    proof {
        assert(all.take(all.len() as int) =~= all);
    }
    Ok(m)
}

/// The records of a sequence of `netstat` lines, in order.
pub open spec fn netstat_records(
    lines: Seq<Seq<char>>,
    proto: Seq<char>,
    pm: Map<u32, Seq<char>>,
) -> Seq<PortInfoV>
    decreases lines.len(),
{
    if lines.len() == 0 {
        Seq::empty()
    } else {
        let rest = netstat_records(lines.drop_first(), proto, pm);
        match spec_parse_netstat_line(lines[0], proto, pm) {
            Some(r) => seq![r] + rest,
            None => rest,
        }
    }
}

/// Collects the records of one `netstat` pass.
fn collect_netstat_records(
    lines: &Vec<String>,
    udp: bool,
    pid_map: &vstd::hash_map::HashMapWithView<u32, String>,
) -> (v: Vec<PortInfo>)
    ensures
        v.deep_view() == netstat_records(
            lines.deep_view(),
            if udp {
                "udp"@
            } else {
                "tcp"@
            },
            map_view(pid_map@),
        ),
{
    let ghost proto: Seq<char> = if udp {
        "udp"@
    } else {
        "tcp"@
    };
    let ghost all = lines.deep_view();
    let ghost pm = map_view(pid_map@);
    let mut v: Vec<PortInfo> = Vec::new();
    let mut i: usize = 0;
    proof {
        assert(v.deep_view() =~= Seq::<PortInfoV>::empty());
        assert(all.skip(0) =~= all);
    }
    while i < lines.len()
        invariant
            all == lines.deep_view(),
            pm == map_view(pid_map@),
            proto == if udp {
                "udp"@
            } else {
                "tcp"@
            },
            0 <= i <= lines@.len(),
            all.len() == lines@.len(),
            netstat_records(all, proto, pm) == v.deep_view() + netstat_records(
                all.skip(i as int),
                proto,
                pm,
            ),
        decreases lines@.len() - i,
    {
        let ghost prev = v.deep_view();
        proof {
            assert(all.skip(i as int)[0] == all[i as int]);
            assert(all.skip(i as int).drop_first() =~= all.skip(i + 1));
            assert(all[i as int] == lines@[i as int]@);
        }
        let proto_name = if udp {
            "udp"
        } else {
            "tcp"
        };
        match parse_netstat_line(lines[i].as_str(), proto_name, pid_map) {
            Some(p) => {
                let ghost rec = spec_parse_netstat_line(all[i as int], proto, pm)->Some_0;
                proof {
                    assert(p@ =~= rec);
                }
                v.push(p);
                proof {
                    assert(v.deep_view() =~= prev.push(rec));
                    assert(prev + (seq![rec] + netstat_records(all.skip(i + 1), proto, pm))
                        =~= prev.push(rec) + netstat_records(all.skip(i + 1), proto, pm));
                }
            },
            None => {},
        }
        i = i + 1;
    }
    proof {
        assert(all.skip(all.len() as int) =~= Seq::<Seq<char>>::empty());
        assert(v.deep_view() + Seq::<PortInfoV>::empty() =~= v.deep_view());
    }
    v
}

/// What the Windows scan yields from `tasklist` and the two `netstat`
/// passes.  A query that could not be spawned, or that ran but exited
/// unsuccessfully, is a hard failure for the whole scan: no partial results
/// survive it.
pub open spec fn spec_windows_scan(
    tasklist: Result<CmdOutputV, Seq<char>>,
    tcp: Result<CmdOutputV, Seq<char>>,
    udp: Result<CmdOutputV, Seq<char>>,
) -> Result<Seq<PortInfoV>, Seq<char>> {
    match spec_build_pid_map(tasklist) {
        Err(m) => Err(m),
        Ok(pm) => match tcp {
            Err(m) => Err(m),
            Ok(t) => if !t.success {
                Err("netstat command failed"@)
            } else {
                match udp {
                    Err(m) => Err(m),
                    Ok(u) => if !u.success {
                        Err("netstat command failed"@)
                    } else {
                        Ok(
                            netstat_records(lines_of(t.stdout), "tcp"@, pm) + netstat_records(
                                lines_of(u.stdout),
                                "udp"@,
                                pm,
                            ),
                        )
                    },
                }
            },
        },
    }
}

/// Scans the captured Windows introspection output: the PID-to-name table
/// first, then the TCP and UDP `netstat` passes.
pub fn scan_ports(
    tasklist: &ScanResult<CmdOutput>,
    tcp: &ScanResult<CmdOutput>,
    udp: &ScanResult<CmdOutput>,
) -> (r: ScanResult<Vec<PortInfo>>)
    ensures
        match r {
            Ok(v) => spec_windows_scan(query_view(tasklist), query_view(tcp), query_view(udp))
                == Ok::<Seq<PortInfoV>, Seq<char>>(v.deep_view()),
            Err(e) => spec_windows_scan(query_view(tasklist), query_view(tcp), query_view(udp))
                == Err::<Seq<PortInfoV>, Seq<char>>(e@),
        },
{
    let pid_map = match build_pid_name_map(tasklist) {
        Ok(m) => m,
        Err(e) => {
            return Err(e);
        },
    };
    let out = match tcp {
        Ok(o) => o,
        Err(e) => {
            return Err(ScanError { message: e.message.clone() });
        },
    };
    if !out.success {
        return Err(ScanError::from("netstat command failed"));
    }
    let lines = split_lines(out.stdout.as_str());
    let mut ports = collect_netstat_records(&lines, false, &pid_map);
    match udp {
        Err(e) => Err(ScanError { message: e.message.clone() }),
        Ok(u) => {
            if !u.success {
                return Err(ScanError::from("netstat command failed"));
            }
            let udp_lines = split_lines(u.stdout.as_str());
            let mut udp_ports = collect_netstat_records(&udp_lines, true, &pid_map);
            let ghost base = ports.deep_view();
            let ghost extra = udp_ports.deep_view();
            ports.append(&mut udp_ports);
            proof {
                assert(ports.deep_view() =~= base + extra);
            }
            Ok(ports)
        },
    }
}

proof fn lemma_netstat_records_valid(lines: Seq<Seq<char>>, proto: Seq<char>, pm: Map<
    u32,
    Seq<char>,
>)
    requires
        proto == "tcp"@ || proto == "udp"@,
    ensures
        forall|i: int|
            0 <= i < netstat_records(lines, proto, pm).len() ==> valid_record(
                #[trigger] netstat_records(lines, proto, pm)[i],
            ),
    decreases lines.len(),
{
    if lines.len() > 0 {
        lemma_netstat_records_valid(lines.drop_first(), proto, pm);
        let rest = netstat_records(lines.drop_first(), proto, pm);
        match spec_parse_netstat_line(lines[0], proto, pm) {
            Some(r) => {
                let whole = seq![r] + rest;
                assert forall|i: int| 0 <= i < whole.len() implies valid_record(whole[i]) by {
                    if i == 0 {
                        assert(whole[0] == r);
                    } else {
                        assert(whole[i] == rest[i - 1]);
                    }
                }
            },
            None => {},
        }
    }
}

/// Every record a successful Windows scan emits satisfies the record
/// invariant.
pub proof fn lemma_windows_scan_records_valid(
    tasklist: Result<CmdOutputV, Seq<char>>,
    tcp: Result<CmdOutputV, Seq<char>>,
    udp: Result<CmdOutputV, Seq<char>>,
)
    ensures
        match spec_windows_scan(tasklist, tcp, udp) {
            Ok(v) => forall|i: int| 0 <= i < v.len() ==> valid_record(#[trigger] v[i]),
            Err(_) => true,
        },
{
    if let (Ok(tl), Ok(t), Ok(u)) = (tasklist, tcp, udp) {
        if tl.success && t.success && u.success {
            let pm = tasklist_map(lines_of(tl.stdout));
            let base = netstat_records(lines_of(t.stdout), "tcp"@, pm);
            let extra = netstat_records(lines_of(u.stdout), "udp"@, pm);
            lemma_netstat_records_valid(lines_of(t.stdout), "tcp"@, pm);
            lemma_netstat_records_valid(lines_of(u.stdout), "udp"@, pm);
            assert forall|i: int| 0 <= i < (base + extra).len() implies valid_record(
                (base + extra)[i],
            ) by {
                if i < base.len() {
                    assert((base + extra)[i] == base[i]);
                } else {
                    assert((base + extra)[i] == extra[i - base.len()]);
                }
            }
        }
    }
}

} // verus!
