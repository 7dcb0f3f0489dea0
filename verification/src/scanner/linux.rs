//! The Linux probe: parsing of `ss` output and of the kernel's socket
//! pseudo-tables, with inode-based process correlation.
//!
//! The primary strategy parses the output of `ss` (one pass per transport);
//! on any failure of that strategy the probe falls back to the socket
//! pseudo-tables, discarding the primary's error entirely.

use vstd::prelude::*;

use crate::scanner::{
    lemma_map_view_insert, map_view, parse_address_port_str, query_view, spec_parse_address_port,
    valid_record, CmdOutput, CmdOutputV, PortInfo, PortInfoV, ScanError, ScanResult,
};
use crate::text::{find_sub, find_substr, lemma_find_sub_props, lines_of, spec_parse_dec,
    split_lines, split_tokens, tokens_of};

verus! {

/// The piece of `s` before the first occurrence of `p`, or all of `s` when
/// `p` does not occur: what `split(p).next()` yields.
pub open spec fn cut_at_first(s: Seq<char>, p: Seq<char>) -> Seq<char> {
    match find_sub(s, p) {
        Some(k) => s.subrange(0, k),
        None => s,
    }
}

/// Cuts `s` at the first occurrence of `p`.
fn cut_at_first_str(s: &str, p: &str) -> (r: String)
    ensures
        r@ == cut_at_first(s@, p@),
{
    proof {
        lemma_find_sub_props(s@, p@);
    }
    match find_substr(s, p) {
        Some(k) => s.substring_char(0, k).to_owned(),
        None => s.to_owned(),
    }
}

/// The owner name in a `users:(("name",pid=N,fd=N))` annotation: the text
/// between the first `(("` and the quote that closes it (further owners are
/// ignored); `"unknown"` when the annotation shape is absent.
pub open spec fn spec_users_name(f: Seq<char>) -> Seq<char> {
    let pat = "((\""@;
    match find_sub(f, pat) {
        Some(i) => {
            let rest = f.subrange(i + pat.len(), f.len() as int);
            cut_at_first(cut_at_first(rest, pat), "\""@)
        },
        None => "unknown"@,
    }
}

/// The owner PID in a `users:(("name",pid=N,fd=N))` annotation: the decimal
/// run after the first `pid=`, cut before any further `pid=`, comma or
/// closing parenthesis; 0 when absent or not a 32-bit numeral.
pub open spec fn spec_users_pid(f: Seq<char>) -> u32 {
    let pat = "pid="@;
    match find_sub(f, pat) {
        Some(i) => {
            let rest = f.subrange(i + pat.len(), f.len() as int);
            let tok = cut_at_first(cut_at_first(cut_at_first(rest, pat), ","@), ")"@);
            match spec_parse_dec(tok, 0xFFFF_FFFF) {
                Some(v) => v as u32,
                None => 0,
            }
        },
        None => 0,
    }
}

/// Parses the `users:(...)` annotation of an `ss` line into the owning
/// process's PID and name, tolerating missing data: absence of either part
/// yields the 0 / `"unknown"` sentinels rather than a failure.
pub fn parse_users_field(field: &str) -> (r: (u32, String))
    ensures
        r.0 == spec_users_pid(field@),
        r.1@ == spec_users_name(field@),
{
    let n = field.unicode_len();
    proof {
        reveal_strlit("((\"");
        reveal_strlit("pid=");
        lemma_find_sub_props(field@, "((\""@);
        lemma_find_sub_props(field@, "pid="@);
    }
    let name: String = match find_substr(field, "((\"") {
        Some(i) => {
            let rest = field.substring_char(i + 3, n);
            proof {
                assert(rest@ =~= field@.subrange(i + 3, field@.len() as int));
            }
            let piece = cut_at_first_str(rest, "((\"");
            cut_at_first_str(piece.as_str(), "\"")
        },
        None => "unknown".to_owned(),
    };
    let pid: u32 = match find_substr(field, "pid=") {
        Some(i) => {
            let rest = field.substring_char(i + 4, n);
            proof {
                assert(rest@ =~= field@.subrange(i + 4, field@.len() as int));
            }
            let r1 = cut_at_first_str(rest, "pid=");
            let r2 = cut_at_first_str(r1.as_str(), ",");
            let tok = cut_at_first_str(r2.as_str(), ")");
            match crate::text::parse_dec_bounded(tok.as_str(), 0xFFFF_FFFF) {
                Some(v) => v as u32,
                None => 0,
            }
        },
        None => 0,
    };
    (pid, name)
}

/// Splits a bound-address token at the last colon — or just after the
/// closing bracket of an IPv6 address — into the address text and the port.
pub fn parse_address_port(addr_port: &str) -> (r: Option<(String, u16)>)
    ensures
        match r {
            Some(ap) => spec_parse_address_port(addr_port@) == Some((ap.0@, ap.1)),
            None => spec_parse_address_port(addr_port@) is None,
        },
{
    parse_address_port_str(addr_port)
}

/// What one `ss` line yields.  The line's whitespace tokens must number at
/// least five and the fourth must be a well-formed bound-address token;
/// the sixth token, when present, attributes the owning process.  Every
/// record carries the `tcp` protocol tag (the UDP pass overrides it) and the
/// `LISTEN` state.
pub open spec fn spec_parse_ss_line(s: Seq<char>) -> Option<PortInfoV> {
    let toks = tokens_of(s);
    if toks.len() < 5 {
        None
    } else {
        match spec_parse_address_port(toks[3]) {
            None => None,
            Some(ap) => {
                let owner = if toks.len() >= 6 {
                    (spec_users_pid(toks[5]), spec_users_name(toks[5]))
                } else {
                    (0u32, "unknown"@)
                };
                Some(
                    PortInfoV {
                        port: ap.1,
                        pid: owner.0,
                        process_name: owner.1,
                        protocol: "tcp"@,
                        local_address: ap.0,
                        state: "LISTEN"@,
                    },
                )
            },
        }
    }
}

/// Parses one line of `ss` output into a record, or nothing for a line that
/// does not describe a listening socket in the expected layout.
pub fn parse_ss_line(line: &str) -> (r: Option<PortInfo>)
    ensures
        match r {
            Some(p) => spec_parse_ss_line(line@) == Some(p@),
            None => spec_parse_ss_line(line@) is None,
        },
{
    let toks = split_tokens(line);
    if toks.len() < 5 {
        return None;
    }
    proof {
        assert(toks.deep_view()[3] == toks@[3]@);
        assert(toks.deep_view().len() == toks@.len());
    }
    match parse_address_port(toks[3].as_str()) {
        None => None,
        Some(ap) => {
            let (address, port) = ap;
            let (pid, process_name) = if toks.len() >= 6 {
                proof {
                    assert(toks.deep_view()[5] == toks@[5]@);
                }
                parse_users_field(toks[5].as_str())
            } else {
                (0u32, "unknown".to_owned())
            };
            Some(
                PortInfo {
                    port,
                    pid,
                    process_name,
                    protocol: "tcp".to_owned(),
                    local_address: address,
                    state: "LISTEN".to_owned(),
                },
            )
        },
    }
}

/// A record with its protocol tag replaced: the transport is decided by
/// which query pass produced the line, not by the line itself.
pub open spec fn set_protocol(r: PortInfoV, proto: Seq<char>) -> PortInfoV {
    PortInfoV {
        port: r.port,
        pid: r.pid,
        process_name: r.process_name,
        protocol: proto,
        local_address: r.local_address,
        state: r.state,
    }
}

/// The records of a sequence of `ss` lines, in order, tagged with the
/// protocol of the pass; lines that parse to nothing contribute nothing.
pub open spec fn ss_records(lines: Seq<Seq<char>>, proto: Seq<char>) -> Seq<PortInfoV>
    decreases lines.len(),
{
    if lines.len() == 0 {
        Seq::empty()
    } else {
        let rest = ss_records(lines.drop_first(), proto);
        match spec_parse_ss_line(lines[0]) {
            Some(r) => seq![set_protocol(r, proto)] + rest,
            None => rest,
        }
    }
}

/// Collects the records of every line of one `ss` pass.
fn collect_ss_records(lines: &Vec<String>, udp: bool) -> (v: Vec<PortInfo>)
    ensures
        v.deep_view() == ss_records(
            lines.deep_view(),
            if udp {
                "udp"@
            } else {
                "tcp"@
            },
        ),
{
    let ghost proto: Seq<char> = if udp {
        "udp"@
    } else {
        "tcp"@
    };
    let ghost all = lines.deep_view();
    let mut v: Vec<PortInfo> = Vec::new();
    let mut i: usize = 0;
    proof {
        assert(v.deep_view() =~= Seq::<PortInfoV>::empty());
        assert(all.skip(0) =~= all);
    }
    while i < lines.len()
        invariant
            all == lines.deep_view(),
            proto == if udp {
                "udp"@
            } else {
                "tcp"@
            },
            0 <= i <= lines@.len(),
            all.len() == lines@.len(),
            ss_records(all, proto) == v.deep_view() + ss_records(all.skip(i as int), proto),
        decreases lines@.len() - i,
    {
        let ghost prev = v.deep_view();
        proof {
            assert(all.skip(i as int)[0] == all[i as int]);
            assert(all.skip(i as int).drop_first() =~= all.skip(i + 1));
            assert(all[i as int] == lines@[i as int]@);
        }
        match parse_ss_line(lines[i].as_str()) {
            Some(p) => {
                let mut p = p;
                if udp {
                    p.protocol = "udp".to_owned();
                }
                let ghost rec = set_protocol(spec_parse_ss_line(all[i as int])->Some_0, proto);
                proof {
                    assert(p@ =~= rec);
                }
                v.push(p);
                proof {
                    assert(v.deep_view() =~= prev.push(rec));
                    assert(prev + (seq![rec] + ss_records(all.skip(i + 1), proto)) =~= prev.push(
                        rec,
                    ) + ss_records(all.skip(i + 1), proto));
                }
            },
            None => {},
        }
        i = i + 1;
    }
    proof {
        assert(all.skip(all.len() as int) =~= Seq::<Seq<char>>::empty());
        assert(v.deep_view() + Seq::<PortInfoV>::empty() =~= v.deep_view());
    }
    v
}

/// What the `ss` strategy yields from its two query passes.  A query that
/// could not be spawned, or a pass that ran but exited unsuccessfully, is a
/// hard failure for the whole strategy: no partial results survive it.
pub open spec fn spec_scan_with_ss(
    tcp: Result<CmdOutputV, Seq<char>>,
    udp: Result<CmdOutputV, Seq<char>>,
) -> Result<Seq<PortInfoV>, Seq<char>> {
    match tcp {
        Err(m) => Err(m),
        Ok(t) => if !t.success {
            Err("ss command failed"@)
        } else {
            let base = ss_records(lines_of(t.stdout), "tcp"@);
            match udp {
                Err(m) => Err(m),
                Ok(u) => if !u.success {
                    Err("ss command failed"@)
                } else {
                    Ok(base + ss_records(lines_of(u.stdout), "udp"@))
                },
            }
        },
    }
}

/// Runs the `ss` strategy over the captured output of its TCP and UDP
/// passes.  Per-line parse problems are soft and never escalate; a query
/// that could not run, or a pass that exited unsuccessfully, fails the
/// strategy — and then no partial results are returned.
pub fn scan_with_ss(tcp: &ScanResult<CmdOutput>, udp: &ScanResult<CmdOutput>) -> (r: ScanResult<
    Vec<PortInfo>,
>)
    ensures
        match r {
            Ok(v) => spec_scan_with_ss(query_view(tcp), query_view(udp)) == Ok::<
                Seq<PortInfoV>,
                Seq<char>,
            >(v.deep_view()),
            Err(e) => spec_scan_with_ss(query_view(tcp), query_view(udp)) == Err::<
                Seq<PortInfoV>,
                Seq<char>,
            >(e@),
        },
{
    let out = match tcp {
        Ok(o) => o,
        Err(e) => {
            return Err(ScanError { message: e.message.clone() });
        },
    };
    if !out.success {
        return Err(ScanError::from("ss command failed"));
    }
    let lines = split_lines(out.stdout.as_str());
    let mut ports = collect_ss_records(&lines, false);
    match udp {
        Err(e) => Err(ScanError { message: e.message.clone() }),
        Ok(u) => {
            if !u.success {
                return Err(ScanError::from("ss command failed"));
            }
            let udp_lines = split_lines(u.stdout.as_str());
            let mut udp_ports = collect_ss_records(&udp_lines, true);
            let ghost base = ports.deep_view();
            let ghost extra = udp_ports.deep_view();
            ports.append(&mut udp_ports);
            proof {
                assert(ports.deep_view() =~= base + extra);
            }
            Ok(ports)
        },
    }
}

// ---------------------------------------------------------------------------
// The pseudo-table fallback.
// ---------------------------------------------------------------------------

/// A snapshot of everything the pseudo-table strategy reads from the live
/// system: the outcome of reading each of the three socket tables (the
/// table's text, or the read failure's message), the numeric process
/// directory entries with the contents of each one's command-name file, and
/// every process's descriptor link targets in walk order.
pub struct ProcSnapshot {
    pub tcp: ScanResult<String>,
    pub tcp6: ScanResult<String>,
    pub udp: ScanResult<String>,
    pub proc_entries: Vec<(String, String)>,
    pub fd_links: Vec<(u32, String)>,
}

/// The mathematical model of a [`ProcSnapshot`].
#[verifier::ext_equal]
pub ghost struct ProcSnapshotV {
    pub tcp: Result<Seq<char>, Seq<char>>,
    pub tcp6: Result<Seq<char>, Seq<char>>,
    pub udp: Result<Seq<char>, Seq<char>>,
    pub entries: Seq<(Seq<char>, Seq<char>)>,
    pub links: Seq<(u32, Seq<char>)>,
}

pub open spec fn table_view(t: ScanResult<String>) -> Result<Seq<char>, Seq<char>> {
    match t {
        Ok(s) => Ok(s@),
        Err(e) => Err(e@),
    }
}

pub open spec fn entries_view(v: Seq<(String, String)>) -> Seq<(Seq<char>, Seq<char>)> {
    Seq::new(v.len(), |i: int| (v[i].0@, v[i].1@))
}

pub open spec fn links_view(v: Seq<(u32, String)>) -> Seq<(u32, Seq<char>)> {
    Seq::new(v.len(), |i: int| (v[i].0, v[i].1@))
}

impl View for ProcSnapshot {
    type V = ProcSnapshotV;

    open spec fn view(&self) -> ProcSnapshotV {
        ProcSnapshotV {
            tcp: table_view(self.tcp),
            tcp6: table_view(self.tcp6),
            udp: table_view(self.udp),
            entries: entries_view(self.proc_entries@),
            links: links_view(self.fd_links@),
        }
    }
}

/// The PID-to-name table built from the process directory entries: every
/// entry whose directory name is a numeric PID contributes its command name,
/// with surrounding blanks trimmed; a later entry for the same PID wins.
pub open spec fn pid_map_of(entries: Seq<(Seq<char>, Seq<char>)>) -> Map<u32, Seq<char>>
    decreases entries.len(),
{
    if entries.len() == 0 {
        Map::empty()
    } else {
        let m = pid_map_of(entries.drop_last());
        let e = entries.last();
        match spec_parse_dec(e.0, 0xFFFF_FFFF) {
            Some(pid) => m.insert(pid as u32, crate::text::trim_cl(e.1, None)),
            None => m,
        }
    }
}

/// Builds the PID-to-name table from the captured process directory
/// entries.
pub fn build_pid_name_map(entries: &Vec<(String, String)>) -> (r: vstd::hash_map::HashMapWithView<
    u32,
    String,
>)
    ensures
        map_view(r@) == pid_map_of(entries_view(entries@)),
{
    proof {
        broadcast use vstd::std_specs::hash::axiom_u32_obeys_hash_table_key_model;

    }
    let ghost ev = entries_view(entries@);
    let mut m = vstd::hash_map::HashMapWithView::<u32, String>::new();
    let mut i: usize = 0;
    proof {
        assert(ev.take(0) =~= Seq::<(Seq<char>, Seq<char>)>::empty());
        assert(map_view(m@) =~= Map::<u32, Seq<char>>::empty());
    }
    while i < entries.len()
        invariant
            ev == entries_view(entries@),
            ev.len() == entries@.len(),
            0 <= i <= entries@.len(),
            map_view(m@) == pid_map_of(ev.take(i as int)),
        decreases entries@.len() - i,
    {
        let entry = &entries[i];
        proof {
            assert(ev[i as int] == (entries@[i as int].0@, entries@[i as int].1@));
            assert(ev.take(i + 1).drop_last() =~= ev.take(i as int));
            assert(ev.take(i + 1).last() == ev[i as int]);
        }
        match crate::text::parse_dec_bounded(entry.0.as_str(), 0xFFFF_FFFF) {
            Some(pid) => {
                let name = crate::text::trim_class(entry.1.as_str(), None);
                proof {
                    lemma_map_view_insert(m@, (pid as u32), name);
                }
                m.insert(pid as u32, name);
            },
            None => {},
        }
        i = i + 1;
    }
    proof {
        assert(ev.take(entries@.len() as int) =~= ev);
    }
    m
}

/// The reference a process's descriptor link carries for a socket with the
/// given inode: `socket:[` then the inode's decimal numeral then `]`.
pub open spec fn socket_pattern(inode: u64) -> Seq<char> {
    "socket:["@ + crate::text::dec_digits(inode as nat) + "]"@
}

/// The first process in the walk whose descriptor links carry the pattern.
pub open spec fn spec_find_pid(pattern: Seq<char>, links: Seq<(u32, Seq<char>)>) -> Option<u32>
    decreases links.len(),
{
    if links.len() == 0 {
        None
    } else if links[0].1 == pattern {
        Some(links[0].0)
    } else {
        spec_find_pid(pattern, links.drop_first())
    }
}

/// The owner a socket inode resolves to: the first process whose descriptor
/// links reference that inode, named through the PID-to-name table;
/// exhausting the walk without a match — or a PID the table lacks — falls
/// back to the 0 / `"unknown"` sentinels.
pub open spec fn spec_resolve(
    inode: u64,
    pm: Map<u32, Seq<char>>,
    links: Seq<(u32, Seq<char>)>,
) -> (u32, Seq<char>) {
    match spec_find_pid(socket_pattern(inode), links) {
        Some(pid) => (
            pid,
            if pm.contains_key(pid) {
                pm[pid]
            } else {
                "unknown"@
            },
        ),
        None => (0, "unknown"@),
    }
}

/// Resolves a socket inode to its owning process by walking the captured
/// descriptor links.
pub fn find_pid_by_inode(
    inode: u64,
    pid_map: &vstd::hash_map::HashMapWithView<u32, String>,
    fd_links: &Vec<(u32, String)>,
) -> (r: (u32, String))
    ensures
        (r.0, r.1@) == spec_resolve(inode, map_view(pid_map@), links_view(fd_links@)),
{
    let ghost lv = links_view(fd_links@);
    let ghost pat = socket_pattern(inode);
    let mut pattern = "socket:[".to_owned();
    pattern.append(crate::text::u64_to_dec(inode).as_str());
    pattern.append("]");
    proof {
        assert(pattern@ == pat);
        assert(lv.skip(0) =~= lv);
    }
    let mut i: usize = 0;
    while i < fd_links.len()
        invariant
            lv == links_view(fd_links@),
            pat == socket_pattern(inode),
            pattern@ == pat,
            lv.len() == fd_links@.len(),
            0 <= i <= fd_links@.len(),
            spec_find_pid(pat, lv) == spec_find_pid(pat, lv.skip(i as int)),
        decreases fd_links@.len() - i,
    {
        let entry = &fd_links[i];
        proof {
            assert(lv.skip(i as int)[0] == lv[i as int]);
            assert(lv[i as int] == (fd_links@[i as int].0, fd_links@[i as int].1@));
            assert(lv.skip(i as int).drop_first() =~= lv.skip(i + 1));
        }
        if crate::text::str_eq(entry.1.as_str(), pattern.as_str()) {
            let pid = entry.0;
            let name = match pid_map.get(&pid) {
                Some(n) => n.clone(),
                None => "unknown".to_owned(),
            };
            proof {
                if map_view(pid_map@).contains_key(pid) {
                    assert(map_view(pid_map@)[pid] == pid_map@[pid]@);
                }
            }
            return (pid, name);
        }
        i = i + 1;
    }
    proof {
        assert(lv.skip(lv.len() as int) =~= Seq::<(u32, Seq<char>)>::empty());
    }
    (0, "unknown".to_owned())
}

/// What one pseudo-table line yields.  The line must have at least four
/// colon-separated-free whitespace tokens, a state column holding the
/// listening code `0A`, a local-address column of exactly two colon-joined
/// parts whose second is a hexadecimal port, and a tenth column holding the
/// socket's inode; the owner is resolved through the descriptor-link walk.
/// The wildcard address stands in for the unparsed hexadecimal address.
pub open spec fn spec_parse_proc_net_line(
    s: Seq<char>,
    proto: Seq<char>,
    pm: Map<u32, Seq<char>>,
    links: Seq<(u32, Seq<char>)>,
) -> Option<PortInfoV> {
    let toks = tokens_of(s);
    if toks.len() < 4 {
        None
    } else if toks[3] != "0A"@ {
        None
    } else {
        let parts = crate::text::split_char(toks[1], ':');
        if parts.len() != 2 {
            None
        } else {
            match crate::text::spec_parse_hex_u16(parts[1]) {
                None => None,
                Some(port) => {
                    if toks.len() < 10 {
                        None
                    } else {
                        match spec_parse_dec(toks[9], 0xFFFF_FFFF_FFFF_FFFF) {
                            None => None,
                            Some(inode) => {
                                let owner = spec_resolve(inode, pm, links);
                                Some(
                                    PortInfoV {
                                        port,
                                        pid: owner.0,
                                        process_name: owner.1,
                                        protocol: proto,
                                        local_address: "0.0.0.0"@,
                                        state: "LISTEN"@,
                                    },
                                )
                            },
                        }
                    }
                },
            }
        }
    }
}

/// Parses one line of a kernel socket pseudo-table into a record, or
/// nothing for a header, a socket not in the listening state, or a
/// malformed line.
pub fn parse_proc_net_line(
    line: &str,
    protocol: &str,
    pid_map: &vstd::hash_map::HashMapWithView<u32, String>,
    fd_links: &Vec<(u32, String)>,
) -> (r: Option<PortInfo>)
    ensures
        match r {
            Some(p) => spec_parse_proc_net_line(
                line@,
                protocol@,
                map_view(pid_map@),
                links_view(fd_links@),
            ) == Some(p@),
            None => spec_parse_proc_net_line(
                line@,
                protocol@,
                map_view(pid_map@),
                links_view(fd_links@),
            ) is None,
        },
{
    let toks = split_tokens(line);
    if toks.len() < 4 {
        return None;
    }
    proof {
        assert(toks.deep_view()[3] == toks@[3]@);
        assert(toks.deep_view()[1] == toks@[1]@);
        assert(toks.deep_view().len() == toks@.len());
    }
    if !crate::text::str_eq(toks[3].as_str(), "0A") {
        return None;
    }
    let parts = crate::text::split_on_char(toks[1].as_str(), ':');
    if parts.len() != 2 {
        return None;
    }
    proof {
        assert(parts.deep_view()[1] == parts@[1]@);
        assert(parts.deep_view().len() == parts@.len());
    }
    match crate::text::parse_hex_u16(parts[1].as_str()) {
        None => None,
        Some(port) => {
            if toks.len() < 10 {
                return None;
            }
            proof {
                assert(toks.deep_view()[9] == toks@[9]@);
            }
            match crate::text::parse_dec_bounded(toks[9].as_str(), 0xFFFF_FFFF_FFFF_FFFF) {
                None => None,
                Some(inode) => {
                    let (pid, process_name) = find_pid_by_inode(inode, pid_map, fd_links);
                    Some(
                        PortInfo {
                            port,
                            pid,
                            process_name,
                            protocol: protocol.to_owned(),
                            local_address: "0.0.0.0".to_owned(),
                            state: "LISTEN".to_owned(),
                        },
                    )
                },
            }
        },
    }
}

/// The records of a sequence of pseudo-table lines, in order.
pub open spec fn proc_lines_records(
    lines: Seq<Seq<char>>,
    proto: Seq<char>,
    pm: Map<u32, Seq<char>>,
    links: Seq<(u32, Seq<char>)>,
) -> Seq<PortInfoV>
    decreases lines.len(),
{
    if lines.len() == 0 {
        Seq::empty()
    } else {
        let rest = proc_lines_records(lines.drop_first(), proto, pm, links);
        match spec_parse_proc_net_line(lines[0], proto, pm, links) {
            Some(r) => seq![r] + rest,
            None => rest,
        }
    }
}

/// The records of one whole pseudo-table: its lines after the header row.
pub open spec fn proc_table_records(
    text: Seq<char>,
    proto: Seq<char>,
    pm: Map<u32, Seq<char>>,
    links: Seq<(u32, Seq<char>)>,
) -> Seq<PortInfoV> {
    let ls = lines_of(text);
    if ls.len() == 0 {
        Seq::empty()
    } else {
        proc_lines_records(ls.skip(1), proto, pm, links)
    }
}

/// Collects the records of one captured pseudo-table.
fn collect_proc_records(
    text: &str,
    udp: bool,
    pid_map: &vstd::hash_map::HashMapWithView<u32, String>,
    fd_links: &Vec<(u32, String)>,
) -> (v: Vec<PortInfo>)
    ensures
        v.deep_view() == proc_table_records(
            text@,
            if udp {
                "udp"@
            } else {
                "tcp"@
            },
            map_view(pid_map@),
            links_view(fd_links@),
        ),
{
    let ghost proto: Seq<char> = if udp {
        "udp"@
    } else {
        "tcp"@
    };
    let mut v: Vec<PortInfo> = Vec::new();
    proof {
        assert(v.deep_view() =~= Seq::<PortInfoV>::empty());
    }
    let lines = split_lines(text);
    if lines.len() == 0 {
        return v;
    }
    let ghost all = lines.deep_view();
    let ghost pm = map_view(pid_map@);
    let ghost links = links_view(fd_links@);
    let mut i: usize = 1;
    proof {
        assert(proc_lines_records(all.skip(1), proto, pm, links) == v.deep_view()
            + proc_lines_records(all.skip(1), proto, pm, links));
    }
    while i < lines.len()
        invariant
            all == lines.deep_view(),
            pm == map_view(pid_map@),
            links == links_view(fd_links@),
            proto == if udp {
                "udp"@
            } else {
                "tcp"@
            },
            1 <= i <= lines@.len(),
            all.len() == lines@.len(),
            proc_lines_records(all.skip(1), proto, pm, links) == v.deep_view()
                + proc_lines_records(all.skip(i as int), proto, pm, links),
        decreases lines@.len() - i,
    {
        let ghost prev = v.deep_view();
        proof {
            assert(all.skip(i as int)[0] == all[i as int]);
            assert(all.skip(i as int).drop_first() =~= all.skip(i + 1));
            assert(all[i as int] == lines@[i as int]@);
        }
        let udp_name = if udp {
            "udp"
        } else {
            "tcp"
        };
        match parse_proc_net_line(lines[i].as_str(), udp_name, pid_map, fd_links) {
            Some(p) => {
                let ghost rec = spec_parse_proc_net_line(all[i as int], proto, pm, links)->Some_0;
                proof {
                    assert(p@ =~= rec);
                }
                v.push(p);
                proof {
                    assert(v.deep_view() =~= prev.push(rec));
                    assert(prev + (seq![rec] + proc_lines_records(all.skip(i + 1), proto, pm, links))
                        =~= prev.push(rec) + proc_lines_records(all.skip(i + 1), proto, pm, links));
                }
            },
            None => {},
        }
        i = i + 1;
    }
    proof {
        assert(all.skip(all.len() as int) =~= Seq::<Seq<char>>::empty());
        assert(v.deep_view() + Seq::<PortInfoV>::empty() =~= v.deep_view());
    }
    v
}

/// What the pseudo-table strategy yields: the listening records of the two
/// TCP tables and the UDP table, in that order, with owners resolved through
/// the PID-to-name table and the descriptor-link walk.  A table that could
/// not be read is a hard failure for the whole strategy — its read error
/// surfaces, and no partial results survive it.
pub open spec fn spec_scan_with_proc(snap: ProcSnapshotV) -> Result<Seq<PortInfoV>, Seq<char>> {
    let pm = pid_map_of(snap.entries);
    match snap.tcp {
        Err(m) => Err(m),
        Ok(tcp_text) => match snap.tcp6 {
            Err(m) => Err(m),
            Ok(tcp6_text) => match snap.udp {
                Err(m) => Err(m),
                Ok(udp_text) => Ok(
                    proc_table_records(tcp_text, "tcp"@, pm, snap.links) + proc_table_records(
                        tcp6_text,
                        "tcp"@,
                        pm,
                        snap.links,
                    ) + proc_table_records(udp_text, "udp"@, pm, snap.links),
                ),
            },
        },
    }
}

/// Runs the pseudo-table strategy over a captured snapshot.  Per-line parse
/// problems are soft; a table that could not be read fails the strategy.
pub fn scan_with_proc(snap: &ProcSnapshot) -> (r: ScanResult<Vec<PortInfo>>)
    ensures
        match r {
            Ok(v) => spec_scan_with_proc(snap@) == Ok::<Seq<PortInfoV>, Seq<char>>(v.deep_view()),
            Err(e) => spec_scan_with_proc(snap@) == Err::<Seq<PortInfoV>, Seq<char>>(e@),
        },
{
    let pid_map = build_pid_name_map(&snap.proc_entries);
    let tcp_text = match &snap.tcp {
        Ok(t) => t,
        Err(e) => {
            return Err(ScanError { message: e.message.clone() });
        },
    };
    let tcp6_text = match &snap.tcp6 {
        Ok(t) => t,
        Err(e) => {
            return Err(ScanError { message: e.message.clone() });
        },
    };
    let udp_text = match &snap.udp {
        Ok(t) => t,
        Err(e) => {
            return Err(ScanError { message: e.message.clone() });
        },
    };
    let mut ports = collect_proc_records(tcp_text.as_str(), false, &pid_map, &snap.fd_links);
    let mut tcp6_ports = collect_proc_records(tcp6_text.as_str(), false, &pid_map, &snap.fd_links);
    let mut udp_ports = collect_proc_records(udp_text.as_str(), true, &pid_map, &snap.fd_links);
    let ghost a = ports.deep_view();
    let ghost b = tcp6_ports.deep_view();
    let ghost c = udp_ports.deep_view();
    ports.append(&mut tcp6_ports);
    ports.append(&mut udp_ports);
    proof {
        assert(ports.deep_view() =~= a + b + c);
    }
    Ok(ports)
}

/// The whole Linux scan: the `ss` strategy's outcome where it succeeded, and
/// the pseudo-table strategy's outcome — the primary's error discarded
/// entirely, not merged and not surfaced — where it did not.
pub open spec fn spec_linux_scan(
    tcp: Result<CmdOutputV, Seq<char>>,
    udp: Result<CmdOutputV, Seq<char>>,
    snap: ProcSnapshotV,
) -> Result<Seq<PortInfoV>, Seq<char>> {
    match spec_scan_with_ss(tcp, udp) {
        Ok(m) => Ok(m),
        Err(_) => spec_scan_with_proc(snap),
    }
}

/// Scans the captured Linux introspection output: the `ss` passes first, the
/// pseudo-table snapshot as the fallback, whose outcome is returned as-is.
pub fn scan_ports(
    ss_tcp: &ScanResult<CmdOutput>,
    ss_udp: &ScanResult<CmdOutput>,
    snap: &ProcSnapshot,
) -> (r: ScanResult<Vec<PortInfo>>)
    ensures
        match r {
            Ok(v) => spec_linux_scan(query_view(ss_tcp), query_view(ss_udp), snap@) == Ok::<
                Seq<PortInfoV>,
                Seq<char>,
            >(v.deep_view()),
            Err(e) => spec_linux_scan(query_view(ss_tcp), query_view(ss_udp), snap@) == Err::<
                Seq<PortInfoV>,
                Seq<char>,
            >(e@),
        },
{
    match scan_with_ss(ss_tcp, ss_udp) {
        Ok(ports) => Ok(ports),
        Err(_) => scan_with_proc(snap),
    }
}

/// A line with fewer whitespace tokens than the layout minimum — the empty
/// line among them — yields no record.
pub proof fn lemma_short_ss_line_yields_nothing(s: Seq<char>)
    requires
        tokens_of(s).len() < 5,
    ensures
        spec_parse_ss_line(s) is None,
{
}

/// Per-line parse problems never fail the scan: whenever both `ss` passes
/// ran and exited successfully, the strategy succeeds, whatever the captured
/// text holds.
pub proof fn lemma_line_problems_never_fail_scan(t: CmdOutputV, u: CmdOutputV)
    requires
        t.success,
        u.success,
    ensures
        spec_scan_with_ss(Ok(t), Ok(u)) is Ok,
{
}

/// A line whose bound-address token is valid but which lacks the
/// users-annotation still yields a record — with the 0 / `"unknown"` owner
/// sentinels — rather than being dropped.
pub proof fn lemma_missing_users_annotation(s: Seq<char>)
    requires
        tokens_of(s).len() == 5,
        spec_parse_address_port(tokens_of(s)[3]) is Some,
    ensures
        spec_parse_ss_line(s) matches Some(r) && r.pid == 0 && r.process_name == "unknown"@,
{
}

/// A pseudo-table line whose state column holds anything but the listening
/// code `0A` yields no record.
pub proof fn lemma_proc_state_gate(
    s: Seq<char>,
    proto: Seq<char>,
    pm: Map<u32, Seq<char>>,
    links: Seq<(u32, Seq<char>)>,
)
    requires
        tokens_of(s).len() >= 4,
        tokens_of(s)[3] != "0A"@,
    ensures
        spec_parse_proc_net_line(s, proto, pm, links) is None,
{
}

/// A well-formed pseudo-table row — one with an address column of two
/// colon-joined parts, a valid hexadecimal port, and an inode column — whose
/// state column holds `0A` yields a record in the `LISTEN` state carrying
/// that port.
pub proof fn lemma_proc_listen_line(
    s: Seq<char>,
    proto: Seq<char>,
    pm: Map<u32, Seq<char>>,
    links: Seq<(u32, Seq<char>)>,
)
    requires
        tokens_of(s).len() >= 10,
        tokens_of(s)[3] == "0A"@,
        crate::text::split_char(tokens_of(s)[1], ':').len() == 2,
        crate::text::spec_parse_hex_u16(crate::text::split_char(tokens_of(s)[1], ':')[1]) is Some,
        spec_parse_dec(tokens_of(s)[9], 0xFFFF_FFFF_FFFF_FFFF) is Some,
    ensures
        spec_parse_proc_net_line(s, proto, pm, links) matches Some(r) && r.state == "LISTEN"@
            && r.port == crate::text::spec_parse_hex_u16(
            crate::text::split_char(tokens_of(s)[1], ':')[1],
        )->Some_0,
{
}

proof fn lemma_ss_records_valid(lines: Seq<Seq<char>>, proto: Seq<char>)
    requires
        proto == "tcp"@ || proto == "udp"@,
    ensures
        forall|i: int|
            0 <= i < ss_records(lines, proto).len() ==> valid_record(
                #[trigger] ss_records(lines, proto)[i],
            ),
    decreases lines.len(),
{
    if lines.len() > 0 {
        lemma_ss_records_valid(lines.drop_first(), proto);
        let rest = ss_records(lines.drop_first(), proto);
        match spec_parse_ss_line(lines[0]) {
            Some(r) => {
                let whole = seq![set_protocol(r, proto)] + rest;
                assert forall|i: int| 0 <= i < whole.len() implies valid_record(whole[i]) by {
                    if i == 0 {
                        assert(whole[0] == set_protocol(r, proto));
                    } else {
                        assert(whole[i] == rest[i - 1]);
                    }
                }
            },
            None => {},
        }
    }
}

proof fn lemma_proc_lines_records_valid(
    lines: Seq<Seq<char>>,
    proto: Seq<char>,
    pm: Map<u32, Seq<char>>,
    links: Seq<(u32, Seq<char>)>,
)
    requires
        proto == "tcp"@ || proto == "udp"@,
    ensures
        forall|i: int|
            0 <= i < proc_lines_records(lines, proto, pm, links).len() ==> valid_record(
                #[trigger] proc_lines_records(lines, proto, pm, links)[i],
            ),
    decreases lines.len(),
{
    if lines.len() > 0 {
        lemma_proc_lines_records_valid(lines.drop_first(), proto, pm, links);
        let rest = proc_lines_records(lines.drop_first(), proto, pm, links);
        match spec_parse_proc_net_line(lines[0], proto, pm, links) {
            Some(r) => {
                let whole = seq![r] + rest;
                assert forall|i: int| 0 <= i < whole.len() implies valid_record(whole[i]) by {
                    if i == 0 {
                        assert(whole[0] == r);
                    } else {
                        assert(whole[i] == rest[i - 1]);
                    }
                }
            },
            None => {},
        }
    }
}

proof fn lemma_proc_table_records_valid(
    text: Seq<char>,
    proto: Seq<char>,
    pm: Map<u32, Seq<char>>,
    links: Seq<(u32, Seq<char>)>,
)
    requires
        proto == "tcp"@ || proto == "udp"@,
    ensures
        forall|i: int|
            0 <= i < proc_table_records(text, proto, pm, links).len() ==> valid_record(
                #[trigger] proc_table_records(text, proto, pm, links)[i],
            ),
{
    let ls = lines_of(text);
    if ls.len() > 0 {
        lemma_proc_lines_records_valid(ls.skip(1), proto, pm, links);
    }
}

/// Every record a successful Linux scan emits satisfies the record
/// invariant: its protocol is one of the two transports and its state is
/// `LISTEN`, whichever strategy produced it.
pub proof fn lemma_linux_scan_records_valid(
    tcp: Result<CmdOutputV, Seq<char>>,
    udp: Result<CmdOutputV, Seq<char>>,
    snap: ProcSnapshotV,
)
    ensures
        match spec_linux_scan(tcp, udp, snap) {
            Ok(v) => forall|i: int| 0 <= i < v.len() ==> valid_record(#[trigger] v[i]),
            Err(_) => true,
        },
{
    match spec_scan_with_ss(tcp, udp) {
        Ok(m) => {
            if let Ok(t) = tcp {
                lemma_ss_records_valid(lines_of(t.stdout), "tcp"@);
                if let Ok(u) = udp {
                    lemma_ss_records_valid(lines_of(u.stdout), "udp"@);
                }
            }
        },
        Err(_) => {
            let pm = pid_map_of(snap.entries);
            if let Ok(tcp_text) = snap.tcp {
                lemma_proc_table_records_valid(tcp_text, "tcp"@, pm, snap.links);
            }
            if let Ok(tcp6_text) = snap.tcp6 {
                lemma_proc_table_records_valid(tcp6_text, "tcp"@, pm, snap.links);
            }
            if let Ok(udp_text) = snap.udp {
                lemma_proc_table_records_valid(udp_text, "udp"@, pm, snap.links);
            }
        },
    }
}

} // verus!
