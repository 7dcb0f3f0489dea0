//! The macOS probe: parsing of `lsof` output, with per-port deduplication.
//!
//! One `lsof` pass per transport; the merged records are then ordered by
//! port and deduplicated by port number alone, keeping the first occurrence.

use vstd::prelude::*;

use crate::scanner::{
    query_view, spec_split_addr_port, valid_record, CmdOutput, CmdOutputV, PortInfo, PortInfoV,
    ScanError, ScanResult,
};
use crate::text::{
    last_char_idx, last_pair_idx, lines_of, parse_dec_bounded, rfind_char, rfind_pair,
    spec_parse_dec, split_lines, split_tokens, strip_suffix_rep, strip_suffix_repeated, tokens_of,
    trim_cl, trim_class,
};

verus! {

/// The port of an `lsof` NAME field: the decimal 16-bit numeral after the
/// last colon, or after the closing bracket of an IPv6 address.
pub open spec fn spec_extract_port(s: Seq<char>) -> Option<u16> {
    match spec_split_addr_port(s) {
        Some(ap) => match spec_parse_dec(ap.1, 0xFFFF) {
            Some(v) => Some(v as u16),
            None => None,
        },
        None => None,
    }
}

/// The address of an `lsof` NAME field: the text before the split point,
/// with the `*` wildcard — and a field with no colon at all — normalized to
/// the any-address form.
pub open spec fn spec_extract_address(s: Seq<char>) -> Seq<char> {
    match last_pair_idx(s, ']', ':') {
        Some(i) => s.subrange(0, i + 1),
        None => match last_char_idx(s, ':') {
            Some(i) => if s.subrange(0, i) == "*"@ {
                "0.0.0.0"@
            } else {
                s.subrange(0, i)
            },
            None => "0.0.0.0"@,
        },
    }
}

/// Extracts the port from an `lsof` NAME field.
pub fn extract_port_from_name(name: &str) -> (r: Option<u16>)
    ensures
        r == spec_extract_port(name@),
{
    let n = name.unicode_len();
    match rfind_pair(name, ']', ':') {
        Some(i) => {
            let ptok = name.substring_char(i + 2, n);
            proof {
                assert(ptok@ =~= name@.subrange(i + 2, name@.len() as int));
            }
            match parse_dec_bounded(ptok, 0xFFFF) {
                Some(v) => Some(v as u16),
                None => None,
            }
        },
        None => match rfind_char(name, ':') {
            Some(i) => {
                let ptok = name.substring_char(i + 1, n);
                proof {
                    assert(ptok@ =~= name@.subrange(i + 1, name@.len() as int));
                }
                match parse_dec_bounded(ptok, 0xFFFF) {
                    Some(v) => Some(v as u16),
                    None => None,
                }
            },
            None => None,
        },
    }
}

/// Extracts the address from an `lsof` NAME field.
pub fn extract_address_from_name(name: &str) -> (r: String)
    ensures
        r@ == spec_extract_address(name@),
{
    let n = name.unicode_len();
    proof {
        assert(n == name@.len());
    }
    match rfind_pair(name, ']', ':') {
        Some(i) => name.substring_char(0, i + 1).to_owned(),
        None => match rfind_char(name, ':') {
            Some(i) => {
                let addr = name.substring_char(0, i);
                if crate::text::str_eq(addr, "*") {
                    "0.0.0.0".to_owned()
                } else {
                    addr.to_owned()
                }
            },
            None => "0.0.0.0".to_owned(),
        },
    }
}

/// What one `lsof` line yields.  The line must have at least nine
/// whitespace tokens: the first is the command name, the second the owner's
/// PID (both mandatory), and the last is the NAME field, stripped of any
/// trailing `(LISTEN)` markers and surrounding blanks before the port and
/// address are read from it.
pub open spec fn spec_parse_lsof_line(s: Seq<char>, proto: Seq<char>) -> Option<PortInfoV> {
    let toks = tokens_of(s);
    if toks.len() < 9 {
        None
    } else {
        match spec_parse_dec(toks[1], 0xFFFF_FFFF) {
            None => None,
            Some(pid) => {
                let clean = trim_cl(strip_suffix_rep(toks.last(), "(LISTEN)"@), None);
                match spec_extract_port(clean) {
                    None => None,
                    Some(port) => Some(
                        PortInfoV {
                            port,
                            pid: pid as u32,
                            process_name: toks[0],
                            protocol: proto,
                            local_address: spec_extract_address(clean),
                            state: "LISTEN"@,
                        },
                    ),
                }
            },
        }
    }
}

/// Parses one line of `lsof` output into a record, or nothing for a line
/// that does not carry a port in the expected layout.
pub fn parse_lsof_line(line: &str, protocol: &str) -> (r: Option<PortInfo>)
    ensures
        match r {
            Some(p) => spec_parse_lsof_line(line@, protocol@) == Some(p@),
            None => spec_parse_lsof_line(line@, protocol@) is None,
        },
{
    let toks = split_tokens(line);
    if toks.len() < 9 {
        return None;
    }
    proof {
        assert(toks.deep_view().len() == toks@.len());
        assert(toks.deep_view()[0] == toks@[0]@);
        assert(toks.deep_view()[1] == toks@[1]@);
        assert(toks.deep_view()[toks@.len() - 1] == toks@[toks@.len() - 1]@);
        assert(toks.deep_view().last() == toks.deep_view()[toks@.len() - 1]);
    }
    let pid = match parse_dec_bounded(toks[1].as_str(), 0xFFFF_FFFF) {
        None => {
            return None;
        },
        Some(v) => v as u32,
    };
    let last_tok = toks[toks.len() - 1].as_str();
    let stripped = strip_suffix_repeated(last_tok, "(LISTEN)");
    let clean = trim_class(stripped.as_str(), None);
    match extract_port_from_name(clean.as_str()) {
        None => None,
        Some(port) => {
            let local_address = extract_address_from_name(clean.as_str());
            Some(
                PortInfo {
                    port,
                    pid,
                    process_name: toks[0].clone(),
                    protocol: protocol.to_owned(),
                    local_address,
                    state: "LISTEN".to_owned(),
                },
            )
        },
    }
}

/// The records of a sequence of `lsof` lines, in order.
pub open spec fn lsof_records(lines: Seq<Seq<char>>, proto: Seq<char>) -> Seq<PortInfoV>
    decreases lines.len(),
{
    if lines.len() == 0 {
        Seq::empty()
    } else {
        let rest = lsof_records(lines.drop_first(), proto);
        match spec_parse_lsof_line(lines[0], proto) {
            Some(r) => seq![r] + rest,
            None => rest,
        }
    }
}

/// Collects the records of one `lsof` pass, skipping its header line.
fn collect_lsof_records(lines: &Vec<String>, udp: bool) -> (v: Vec<PortInfo>)
    ensures
        v.deep_view() == (if lines.deep_view().len() == 0 {
            Seq::<PortInfoV>::empty()
        } else {
            lsof_records(
                lines.deep_view().skip(1),
                if udp {
                    "udp"@
                } else {
                    "tcp"@
                },
            )
        }),
{
    let ghost proto: Seq<char> = if udp {
        "udp"@
    } else {
        "tcp"@
    };
    let ghost all = lines.deep_view();
    let mut v: Vec<PortInfo> = Vec::new();
    proof {
        assert(v.deep_view() =~= Seq::<PortInfoV>::empty());
    }
    if lines.len() == 0 {
        return v;
    }
    let mut i: usize = 1;
    while i < lines.len()
        invariant
            all == lines.deep_view(),
            proto == if udp {
                "udp"@
            } else {
                "tcp"@
            },
            1 <= i <= lines@.len(),
            all.len() == lines@.len(),
            lsof_records(all.skip(1), proto) == v.deep_view() + lsof_records(
                all.skip(i as int),
                proto,
            ),
        decreases lines@.len() - i,
    {
        let ghost prev = v.deep_view();
        proof {
            assert(all.skip(i as int)[0] == all[i as int]);
            assert(all.skip(i as int).drop_first() =~= all.skip(i + 1));
            assert(all[i as int] == lines@[i as int]@);
        }
        let proto_name = if udp {
            "udp"
        } else {
            "tcp"
        };
        match parse_lsof_line(lines[i].as_str(), proto_name) {
            Some(p) => {
                let ghost rec = spec_parse_lsof_line(all[i as int], proto)->Some_0;
                proof {
                    assert(p@ =~= rec);
                }
                v.push(p);
                proof {
                    assert(v.deep_view() =~= prev.push(rec));
                    assert(prev + (seq![rec] + lsof_records(all.skip(i + 1), proto)) =~= prev.push(
                        rec,
                    ) + lsof_records(all.skip(i + 1), proto));
                }
            },
            None => {},
        }
        i = i + 1;
    }
    proof {
        assert(all.skip(all.len() as int) =~= Seq::<Seq<char>>::empty());
        assert(v.deep_view() + Seq::<PortInfoV>::empty() =~= v.deep_view());
    }
    v
}

/// A record joining an already deduplicated, strictly port-ordered run:
/// inserted at its ordered place, or dropped when its port is present —
/// the earlier record of that port is the one kept.
pub open spec fn insert_by_port(acc: Seq<PortInfoV>, r: PortInfoV) -> Seq<PortInfoV>
    decreases acc.len(),
{
    if acc.len() == 0 {
        seq![r]
    } else if acc[0].port == r.port {
        acc
    } else if acc[0].port > r.port {
        seq![r] + acc
    } else {
        seq![acc[0]] + insert_by_port(acc.drop_first(), r)
    }
}

/// The records ordered by port and deduplicated by port number alone,
/// keeping the first occurrence: what a stable sort by port followed by
/// adjacent deduplication leaves, since a stable sort keeps the input order
/// among records of equal port.
pub open spec fn dedup_by_port(rs: Seq<PortInfoV>) -> Seq<PortInfoV>
    decreases rs.len(),
{
    if rs.len() == 0 {
        Seq::empty()
    } else {
        insert_by_port(dedup_by_port(rs.drop_last()), rs.last())
    }
}

/// Inserts one record into the ordered, deduplicated accumulator.
fn insert_record(out: &mut Vec<PortInfo>, r: PortInfo)
    ensures
        final(out).deep_view() == insert_by_port(old(out).deep_view(), r@),
{
    let ghost acc = old(out).deep_view();
    let mut idx: usize = 0;
    proof {
        assert(acc.skip(0) =~= acc);
    }
    while idx < out.len() && out[idx].port < r.port
        invariant
            out == old(out),
            acc == out.deep_view(),
            0 <= idx <= out@.len(),
            acc.len() == out@.len(),
            insert_by_port(acc, r@) == acc.take(idx as int) + insert_by_port(
                acc.skip(idx as int),
                r@,
            ),
        decreases out@.len() - idx,
    {
        proof {
            assert(acc.skip(idx as int)[0] == acc[idx as int]);
            assert(acc[idx as int] == out@[idx as int]@);
            assert(acc.skip(idx as int).drop_first() =~= acc.skip(idx + 1));
            assert(acc.take(idx + 1).drop_last() =~= acc.take(idx as int));
            assert(acc.take(idx as int) + (seq![acc[idx as int]] + insert_by_port(
                acc.skip(idx + 1),
                r@,
            )) =~= acc.take(idx + 1) + insert_by_port(acc.skip(idx + 1), r@));
        }
        idx = idx + 1;
    }
    if idx == out.len() {
        proof {
            assert(acc.skip(idx as int) =~= Seq::<PortInfoV>::empty());
        }
        out.push(r);
        proof {
            assert(acc.take(acc.len() as int) =~= acc);
            assert(out.deep_view() =~= acc + seq![r@]);
            assert(acc + insert_by_port(Seq::<PortInfoV>::empty(), r@) =~= acc + seq![r@]);
        }
    } else {
        proof {
            assert(acc.skip(idx as int)[0] == acc[idx as int]);
            assert(acc[idx as int] == out@[idx as int]@);
        }
        if out[idx].port == r.port {
            proof {
                assert(insert_by_port(acc.skip(idx as int), r@) == acc.skip(idx as int));
                assert(acc.take(idx as int) + acc.skip(idx as int) =~= acc);
            }
        } else {
            out.insert(idx, r);
            proof {
                assert(insert_by_port(acc.skip(idx as int), r@) == seq![r@] + acc.skip(idx as int));
                assert(out.deep_view() =~= acc.take(idx as int) + (seq![r@] + acc.skip(
                    idx as int,
                )));
            }
        }
    }
}

/// Orders the records by port and drops every later record of an
/// already-seen port.
fn dedup_records(rs: Vec<PortInfo>) -> (out: Vec<PortInfo>)
    ensures
        out.deep_view() == dedup_by_port(rs.deep_view()),
{
    let ghost all = rs.deep_view();
    let mut rs = rs;
    let mut out: Vec<PortInfo> = Vec::new();
    let ghost k: int = 0;
    proof {
        assert(all.take(0) =~= Seq::<PortInfoV>::empty());
        assert(out.deep_view() =~= Seq::<PortInfoV>::empty());
        assert(rs.deep_view() =~= all.skip(0));
    }
    while rs.len() > 0
        invariant
            0 <= k <= all.len(),
            rs.deep_view() == all.skip(k),
            rs@.len() == all.len() - k,
            out.deep_view() == dedup_by_port(all.take(k)),
        decreases rs@.len(),
    {
        let ghost prev = rs@;
        let ghost prev_dv = rs.deep_view();
        let r = rs.remove(0);
        proof {
            assert(r@ == all.skip(k)[0]);
            assert(all.skip(k)[0] == all[k]);
            assert(rs@ =~= prev.drop_first());
            assert(rs.deep_view() =~= prev_dv.drop_first());
            assert(all.skip(k).drop_first() =~= all.skip(k + 1));
            assert(rs.deep_view() =~= all.skip(k + 1));
            assert(all.take(k + 1).drop_last() =~= all.take(k));
            assert(all.take(k + 1).last() == all[k]);
        }
        insert_record(&mut out, r);
        proof {
            k = k + 1;
        }
    }
    proof {
        assert(all.skip(k) =~= rs.deep_view());
        assert(k == all.len());
        assert(all.take(all.len() as int) =~= all);
    }
    out
}

/// What the macOS scan yields from its two `lsof` passes.  A pass that
/// could not be spawned, or that ran but exited unsuccessfully, is a hard
/// failure for the whole scan — this platform has no fallback strategy, so
/// the failure propagates, and no partial results survive it.  On success
/// the merged records are deduplicated by port, keeping the first
/// occurrence.
pub open spec fn spec_macos_scan(
    tcp: Result<CmdOutputV, Seq<char>>,
    udp: Result<CmdOutputV, Seq<char>>,
) -> Result<Seq<PortInfoV>, Seq<char>> {
    match tcp {
        Err(m) => Err(m),
        Ok(t) => if !t.success {
            Err("lsof command failed"@)
        } else {
            match udp {
                Err(m) => Err(m),
                Ok(u) => if !u.success {
                    Err("lsof command failed"@)
                } else {
                    Ok(dedup_by_port(pass_records(t.stdout, "tcp"@) + pass_records(u.stdout, "udp"@)))
                },
            }
        },
    }
}

/// The records of one whole `lsof` pass: its lines after the header row.
pub open spec fn pass_records(text: Seq<char>, proto: Seq<char>) -> Seq<PortInfoV> {
    let ls = lines_of(text);
    if ls.len() == 0 {
        Seq::empty()
    } else {
        lsof_records(ls.skip(1), proto)
    }
}

/// Scans the captured macOS `lsof` output: the TCP listeners and the UDP
/// sockets, merged and deduplicated by port.
pub fn scan_ports(tcp: &ScanResult<CmdOutput>, udp: &ScanResult<CmdOutput>) -> (r: ScanResult<
    Vec<PortInfo>,
>)
    ensures
        match r {
            Ok(v) => spec_macos_scan(query_view(tcp), query_view(udp)) == Ok::<
                Seq<PortInfoV>,
                Seq<char>,
            >(v.deep_view()),
            Err(e) => spec_macos_scan(query_view(tcp), query_view(udp)) == Err::<
                Seq<PortInfoV>,
                Seq<char>,
            >(e@),
        },
{
    let out = match tcp {
        Ok(o) => o,
        Err(e) => {
            return Err(ScanError { message: e.message.clone() });
        },
    };
    if !out.success {
        return Err(ScanError::from("lsof command failed"));
    }
    let lines = split_lines(out.stdout.as_str());
    let mut ports = collect_lsof_records(&lines, false);
    match udp {
        Err(e) => Err(ScanError { message: e.message.clone() }),
        Ok(u) => {
            if !u.success {
                return Err(ScanError::from("lsof command failed"));
            }
            let udp_lines = split_lines(u.stdout.as_str());
            let mut udp_ports = collect_lsof_records(&udp_lines, true);
            let ghost base = ports.deep_view();
            let ghost extra = udp_ports.deep_view();
            ports.append(&mut udp_ports);
            proof {
                assert(ports.deep_view() =~= base + extra);
            }
            Ok(dedup_records(ports))
        },
    }
}

/// A strictly port-ordered run: later records have strictly larger ports,
/// so no port appears twice.
pub open spec fn strictly_port_ordered(s: Seq<PortInfoV>) -> bool {
    forall|i: int, j: int| 0 <= i < j < s.len() ==> (#[trigger] s[i]).port < (#[trigger] s[j]).port
}

/// The record at `k` is the first of its port in `rs`.
pub open spec fn is_first_with_port(rs: Seq<PortInfoV>, k: int) -> bool {
    0 <= k < rs.len() && forall|j: int| 0 <= j < k ==> (#[trigger] rs[j]).port != rs[k].port
}

proof fn lemma_insert_by_port_sorted(acc: Seq<PortInfoV>, r: PortInfoV)
    requires
        strictly_port_ordered(acc),
    ensures
        strictly_port_ordered(insert_by_port(acc, r)),
    decreases acc.len(),
{
    let out = insert_by_port(acc, r);
    if acc.len() == 0 {
    } else if acc[0].port == r.port {
    } else if acc[0].port > r.port {
        assert forall|i: int, j: int| 0 <= i < j < out.len() implies (#[trigger] out[i]).port < (
        #[trigger] out[j]).port by {
            if i > 0 {
                assert(out[i] == acc[i - 1] && out[j] == acc[j - 1]);
            } else {
                assert(out[j] == acc[j - 1]);
                if j > 1 {
                    assert(acc[0].port < acc[j - 1].port);
                }
            }
        }
    } else {
        let tail = acc.drop_first();
        assert(forall|i: int, j: int|
            0 <= i < j < tail.len() ==> (#[trigger] tail[i]).port < (#[trigger] tail[j]).port);
        lemma_insert_by_port_sorted(tail, r);
        lemma_insert_by_port_membership(tail, r);
        let rec = insert_by_port(tail, r);
        // Every element of the recursive result carries a port above the
        // head's: it is either the inserted record or one of the old tail.
        assert forall|i: int| 0 <= i < rec.len() implies acc[0].port < (#[trigger] rec[i]).port by {
            assert(rec[i] == r || exists|j: int| 0 <= j < tail.len() && (#[trigger] tail[j])
                == rec[i]);
            if rec[i] == r {
            } else {
                let j = choose|j: int| 0 <= j < tail.len() && (#[trigger] tail[j]) == rec[i];
                assert(acc[0].port < acc[j + 1].port);
            }
        }
        assert forall|i: int, j: int| 0 <= i < j < out.len() implies (#[trigger] out[i]).port < (
        #[trigger] out[j]).port by {
            if i > 0 {
                assert(out[i] == rec[i - 1] && out[j] == rec[j - 1]);
            } else {
                assert(out[j] == rec[j - 1]);
            }
        }
    }
}

#[verifier::rlimit(100)]
#[verifier::spinoff_prover]
proof fn lemma_insert_by_port_membership(acc: Seq<PortInfoV>, r: PortInfoV)
    ensures
        exists|i: int|
            0 <= i < insert_by_port(acc, r).len() && (#[trigger] insert_by_port(acc, r)[i]).port
                == r.port,
        forall|i: int|
            0 <= i < insert_by_port(acc, r).len() ==> (#[trigger] insert_by_port(acc, r)[i]) == r
                || exists|j: int| 0 <= j < acc.len() && (#[trigger] acc[j]) == insert_by_port(
                acc,
                r,
            )[i],
        forall|j: int|
            0 <= j < acc.len() ==> exists|i: int|
                0 <= i < insert_by_port(acc, r).len() && (#[trigger] insert_by_port(acc, r)[i]) == (
                #[trigger] acc[j]),
    decreases acc.len(),
{
    let out = insert_by_port(acc, r);
    if acc.len() == 0 {
        assert(out[0] == r);
    } else if acc[0].port == r.port {
        assert(out[0].port == r.port);
        assert forall|j: int| 0 <= j < acc.len() implies exists|i: int|
            0 <= i < out.len() && (#[trigger] out[i]) == (#[trigger] acc[j]) by {
            assert(out[j] == acc[j]);
        }
    } else if acc[0].port > r.port {
        assert(out[0] == r);
        assert forall|i: int| 0 <= i < out.len() implies (#[trigger] out[i]) == r || exists|j: int|
            0 <= j < acc.len() && (#[trigger] acc[j]) == out[i] by {
            if i > 0 {
                assert(acc[i - 1] == out[i]);
            }
        }
        assert forall|j: int| 0 <= j < acc.len() implies exists|i: int|
            0 <= i < out.len() && (#[trigger] out[i]) == (#[trigger] acc[j]) by {
            assert(out[j + 1] == acc[j]);
        }
    } else {
        let tail = acc.drop_first();
        lemma_insert_by_port_membership(tail, r);
        let rec = insert_by_port(tail, r);
        let wi = choose|i: int| 0 <= i < rec.len() && (#[trigger] rec[i]).port == r.port;
        assert(out[wi + 1].port == r.port);
        assert forall|i: int| 0 <= i < out.len() implies (#[trigger] out[i]) == r || exists|j: int|
            0 <= j < acc.len() && (#[trigger] acc[j]) == out[i] by {
            if i == 0 {
                assert(acc[0] == out[0]);
            } else {
                assert(out[i] == rec[i - 1]);
                if rec[i - 1] != r {
                    let j = choose|j: int| 0 <= j < tail.len() && (#[trigger] tail[j]) == rec[i
                        - 1];
                    assert(acc[j + 1] == out[i]);
                }
            }
        }
        assert forall|j: int| 0 <= j < acc.len() implies exists|i: int|
            0 <= i < out.len() && (#[trigger] out[i]) == (#[trigger] acc[j]) by {
            if j == 0 {
                assert(out[0] == acc[0]);
            } else {
                assert(tail[j - 1] == acc[j]);
                let i = choose|i: int| 0 <= i < rec.len() && (#[trigger] rec[i]) == tail[j - 1];
                assert(out[i + 1] == acc[j]);
            }
        }
    }
}

proof fn lemma_insert_by_port_present(acc: Seq<PortInfoV>, r: PortInfoV)
    requires
        strictly_port_ordered(acc),
        exists|j: int| 0 <= j < acc.len() && (#[trigger] acc[j]).port == r.port,
    ensures
        insert_by_port(acc, r) == acc,
    decreases acc.len(),
{
    let j = choose|j: int| 0 <= j < acc.len() && (#[trigger] acc[j]).port == r.port;
    if acc[0].port == r.port {
    } else if acc[0].port > r.port {
        assert(j > 0);
        assert(acc[0].port < acc[j].port);
        assert(false);
    } else {
        let tail = acc.drop_first();
        assert(forall|i: int, k: int|
            0 <= i < k < tail.len() ==> (#[trigger] tail[i]).port < (#[trigger] tail[k]).port);
        assert(j > 0);
        assert(tail[j - 1].port == r.port);
        lemma_insert_by_port_present(tail, r);
        assert(insert_by_port(acc, r) =~= acc);
    }
}

proof fn lemma_insert_by_port_absent(acc: Seq<PortInfoV>, r: PortInfoV)
    requires
        forall|j: int| 0 <= j < acc.len() ==> (#[trigger] acc[j]).port != r.port,
    ensures
        forall|i: int|
            0 <= i < insert_by_port(acc, r).len() ==> (#[trigger] insert_by_port(acc, r)[i]) == r
                || exists|j: int| 0 <= j < acc.len() && (#[trigger] acc[j]) == insert_by_port(
                acc,
                r,
            )[i],
{
    lemma_insert_by_port_membership(acc, r);
}

/// Deduplication keeps every port: each input record's port occurs in the
/// output.
pub proof fn lemma_dedup_keeps_every_port(rs: Seq<PortInfoV>)
    ensures
        forall|k: int|
            0 <= k < rs.len() ==> exists|i: int|
                0 <= i < dedup_by_port(rs).len() && (#[trigger] dedup_by_port(rs)[i]).port == (
                #[trigger] rs[k]).port,
    decreases rs.len(),
{
    if rs.len() > 0 {
        let front = rs.drop_last();
        let r = rs.last();
        lemma_dedup_keeps_every_port(front);
        let d = dedup_by_port(front);
        let out = insert_by_port(d, r);
        assert(dedup_by_port(rs) == out);
        assert(forall|j: int| 0 <= j < rs.len() - 1 ==> (#[trigger] rs[j]) == front[j]);
        lemma_insert_by_port_membership(d, r);
        assert forall|k: int| 0 <= k < rs.len() implies exists|i: int|
            0 <= i < out.len() && (#[trigger] out[i]).port == (#[trigger] rs[k]).port by {
            if k < rs.len() - 1 {
                assert(front[k] == rs[k]);
                let i = choose|i: int| 0 <= i < d.len() && (#[trigger] d[i]).port == front[k].port;
                let i2 = choose|i2: int| 0 <= i2 < out.len() && (#[trigger] out[i2]) == d[i];
                assert(out[i2].port == rs[k].port);
            } else {
                assert(rs[k] == r);
                let i = choose|i: int| 0 <= i < out.len() && (#[trigger] out[i]).port == r.port;
                assert(out[i].port == rs[k].port);
            }
        }
    }
}

/// Deduplication leaves a strictly port-ordered run: each port at most once,
/// in increasing order.
pub proof fn lemma_dedup_sorted(rs: Seq<PortInfoV>)
    ensures
        strictly_port_ordered(dedup_by_port(rs)),
    decreases rs.len(),
{
    if rs.len() > 0 {
        lemma_dedup_sorted(rs.drop_last());
        lemma_insert_by_port_sorted(dedup_by_port(rs.drop_last()), rs.last());
    }
}

/// What the deduplication keeps is exactly the input's first record of each
/// port, byte for byte.  With [`lemma_dedup_sorted`] and
/// [`lemma_dedup_keeps_every_port`] this pins the result down uniquely, and
/// the three together are exactly what a stable sort by port followed by
/// adjacent deduplication leaves.
#[verifier::rlimit(100)]
#[verifier::spinoff_prover]
pub proof fn lemma_dedup_keeps_first_occurrences(rs: Seq<PortInfoV>)
    ensures
        forall|i: int|
            0 <= i < dedup_by_port(rs).len() ==> exists|k: int|
                is_first_with_port(rs, k) && rs[k] == (#[trigger] dedup_by_port(rs)[i]),
    decreases rs.len(),
{
    if rs.len() > 0 {
        let front = rs.drop_last();
        let r = rs.last();
        lemma_dedup_keeps_first_occurrences(front);
        lemma_dedup_sorted(front);
        let d = dedup_by_port(front);
        let out = insert_by_port(d, r);
        assert(dedup_by_port(rs) == out);
        assert(forall|j: int| 0 <= j < rs.len() - 1 ==> (#[trigger] rs[j]) == front[j]);
        if exists|j: int| 0 <= j < d.len() && (#[trigger] d[j]).port == r.port {
            lemma_insert_by_port_present(d, r);
            assert forall|i: int| 0 <= i < out.len() implies exists|k: int|
                is_first_with_port(rs, k) && rs[k] == (#[trigger] out[i]) by {
                assert(out[i] == d[i]);
                let k = choose|k: int| is_first_with_port(front, k) && front[k] == d[i];
                assert(rs[k] == front[k]);
                assert forall|j: int| 0 <= j < k implies (#[trigger] rs[j]).port != rs[k].port by {
                    assert(rs[j] == front[j]);
                    assert(front[j].port != front[k].port);
                }
                assert(is_first_with_port(rs, k));
            }
        } else {
            lemma_insert_by_port_absent(d, r);
            lemma_dedup_keeps_every_port(front);
            assert forall|i: int| 0 <= i < out.len() implies exists|k: int|
                is_first_with_port(rs, k) && rs[k] == (#[trigger] out[i]) by {
                if out[i] == r {
                    // No earlier record carries this port, or its port
                    // would have survived into the deduplicated front.
                    assert forall|j: int| 0 <= j < rs.len() - 1 implies (#[trigger] rs[j]).port
                        != r.port by {
                        if rs[j].port == r.port {
                            assert(front[j] == rs[j]);
                            let i2 = choose|i2: int|
                                0 <= i2 < d.len() && (#[trigger] d[i2]).port == front[j].port;
                            assert(d[i2].port == r.port);
                        }
                    }
                    assert(is_first_with_port(rs, rs.len() - 1));
                    assert(rs[rs.len() - 1] == r);
                } else {
                    let j = choose|j: int| 0 <= j < d.len() && (#[trigger] d[j]) == out[i];
                    let k = choose|k: int| is_first_with_port(front, k) && front[k] == d[j];
                    assert(rs[k] == front[k]);
                    assert forall|j2: int| 0 <= j2 < k implies (#[trigger] rs[j2]).port
                        != rs[k].port by {
                        assert(rs[j2] == front[j2]);
                        assert(front[j2].port != front[k].port);
                    }
                    assert(is_first_with_port(rs, k));
                }
            }
        }
    }
}

proof fn lemma_insert_by_port_valid(acc: Seq<PortInfoV>, r: PortInfoV)
    requires
        valid_record(r),
        forall|i: int| 0 <= i < acc.len() ==> valid_record(#[trigger] acc[i]),
    ensures
        forall|i: int|
            0 <= i < insert_by_port(acc, r).len() ==> valid_record(
                #[trigger] insert_by_port(acc, r)[i],
            ),
    decreases acc.len(),
{
    if acc.len() == 0 {
    } else if acc[0].port == r.port {
    } else if acc[0].port > r.port {
        let whole = seq![r] + acc;
        assert forall|i: int| 0 <= i < whole.len() implies valid_record(whole[i]) by {
            if i > 0 {
                assert(whole[i] == acc[i - 1]);
            }
        }
    } else {
        assert(forall|i: int|
            0 <= i < acc.drop_first().len() ==> valid_record(#[trigger] acc.drop_first()[i]));
        lemma_insert_by_port_valid(acc.drop_first(), r);
        let rest = insert_by_port(acc.drop_first(), r);
        let whole = seq![acc[0]] + rest;
        assert forall|i: int| 0 <= i < whole.len() implies valid_record(whole[i]) by {
            if i > 0 {
                assert(whole[i] == rest[i - 1]);
            }
        }
    }
}

/// Deduplication neither invents records nor damages them: every record it
/// keeps satisfies the record invariant whenever every input record did.
pub proof fn lemma_dedup_preserves_validity(rs: Seq<PortInfoV>)
    requires
        forall|i: int| 0 <= i < rs.len() ==> valid_record(#[trigger] rs[i]),
    ensures
        forall|i: int|
            0 <= i < dedup_by_port(rs).len() ==> valid_record(#[trigger] dedup_by_port(rs)[i]),
    decreases rs.len(),
{
    if rs.len() > 0 {
        assert(forall|i: int|
            0 <= i < rs.drop_last().len() ==> valid_record(#[trigger] rs.drop_last()[i]));
        lemma_dedup_preserves_validity(rs.drop_last());
        lemma_insert_by_port_valid(dedup_by_port(rs.drop_last()), rs.last());
    }
}

proof fn lemma_lsof_records_valid(lines: Seq<Seq<char>>, proto: Seq<char>)
    requires
        proto == "tcp"@ || proto == "udp"@,
    ensures
        forall|i: int|
            0 <= i < lsof_records(lines, proto).len() ==> valid_record(
                #[trigger] lsof_records(lines, proto)[i],
            ),
    decreases lines.len(),
{
    if lines.len() > 0 {
        lemma_lsof_records_valid(lines.drop_first(), proto);
        let rest = lsof_records(lines.drop_first(), proto);
        match spec_parse_lsof_line(lines[0], proto) {
            Some(r) => {
                let whole = seq![r] + rest;
                assert forall|i: int| 0 <= i < whole.len() implies valid_record(whole[i]) by {
                    if i == 0 {
                        assert(whole[0] == r);
                    } else {
                        assert(whole[i] == rest[i - 1]);
                    }
                }
            },
            None => {},
        }
    }
}

/// Every record a successful macOS scan emits satisfies the record
/// invariant.
pub proof fn lemma_macos_scan_records_valid(
    tcp: Result<CmdOutputV, Seq<char>>,
    udp: Result<CmdOutputV, Seq<char>>,
)
    ensures
        match spec_macos_scan(tcp, udp) {
            Ok(v) => forall|i: int| 0 <= i < v.len() ==> valid_record(#[trigger] v[i]),
            Err(_) => true,
        },
{
    if let (Ok(t), Ok(u)) = (tcp, udp) {
        if t.success && u.success {
            let base = pass_records(t.stdout, "tcp"@);
            let extra = pass_records(u.stdout, "udp"@);
            let tls = lines_of(t.stdout);
            if tls.len() > 0 {
                lemma_lsof_records_valid(tls.skip(1), "tcp"@);
            }
            let uls = lines_of(u.stdout);
            if uls.len() > 0 {
                lemma_lsof_records_valid(uls.skip(1), "udp"@);
            }
            assert forall|i: int| 0 <= i < (base + extra).len() implies valid_record(
                (base + extra)[i],
            ) by {
                if i < base.len() {
                    assert((base + extra)[i] == base[i]);
                } else {
                    assert((base + extra)[i] == extra[i - base.len()]);
                }
            }
            lemma_dedup_preserves_validity(base + extra);
        }
    }
}

} // verus!
