//! The record model, the scan coordinator and the process terminator.
//!
//! A scan produces a sequence of [`PortInfo`] records; every failure collapses
//! to a single human-readable [`ScanError`].  The platform probes live in the
//! submodules; they parse captured tool output and never perform I/O
//! themselves: the caller runs the introspection tools and hands their
//! captured output in as a [`CmdOutput`].

use vstd::prelude::*;

use crate::text::{
    dec_digits, last_char_idx, last_pair_idx, lemma_dec_digits_val, parse_dec_bounded, rfind_char,
    rfind_pair, spec_parse_dec,
};

pub mod linux;
pub mod macos;
pub mod windows;

verus! {

/// One listening socket, associated with its owning process.
///
/// `port` 0 is a legal sentinel meaning "unbound/unknown"; `pid` 0 means "no
/// attributable process" and `process_name` is then usually `"unknown"`.
#[derive(Debug, Clone)]
pub struct PortInfo {
    pub port: u16,
    pub pid: u32,
    pub process_name: String,
    pub protocol: String,
    pub local_address: String,
    pub state: String,
}

/// The mathematical model of a [`PortInfo`]: the same fields with the text
/// fields as character sequences.
#[verifier::ext_equal]
pub ghost struct PortInfoV {
    pub port: u16,
    pub pid: u32,
    pub process_name: Seq<char>,
    pub protocol: Seq<char>,
    pub local_address: Seq<char>,
    pub state: Seq<char>,
}

impl View for PortInfo {
    type V = PortInfoV;

    open spec fn view(&self) -> PortInfoV {
        PortInfoV {
            port: self.port,
            pid: self.pid,
            process_name: self.process_name@,
            protocol: self.protocol@,
            local_address: self.local_address@,
            state: self.state@,
        }
    }
}

impl DeepView for PortInfo {
    type V = PortInfoV;

    open spec fn deep_view(&self) -> PortInfoV {
        self.view()
    }
}

/// The invariant of every record that a successful scan emits: the protocol
/// is one of the two transports and the socket is reported as listening.
pub open spec fn valid_record(r: PortInfoV) -> bool {
    (r.protocol == "tcp"@ || r.protocol == "udp"@) && r.state == "LISTEN"@
}

/// A scan failure: a single human-readable message with no structured code.
#[derive(Debug)]
pub struct ScanError {
    pub message: String,
}

impl View for ScanError {
    type V = Seq<char>;

    open spec fn view(&self) -> Seq<char> {
        self.message@
    }
}

impl From<String> for ScanError {
    fn from(err: String) -> (r: ScanError) {
        ScanError { message: err }
    }
}

impl vstd::std_specs::convert::FromSpecImpl<String> for ScanError {
    open spec fn obeys_from_spec() -> bool {
        true
    }

    open spec fn from_spec(err: String) -> ScanError {
        ScanError { message: err }
    }
}

impl<'a> From<&'a str> for ScanError {
    fn from(err: &'a str) -> (r: ScanError)
        ensures
            r@ == err@,
    {
        ScanError { message: err.to_owned() }
    }
}

impl<'a> vstd::std_specs::convert::FromSpecImpl<&'a str> for ScanError {
    open spec fn obeys_from_spec() -> bool {
        // A spec-level `String` cannot be made up out of a `&str`, so the
        // borrowed conversion promises nothing through the trait; its
        // contract is the `ensures` of the impl above.
        false
    }

    open spec fn from_spec(err: &'a str) -> ScanError {
        vstd::pervasive::arbitrary()
    }
}

pub type ScanResult<T> = Result<T, ScanError>;

/// The captured outcome of one completed external tool invocation: whether
/// the tool exited successfully, and what it wrote to its two streams.
#[derive(Debug, Clone)]
pub struct CmdOutput {
    pub success: bool,
    pub stdout: String,
    pub stderr: String,
}

/// The mathematical model of a [`CmdOutput`].
#[verifier::ext_equal]
pub ghost struct CmdOutputV {
    pub success: bool,
    pub stdout: Seq<char>,
    pub stderr: Seq<char>,
}

impl View for CmdOutput {
    type V = CmdOutputV;

    open spec fn view(&self) -> CmdOutputV {
        CmdOutputV { success: self.success, stdout: self.stdout@, stderr: self.stderr@ }
    }
}

/// The model of a query attempt: either the tool ran to completion, or
/// spawning it failed with a message.
pub open spec fn query_view(q: &ScanResult<CmdOutput>) -> Result<CmdOutputV, Seq<char>> {
    match q {
        Ok(o) => Ok(o@),
        Err(e) => Err(e@),
    }
}

// ---------------------------------------------------------------------------
// The address grammar shared by the probes.
// ---------------------------------------------------------------------------

/// Splits a bound-address token into its address and port-numeral parts.
///
/// The split point is the last colon, except when a `"]:"` pair marks a
/// bracketed IPv6 address, in which case the split is immediately after the
/// closing bracket (an IPv6 address itself contains colons, so the naive
/// split would cut inside it).  The separating colon belongs to neither part.
pub open spec fn spec_split_addr_port(s: Seq<char>) -> Option<(Seq<char>, Seq<char>)> {
    match last_pair_idx(s, ']', ':') {
        Some(i) => Some((s.subrange(0, i + 1), s.subrange(i + 2, s.len() as int))),
        None => match last_char_idx(s, ':') {
            Some(i) => Some((s.subrange(0, i), s.subrange(i + 1, s.len() as int))),
            None => None,
        },
    }
}

/// A bound-address token parses when it splits and its port part is a
/// decimal 16-bit numeral; the result is the address part and the port value.
pub open spec fn spec_parse_address_port(s: Seq<char>) -> Option<(Seq<char>, u16)> {
    match spec_split_addr_port(s) {
        Some((addr, ptok)) => match spec_parse_dec(ptok, 0xFFFF) {
            Some(v) => Some((addr, v as u16)),
            None => None,
        },
        None => None,
    }
}

/// Splits and parses a bound-address token, as the probes do for every
/// `"ip:port"` or `"[v6]:port"` column.
pub fn parse_address_port_str(addr_port: &str) -> (r: Option<(String, u16)>)
    ensures
        match r {
            Some(ap) => spec_parse_address_port(addr_port@) == Some((ap.0@, ap.1)),
            None => spec_parse_address_port(addr_port@) is None,
        },
{
    let n = addr_port.unicode_len();
    match rfind_pair(addr_port, ']', ':') {
        Some(i) => {
            let ptok = addr_port.substring_char(i + 2, n);
            proof {
                assert(ptok@ =~= addr_port@.subrange(i + 2, addr_port@.len() as int));
            }
            match parse_dec_bounded(ptok, 0xFFFF) {
                Some(v) => {
                    let addr = addr_port.substring_char(0, i + 1).to_owned();
                    Some((addr, v as u16))
                },
                None => None,
            }
        },
        None => match rfind_char(addr_port, ':') {
            Some(i) => {
                let ptok = addr_port.substring_char(i + 1, n);
                proof {
                    assert(ptok@ =~= addr_port@.subrange(i + 1, addr_port@.len() as int));
                }
                match parse_dec_bounded(ptok, 0xFFFF) {
                    Some(v) => {
                        let addr = addr_port.substring_char(0, i).to_owned();
                        Some((addr, v as u16))
                    },
                    None => None,
                }
            },
            None => None,
        },
    }
}

/// The address/port split loses nothing.  The recovered address and a port
/// numeral are byte-identical substrings of the input, joined by the single
/// separating colon; and rejoining the recovered address (brackets and all,
/// for an IPv6 address) with its port's canonical numeral yields a
/// bound-address token that parses back to exactly the same pair.
pub proof fn lemma_address_port_round_trip(s: Seq<char>, addr: Seq<char>, port: u16)
    requires
        spec_parse_address_port(s) == Some((addr, port)),
    ensures
        exists|tok: Seq<char>|
            s == addr + seq![':'] + tok && #[trigger] spec_parse_dec(tok, 0xFFFF) == Some(
                port as u64,
            ),
        spec_parse_address_port(addr + seq![':'] + dec_digits(port as nat)) == Some((addr, port)),
{
    crate::text::lemma_last_pair_props(s, ']', ':');
    crate::text::lemma_last_char_props(s, ':');
    lemma_dec_digits_val(port as nat);
    let d = dec_digits(port as nat);
    let t = addr + seq![':'] + d;
    crate::text::lemma_last_pair_props(t, ']', ':');
    crate::text::lemma_last_char_props(t, ':');
    match last_pair_idx(s, ']', ':') {
        Some(i) => {
            let tok = s.subrange(i + 2, s.len() as int);
            assert(addr == s.subrange(0, i + 1));
            assert(s =~= addr + seq![':'] + tok);
            assert(spec_parse_dec(tok, 0xFFFF) == Some(port as u64));
            // The rejoined token carries the same bracket pair at the same
            // place, and nothing behind it looks like one: the separator is
            // a colon and the numeral is all digits.
            assert(t.len() == i + 2 + d.len());
            assert(t[i] == addr[i] && addr[i] == s[i]);
            assert(t[i + 1] == ':');
            match last_pair_idx(t, ']', ':') {
                None => {
                    assert(false);
                },
                Some(k) => {
                    if k < i {
                        assert(t[i] == ']' && t[i + 1] == ':');
                        assert(false);
                    }
                    if k > i {
                        if k == i + 1 {
                            assert(t[k] == ':');
                        } else {
                            assert(t[k] == d[k - i - 2]);
                            assert(crate::text::is_digit(d[k - i - 2]));
                        }
                        assert(false);
                    }
                },
            }
            assert(t.subrange(0, i + 1) =~= addr);
            assert(t.subrange(i + 2, t.len() as int) =~= d);
        },
        None => {
            let i = last_char_idx(s, ':')->Some_0;
            let tok = s.subrange(i + 1, s.len() as int);
            assert(addr == s.subrange(0, i));
            assert(s =~= addr + seq![':'] + tok);
            assert(spec_parse_dec(tok, 0xFFFF) == Some(port as u64));
            assert(t.len() == i + 1 + d.len());
            assert(t[i as int] == ':');
            // No bracket pair appears in the rejoined token: one inside the
            // address, or one formed with the separator, would have stood in
            // the input token as well.
            match last_pair_idx(t, ']', ':') {
                Some(k) => {
                    if k + 1 < i {
                        assert(s[k] == t[k] && s[k + 1] == t[k + 1]);
                        assert(false);
                    } else if k + 1 == i {
                        assert(s[k] == t[k]);
                        assert(s[k + 1] == ':');
                        assert(false);
                    } else if k == i {
                        assert(t[k] == ':');
                        assert(false);
                    } else {
                        assert(t[k] == d[k - i - 1]);
                        assert(crate::text::is_digit(d[k - i - 1]));
                        assert(false);
                    }
                },
                None => {},
            }
            match last_char_idx(t, ':') {
                None => {
                    assert(t[i as int] == ':');
                    assert(false);
                },
                Some(k) => {
                    if k < i {
                        assert(t[i as int] == ':');
                        assert(false);
                    }
                    if k > i {
                        assert(t[k] == d[k - i - 1]);
                        assert(crate::text::is_digit(d[k - i - 1]));
                        assert(false);
                    }
                },
            }
            assert(t.subrange(0, i) =~= addr);
            assert(t.subrange(i + 1, t.len() as int) =~= d);
        },
    }
}

/// The text of an executable PID-to-name table's values.
pub open spec fn map_view(m: Map<u32, String>) -> Map<u32, Seq<char>> {
    Map::new(|k: u32| m.contains_key(k), |k: u32| m[k]@)
}

/// Extending the executable table extends its text model in step.
pub proof fn lemma_map_view_insert(m: Map<u32, String>, k: u32, v: String)
    ensures
        map_view(m.insert(k, v)) == map_view(m).insert(k, v@),
{
    assert(map_view(m.insert(k, v)) =~= map_view(m).insert(k, v@));
}

// ---------------------------------------------------------------------------
// The scan coordinator and the process terminator.
// ---------------------------------------------------------------------------

/// Selects the active platform probe's outcome, or reports the fixed
/// unsupported-platform failure when no probe fits the host.
///
/// The caller detects the host platform, runs that platform's probe on its
/// captured tool output, and hands the outcome in; on a host with no probe it
/// hands in nothing and the scan fails immediately, without any query.
pub fn scan_ports(probe: Option<ScanResult<Vec<PortInfo>>>) -> (r: ScanResult<Vec<PortInfo>>)
    ensures
        match probe {
            Some(outcome) => r == outcome,
            None => r matches Err(e) && e@ == "Unsupported operating system"@,
        },
{
    match probe {
        Some(outcome) => outcome,
        None => Err(ScanError { message: "Unsupported operating system".to_owned() }),
    }
}

/// What the terminator answers for a forced-kill attempt: success exactly
/// when the tool exited successfully, the tool's own diagnostic text (behind
/// a fixed prefix) when it did not, the spawn failure's message when the tool
/// could not be run, and the fixed unsupported-platform message when the
/// host has no terminator tool.
pub open spec fn spec_kill_outcome(q: Option<Result<CmdOutputV, Seq<char>>>) -> Result<
    (),
    Seq<char>,
> {
    match q {
        None => Err("Unsupported operating system"@),
        Some(Err(m)) => Err(m),
        Some(Ok(out)) => if out.success {
            Ok(())
        } else {
            Err("Failed to kill process: "@ + out.stderr)
        },
    }
}

/// Classifies the outcome of one forced-termination request.
///
/// The caller issues the platform's forced-kill command for the PID and hands
/// in the captured outcome (or nothing on an unsupported host); the PID
/// itself is not validated here — PID 0 simply fails at the tool boundary.
/// There is no retry and no graceful-then-forceful escalation.
pub fn kill_process(q: Option<ScanResult<CmdOutput>>) -> (r: ScanResult<()>)
    ensures
        match r {
            Ok(u) => spec_kill_outcome(
                match q {
                    Some(ref qr) => Some(query_view(qr)),
                    None => None,
                },
            ) == Ok::<(), Seq<char>>(()),
            Err(e) => spec_kill_outcome(
                match q {
                    Some(ref qr) => Some(query_view(qr)),
                    None => None,
                },
            ) == Err::<(), Seq<char>>(e@),
        },
{
    match q {
        None => Err(ScanError { message: "Unsupported operating system".to_owned() }),
        Some(Err(e)) => Err(e),
        Some(Ok(out)) => {
            if out.success {
                Ok(())
            } else {
                let msg = "Failed to kill process: ".to_owned().concat(out.stderr.as_str());
                Err(ScanError { message: msg })
            }
        },
    }
}

/// A failed kill is never silent: whenever the tool completed without
/// success — as it does for a nonexistent PID — the terminator reports a
/// failure whose message is non-empty and carries the tool's own diagnostic
/// text verbatim after its fixed prefix.
pub proof fn lemma_kill_failure_reports_diagnostic(out: CmdOutputV)
    requires
        !out.success,
    ensures
        spec_kill_outcome(Some(Ok(out))) matches Err(m) && m.len() > 0 && m
            == "Failed to kill process: "@ + out.stderr && m.skip(
            "Failed to kill process: "@.len() as int,
        ) == out.stderr,
{
    reveal_strlit("Failed to kill process: ");
    let m = "Failed to kill process: "@ + out.stderr;
    assert(m.skip("Failed to kill process: "@.len() as int) =~= out.stderr);
}

} // verus!
