//! The uniform response envelope handed to the caller of each operation:
//! `{success, data, error}`, with `data` set exactly on success and `error`
//! carrying the scan failure's message otherwise.

use vstd::prelude::*;

use crate::scanner::{PortInfo, PortInfoV, ScanResult};

verus! {

/// The envelope every operation answers with.
#[derive(Debug)]
pub struct CommandResponse<T> {
    pub success: bool,
    pub data: Option<T>,
    pub error: Option<String>,
}

impl<T> CommandResponse<T> {
    /// The successful envelope: the payload and no error text.
    pub fn ok(data: T) -> (r: Self)
        ensures
            r.success == true,
            r.data == Some(data),
            r.error is None,
    {
        CommandResponse { success: true, data: Some(data), error: None }
    }

    /// The failed envelope: no payload and the failure's message.
    pub fn err(message: String) -> (r: Self)
        ensures
            r.success == false,
            r.data is None,
            r.error == Some(message),
    {
        CommandResponse { success: false, data: None, error: Some(message) }
    }
}

/// Wraps a scan outcome for the caller: the record list on success, the
/// failure's message otherwise.
pub fn scan_ports(result: ScanResult<Vec<PortInfo>>) -> (r: CommandResponse<Vec<PortInfo>>)
    ensures
        match result {
            Ok(ports) => r.success && r.data == Some(ports) && r.error is None,
            Err(e) => !r.success && r.data is None && r.error == Some(e.message),
        },
{
    match result {
        Ok(ports) => CommandResponse::ok(ports),
        Err(e) => CommandResponse::err(e.message),
    }
}

/// Wraps a kill outcome for the caller.
pub fn kill_process(result: ScanResult<()>) -> (r: CommandResponse<()>)
    ensures
        match result {
            Ok(u) => r.success && r.data == Some(u) && r.error is None,
            Err(e) => !r.success && r.data is None && r.error == Some(e.message),
        },
{
    match result {
        Ok(u) => CommandResponse::ok(u),
        Err(e) => CommandResponse::err(e.message),
    }
}

/// The first record of the scan whose port matches, if any.
pub open spec fn first_match(rs: Seq<PortInfoV>, port: u16) -> Option<PortInfoV>
    decreases rs.len(),
{
    if rs.len() == 0 {
        None
    } else if rs[0].port == port {
        Some(rs[0])
    } else {
        first_match(rs.drop_first(), port)
    }
}

/// Answers a port lookup from a scan outcome: on a successful scan, success
/// with the first matching record — or with an explicit absence, a distinct
/// outcome from a failed scan, whose error is surfaced as such.
pub fn get_port_info(result: ScanResult<Vec<PortInfo>>, port: u16) -> (r: CommandResponse<
    Option<PortInfo>,
>)
    ensures
        match result {
            Ok(ports) => r.success && r.error is None && (r.data matches Some(d) && (match d {
                Some(p) => first_match(ports.deep_view(), port) == Some(p@),
                None => first_match(ports.deep_view(), port) is None,
            })),
            Err(e) => !r.success && r.data is None && r.error == Some(e.message),
        },
{
    let mut ports = match result {
        Ok(ports) => ports,
        Err(e) => {
            return CommandResponse::err(e.message);
        },
    };
    let ghost all = ports.deep_view();
    let mut i: usize = 0;
    let mut found: bool = false;
    proof {
        assert(all.skip(0) =~= all);
    }
    while !found && i < ports.len()
        invariant
            all == ports.deep_view(),
            0 <= i <= ports@.len(),
            all.len() == ports@.len(),
            first_match(all, port) == first_match(all.skip(i as int), port),
            found ==> i < all.len() && all[i as int].port == port,
        decreases all.len() - i + (if found {
            0int
        } else {
            1int
        }),
    {
        proof {
            assert(all.skip(i as int)[0] == all[i as int]);
            assert(all[i as int] == ports@[i as int]@);
            assert(all.skip(i as int).drop_first() =~= all.skip(i + 1));
        }
        if ports[i].port == port {
            found = true;
        } else {
            i = i + 1;
        }
    }
    if found {
        proof {
            assert(all.skip(i as int)[0] == all[i as int]);
            assert(first_match(all.skip(i as int), port) == Some(all[i as int]));
        }
        let hit = ports.remove(i);
        proof {
            assert(hit@ == all[i as int]);
        }
        CommandResponse::ok(Some(hit))
    } else {
        proof {
            assert(all.skip(all.len() as int) =~= Seq::<PortInfoV>::empty());
        }
        CommandResponse::ok(None)
    }
}

/// A port with no listener is an explicit success with an empty result,
/// never mistaken for a scan failure: the two envelopes differ in their
/// success flag, their payload and their error text.
pub proof fn lemma_absence_is_not_failure(rs: Seq<PortInfoV>, port: u16)
    requires
        forall|i: int| 0 <= i < rs.len() ==> (#[trigger] rs[i]).port != port,
    ensures
        first_match(rs, port) is None,
    decreases rs.len(),
{
    if rs.len() > 0 {
        assert(forall|i: int|
            0 <= i < rs.drop_first().len() ==> (#[trigger] rs.drop_first()[i]).port != port);
        lemma_absence_is_not_failure(rs.drop_first(), port);
    }
}

} // verus!
