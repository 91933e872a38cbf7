//! Fastboot client logic: finding the interface and its endpoints, and
//! deciding what each reply means while a command runs.

use vstd::prelude::*;
use crate::protocol::{FastBootResponse, FastBootResponseParseError};

verus! {

pub const FASTBOOT_CLASS: u8 = 0xff;
pub const FASTBOOT_SUBCLASS: u8 = 0x42;
pub const FASTBOOT_PROTOCOL: u8 = 0x03;

/// Why a USB transfer did not complete.
#[derive(Clone, Copy, Debug, PartialEq, Eq, Structural)]
pub enum TransferError {
    Cancelled,
    Stall,
    Disconnected,
    Fault,
    Unknown,
}

/// Fastboot communication errors
#[derive(Clone, Debug, PartialEq, Eq)]
pub enum NusbFastBootError {
    Transfer(TransferError),
    FastbootFailed(String),
    FastbootUnexpectedReply,
    FastbootParseError(FastBootResponseParseError),
}

/// Errors when opening the fastboot device
#[derive(Clone, Debug, PartialEq, Eq)]
pub enum NusbFastBootOpenError {
    /// The device could not be opened; the system's message.
    Device(String),
    /// The interface could not be claimed; the system's message.
    Interface(String),
    MissingInterface,
    MissingEndpoints,
    FastbootParseError(FastBootResponseParseError),
}

/// What a USB interface descriptor says of itself.
#[derive(Clone, Copy, Debug, PartialEq, Eq, Structural)]
pub struct InterfaceInfo {
    pub interface_number: u8,
    pub class: u8,
    pub subclass: u8,
    pub protocol: u8,
}

#[derive(Clone, Copy, Debug, PartialEq, Eq, Structural)]
pub enum EndpointType {
    Control,
    Isochronous,
    Bulk,
    Interrupt,
}

#[derive(Clone, Copy, Debug, PartialEq, Eq, Structural)]
pub enum Direction {
    Out,
    In,
}

/// What a USB endpoint descriptor says of itself.
#[derive(Clone, Copy, Debug, PartialEq, Eq, Structural)]
pub struct EndpointInfo {
    pub address: u8,
    pub transfer_type: EndpointType,
    pub direction: Direction,
    pub max_packet_size: usize,
}

/// The endpoints of one alternate setting of an interface.
#[derive(Clone, Debug)]
pub struct AltSetting {
    pub endpoints: Vec<EndpointInfo>,
}

/// The endpoints a Fastboot client talks through.
#[derive(Clone, Copy, Debug, PartialEq, Eq, Structural)]
pub struct NusbFastBoot {
    pub ep_out: u8,
    pub max_out: usize,
    pub ep_in: u8,
    pub max_in: usize,
}

pub open spec fn is_fastboot(i: InterfaceInfo) -> bool {
    i.class == FASTBOOT_CLASS && i.subclass == FASTBOOT_SUBCLASS && i.protocol == FASTBOOT_PROTOCOL
}

pub open spec fn has_fastboot(ifaces: Seq<InterfaceInfo>) -> bool {
    exists|i: int| 0 <= i < ifaces.len() && is_fastboot(#[trigger] ifaces[i])
}

pub open spec fn is_bulk(e: EndpointInfo, d: Direction) -> bool {
    e.transfer_type == EndpointType::Bulk && e.direction == d
}

/// How many bulk endpoints of direction `d` the sequence holds.
pub open spec fn count_bulk(eps: Seq<EndpointInfo>, d: Direction) -> int
    decreases eps.len(),
{
    if eps.len() == 0 {
        0
    } else {
        count_bulk(eps.drop_last(), d) + if is_bulk(eps.last(), d) { 1int } else { 0int }
    }
}

/// An alternate setting with exactly one bulk OUT and one bulk IN endpoint.
pub open spec fn usable_alt(eps: Seq<EndpointInfo>) -> bool {
    count_bulk(eps, Direction::Out) == 1 && count_bulk(eps, Direction::In) == 1
}

/// Text with the surrounding whitespace removed.
pub uninterp spec fn trimmed(s: Seq<char>) -> Seq<char>;

/// Relies on `str::trim`: removes leading and trailing whitespace.
#[verifier::external_body]
fn trim_text(s: &str) -> (r: String)
    ensures
        r@ == trimmed(s@),
{
    s.trim().to_string()
}

/// Relies on `str::rsplit_once`: splits around the last `:`, if any.
#[verifier::external_body]
fn split_last_colon(s: &str) -> (r: Option<(String, String)>)
    ensures
        r is None <==> !s@.contains(':'),
        r matches Some(p) ==> s@ == p.0@ + seq![':'] + p.1@ && !p.1@.contains(':'),
{
    match s.rsplit_once(':') {
        Some((a, b)) => Some((a.to_string(), b.to_string())),
        None => None,
    }
}

/// `key` and `value` are the trimmed text before and after the last colon of
/// `line`.
pub open spec fn is_var_entry(line: Seq<char>, key: Seq<char>, value: Seq<char>) -> bool {
    exists|a: Seq<char>, b: Seq<char>|
        line == a + seq![':'] + b && !b.contains(':') && key == trimmed(a) && value == trimmed(b)
}

/// An INFO reply whose text holds a colon.
pub open spec fn info_with_colon(resp: FastBootResponse) -> bool {
    resp is Info && resp->Info_0@.contains(':')
}

/// Reads a `key: value` line of the variable listing; `None` if it holds no
/// colon.
pub fn parse_var_line(line: &String) -> (r: Option<(String, String)>)
    ensures
        r is None <==> !line@.contains(':'),
        r matches Some(p) ==> is_var_entry(line@, p.0@, p.1@),
{
    match split_last_colon(line.as_str()) {
        Some((a, b)) => {
            let key = trim_text(a.as_str());
            let value = trim_text(b.as_str());
            assert(line@ == a@ + seq![':'] + b@ && !b@.contains(':') && key@ == trimmed(a@) && value@ == trimmed(b@));
            Some((key, value))
        },
        None => None,
    }
}

/// What a reply means while a command runs: `None` to read on, or how the
/// command ended.
pub open spec fn spec_command_step(resp: FastBootResponse) -> Option<Result<String, NusbFastBootError>> {
    match resp {
        FastBootResponse::Info(_) | FastBootResponse::Text(_) => None,
        FastBootResponse::Data(_) => Some(Err(NusbFastBootError::FastbootUnexpectedReply)),
        FastBootResponse::Okay(v) => Some(Ok(v)),
        FastBootResponse::Fail(f) => Some(Err(NusbFastBootError::FastbootFailed(f))),
    }
}

/// How a command ends on the reads `resps`, in order: the first failed read
/// (a transfer or parse error) or terminal reply decides; `None` while none
/// has.
pub open spec fn command_outcome(resps: Seq<Result<FastBootResponse, NusbFastBootError>>) -> Option<Result<String, NusbFastBootError>>
    decreases resps.len(),
{
    if resps.len() == 0 {
        None
    } else {
        match resps[0] {
            Err(e) => Some(Err(e)),
            Ok(resp) => match spec_command_step(resp) {
                Some(done) => Some(done),
                None => command_outcome(resps.subrange(1, resps.len() as int)),
            },
        }
    }
}

impl NusbFastBoot {
    /// Find fastboot interface within a USB device
    pub fn find_fastboot_interface(interfaces: &[InterfaceInfo]) -> (r: Option<u8>)
        ensures
            r is None <==> !has_fastboot(interfaces@),
            r is Some ==> exists|i: int|
                0 <= i < interfaces@.len() && is_fastboot(#[trigger] interfaces@[i])
                    && interfaces@[i].interface_number == r->0
                    && forall|j: int| 0 <= j < i ==> !is_fastboot(#[trigger] interfaces@[j]),
    {
        let mut k: usize = 0;
        while k < interfaces.len()
            invariant
                k <= interfaces@.len(),
                forall|j: int| 0 <= j < k ==> !is_fastboot(#[trigger] interfaces@[j]),
            decreases interfaces@.len() - k,
        {
            let i = interfaces[k];
            if i.class == FASTBOOT_CLASS && i.subclass == FASTBOOT_SUBCLASS && i.protocol == FASTBOOT_PROTOCOL {
                return Some(i.interface_number);
            }
            k = k + 1;
        }
        None
    }

    /// Create a fastboot client based on the alternate settings of a USB
    /// interface: the first setting with exactly one bulk OUT and one bulk IN
    /// endpoint gives the endpoints.
    pub fn from_interface(alts: &[AltSetting]) -> (r: Result<NusbFastBoot, NusbFastBootOpenError>)
        ensures
            r is Err <==> forall|a: int| 0 <= a < alts@.len() ==> !usable_alt(#[trigger] alts@[a].endpoints@),
            r is Err ==> r == Err::<NusbFastBoot, NusbFastBootOpenError>(NusbFastBootOpenError::MissingEndpoints),
            r is Ok ==> exists|a: int| 0 <= a < alts@.len() && usable_alt(#[trigger] alts@[a].endpoints@)
                && (forall|b: int| 0 <= b < a ==> !usable_alt(#[trigger] alts@[b].endpoints@))
                && (exists|o: int| 0 <= o < alts@[a].endpoints@.len() && #[trigger] is_bulk(alts@[a].endpoints@[o], Direction::Out)
                    && alts@[a].endpoints@[o].address == r->Ok_0.ep_out
                    && alts@[a].endpoints@[o].max_packet_size == r->Ok_0.max_out)
                && (exists|n: int| 0 <= n < alts@[a].endpoints@.len() && #[trigger] is_bulk(alts@[a].endpoints@[n], Direction::In)
                    && alts@[a].endpoints@[n].address == r->Ok_0.ep_in
                    && alts@[a].endpoints@[n].max_packet_size == r->Ok_0.max_in),
    {
        let mut a: usize = 0;
        while a < alts.len()
            invariant
                a <= alts@.len(),
                forall|b: int| 0 <= b < a ==> !usable_alt(#[trigger] alts@[b].endpoints@),
            decreases alts@.len() - a,
        {
            let eps = &alts[a].endpoints;
            let mut outs: usize = 0;
            let mut ins: usize = 0;
            let mut out_ep: Option<EndpointInfo> = None;
            let mut in_ep: Option<EndpointInfo> = None;
            let mut k: usize = 0;
            while k < eps.len()
                invariant
                    a < alts@.len(),
                    eps@ == alts@[a as int].endpoints@,
                    k <= eps@.len(),
                    outs == count_bulk(eps@.take(k as int), Direction::Out),
                    ins == count_bulk(eps@.take(k as int), Direction::In),
                    outs <= k,
                    ins <= k,
                    out_ep is Some ==> exists|o: int| 0 <= o < eps@.len() && #[trigger] is_bulk(eps@[o], Direction::Out) && eps@[o] == out_ep->0,
                    in_ep is Some ==> exists|n: int| 0 <= n < eps@.len() && #[trigger] is_bulk(eps@[n], Direction::In) && eps@[n] == in_ep->0,
                    outs > 0 ==> out_ep is Some,
                    ins > 0 ==> in_ep is Some,
                decreases eps@.len() - k,
            {
                let e = eps[k];
                assert(eps@[k as int] == e);
                assert(eps@.take(k + 1).drop_last() =~= eps@.take(k as int));
                assert(eps@.take(k + 1).last() == e);
                if e.transfer_type == EndpointType::Bulk && e.direction == Direction::Out {
                    outs = outs + 1;
                    out_ep = Some(e);
                    assert(is_bulk(eps@[k as int], Direction::Out));
                }
                if e.transfer_type == EndpointType::Bulk && e.direction == Direction::In {
                    ins = ins + 1;
                    in_ep = Some(e);
                    assert(is_bulk(eps@[k as int], Direction::In));
                }
                k = k + 1;
            }
            assert(eps@.take(eps@.len() as int) =~= eps@);
            if outs == 1 && ins == 1 {
                let o = out_ep.unwrap();
                let i = in_ep.unwrap();
                return Ok(NusbFastBoot { ep_out: o.address, max_out: o.max_packet_size, ep_in: i.address, max_in: i.max_packet_size });
            }
            a = a + 1;
        }
        Err(NusbFastBootOpenError::MissingEndpoints)
    }

    /// What a reply means while a command runs: `None` to read on, or how
    /// the command ended.
    pub fn command_step(resp: FastBootResponse) -> (r: Option<Result<String, NusbFastBootError>>)
        ensures
            r == spec_command_step(resp),
    {
        match resp {
            FastBootResponse::Info(_) => None,
            FastBootResponse::Text(_) => None,
            FastBootResponse::Data(_) => Some(Err(NusbFastBootError::FastbootUnexpectedReply)),
            FastBootResponse::Okay(v) => Some(Ok(v)),
            FastBootResponse::Fail(f) => Some(Err(NusbFastBootError::FastbootFailed(f))),
        }
    }

    /// What a reply means after a download was requested: `None` to read on,
    /// the size the device accepts, or an error.
    pub fn download_step(resp: FastBootResponse) -> (r: Option<Result<u32, NusbFastBootError>>)
        ensures
            r == match resp {
                FastBootResponse::Info(_) | FastBootResponse::Text(_) => None,
                FastBootResponse::Data(n) => Some(Ok(n)),
                FastBootResponse::Okay(_) => Some(Err(NusbFastBootError::FastbootUnexpectedReply)),
                FastBootResponse::Fail(f) => Some(Err(NusbFastBootError::FastbootFailed(f))),
            },
    {
        match resp {
            FastBootResponse::Info(_) => None,
            FastBootResponse::Text(_) => None,
            FastBootResponse::Data(n) => Some(Ok(n)),
            FastBootResponse::Okay(_) => Some(Err(NusbFastBootError::FastbootUnexpectedReply)),
            FastBootResponse::Fail(f) => Some(Err(NusbFastBootError::FastbootFailed(f))),
        }
    }

    /// What a reply means while all variables are listed: each INFO line that
    /// holds a colon adds an entry, other INFO and TEXT lines are passed
    /// over; `None` to read on, or how the listing ended.
    pub fn all_vars_step(vars: &mut Vec<(String, String)>, resp: FastBootResponse) -> (r: Option<Result<(), NusbFastBootError>>)
        ensures
            r == match resp {
                FastBootResponse::Info(_) | FastBootResponse::Text(_) => None,
                FastBootResponse::Data(_) => Some(Err(NusbFastBootError::FastbootUnexpectedReply)),
                FastBootResponse::Okay(_) => Some(Ok(())),
                FastBootResponse::Fail(f) => Some(Err(NusbFastBootError::FastbootFailed(f))),
            },
            info_with_colon(resp) ==> final(vars)@.len() == old(vars)@.len() + 1
                && final(vars)@.drop_last() == old(vars)@
                && is_var_entry(resp->Info_0@, final(vars)@.last().0@, final(vars)@.last().1@),
            !info_with_colon(resp) ==> final(vars)@ == old(vars)@,
    {
        match resp {
            FastBootResponse::Info(line) => {
                if let Some(entry) = parse_var_line(&line) {
                    vars.push(entry);
                    assert(vars@.drop_last() =~= old(vars)@);
                }
                None
            },
            FastBootResponse::Text(_) => None,
            FastBootResponse::Data(_) => Some(Err(NusbFastBootError::FastbootUnexpectedReply)),
            FastBootResponse::Okay(_) => Some(Ok(())),
            FastBootResponse::Fail(f) => Some(Err(NusbFastBootError::FastbootFailed(f))),
        }
    }

    /// Runs the reply loop of a command over the reads already made, in order:
    /// each is a reply or the error that reading it gave.
    pub fn handle_responses(resps: Vec<Result<FastBootResponse, NusbFastBootError>>) -> (r: Option<Result<String, NusbFastBootError>>)
        ensures
            r == command_outcome(resps@),
    {
        let ghost all = resps@;
        let mut k: usize = 0;
        let mut found = false;
        assert(all.subrange(0, all.len() as int) =~= all);
        loop
            invariant_except_break
                !found,
            invariant
                resps@ == all,
                k <= all.len(),
                command_outcome(all) == command_outcome(all.subrange(k as int, all.len() as int)),
            ensures
                !found ==> k == all.len(),
                found ==> k < all.len() && command_outcome(all) == match all[k as int] {
                    Err(e) => Some(Err(e)),
                    Ok(resp) => spec_command_step(resp),
                },
            decreases all.len() - k,
        {
            if k >= resps.len() {
                break;
            }
            let ghost rest = all.subrange(k as int, all.len() as int);
            assert(rest.subrange(1, rest.len() as int) =~= all.subrange(k + 1, all.len() as int));
            assert(rest[0] == all[k as int]);
            let terminal = match &resps[k] {
                Ok(FastBootResponse::Info(_)) => false,
                Ok(FastBootResponse::Text(_)) => false,
                _ => true,
            };
            if terminal {
                assert(!(all[k as int] matches Ok(FastBootResponse::Info(_))));
                assert(!(all[k as int] matches Ok(FastBootResponse::Text(_))));
                assert(command_outcome(rest) == match all[k as int] {
                    Err(e) => Some(Err(e)),
                    Ok(resp) => spec_command_step(resp),
                });
                found = true;
                break;
            }
            k = k + 1;
        }
        if !found {
            assert(all.subrange(all.len() as int, all.len() as int) =~= Seq::empty());
            return None;
        }
        let mut items = resps;
        let item = items.swap_remove(k);
        match item {
            Err(e) => Some(Err(e)),
            Ok(resp) => Self::command_step(resp),
        }
    }
}

/// Whether each device, given by its interfaces, offers a Fastboot interface.
pub fn devices(all: &[Vec<InterfaceInfo>]) -> (r: Vec<usize>)
    ensures
        forall|i: int| 0 <= i < r@.len() ==> (#[trigger] r@[i]) < all@.len() && has_fastboot(all@[r@[i] as int]@),
        forall|d: int| 0 <= d < all@.len() && has_fastboot(#[trigger] all@[d]@) ==> r@.contains(d as usize),
        forall|i: int, j: int| 0 <= i < j < r@.len() ==> r@[i] < r@[j],
{
    let mut r: Vec<usize> = Vec::new();
    let mut d: usize = 0;
    while d < all.len()
        invariant
            d <= all@.len(),
            forall|i: int| 0 <= i < r@.len() ==> (#[trigger] r@[i]) < d && has_fastboot(all@[r@[i] as int]@),
            forall|e: int| 0 <= e < d && has_fastboot(#[trigger] all@[e]@) ==> r@.contains(e as usize),
            forall|i: int, j: int| 0 <= i < j < r@.len() ==> r@[i] < r@[j],
        decreases all@.len() - d,
    {
        if NusbFastBoot::find_fastboot_interface(all[d].as_slice()).is_some() {
            let ghost old_r = r@;
            r.push(d);
            assert forall|e: int| 0 <= e <= d && has_fastboot(#[trigger] all@[e]@) implies r@.contains(e as usize) by {
                if e < d {
                    let w = choose|w: int| 0 <= w < old_r.len() && old_r[w] == e as usize;
                    assert(r@[w] == e as usize);
                } else {
                    assert(r@[old_r.len() as int] == d);
                }
            }
        }
        d = d + 1;
    }
    r
}

} // verus!
