//! Fastboot wire format: outgoing commands and incoming responses.

use vstd::prelude::*;
use vstd::string::StringSliceAdditionalSpecFns;
use vstd::utf8::{encode_utf8, valid_utf8};

verus! {

/// A command sent to the device in a single bulk transfer.
#[derive(Clone, Debug, PartialEq, Eq)]
pub enum FastBootCommand {
    GetVar(String),
    Download(u32),
    Flash(String),
    Erase(String),
    Reboot,
    RebootBootloader,
}

/// A reply read from the device in a single bulk transfer.
#[derive(Clone, Debug, PartialEq, Eq)]
pub enum FastBootResponse {
    /// Informational text; the command is still running.
    Info(String),
    /// Informational text; the command is still running.
    Text(String),
    /// The device is ready to receive this many bytes.
    Data(u32),
    /// The command succeeded, with an optional value.
    Okay(String),
    /// The command failed, with a reason.
    Fail(String),
}

#[derive(Clone, Copy, Debug, PartialEq, Eq, Structural)]
pub enum FastBootResponseParseError {
    /// The reply does not start with a known four-letter tag.
    UnknownReply,
    /// A DATA reply whose size is not one to eight hex digits.
    ParseDataSize,
}

/// Which of the five tags a reply carries.
pub enum ResponseKind {
    Info,
    Text,
    Data,
    Okay,
    Fail,
}

/// Text decoded from bytes, invalid sequences replaced.
pub uninterp spec fn utf8_lossy(b: Seq<u8>) -> Seq<char>;

/// Relies on `String::from_utf8_lossy`: decodes UTF-8, keeping valid input
/// as it is.
#[verifier::external_body]
fn text_from_bytes(b: &[u8]) -> (r: String)
    ensures
        r@ == utf8_lossy(b@),
        valid_utf8(b@) ==> encode_utf8(r@) == b@,
{
    String::from_utf8_lossy(b).into_owned()
}

pub open spec fn tag_is(b: Seq<u8>, t0: u8, t1: u8, t2: u8, t3: u8) -> bool {
    b.len() >= 4 && b[0] == t0 && b[1] == t1 && b[2] == t2 && b[3] == t3
}

/// The tag that a reply starts with, if it is one of the five.
pub open spec fn response_kind(b: Seq<u8>) -> Option<ResponseKind> {
    if tag_is(b, 73, 78, 70, 79) {
        Some(ResponseKind::Info)
    } else if tag_is(b, 84, 69, 88, 84) {
        Some(ResponseKind::Text)
    } else if tag_is(b, 68, 65, 84, 65) {
        Some(ResponseKind::Data)
    } else if tag_is(b, 79, 75, 65, 89) {
        Some(ResponseKind::Okay)
    } else if tag_is(b, 70, 65, 73, 76) {
        Some(ResponseKind::Fail)
    } else {
        None
    }
}

pub open spec fn is_space(c: u8) -> bool {
    c == 32 || c == 9 || c == 10 || c == 12 || c == 13
}

/// `b` without its trailing whitespace.
pub open spec fn trim_end(b: Seq<u8>) -> Seq<u8>
    decreases b.len(),
{
    if b.len() > 0 && is_space(b.last()) {
        trim_end(b.drop_last())
    } else {
        b
    }
}

/// The payload of a reply: what follows the tag, trailing whitespace removed.
pub open spec fn payload(b: Seq<u8>) -> Seq<u8> {
    trim_end(b.subrange(4, b.len() as int))
}

pub open spec fn hex_value(c: u8) -> int {
    if 48 <= c <= 57 {
        c - 48
    } else if 97 <= c <= 102 {
        c - 87
    } else if 65 <= c <= 70 {
        c - 55
    } else {
        -1
    }
}

pub open spec fn all_hex(s: Seq<u8>) -> bool {
    forall|i: int| 0 <= i < s.len() ==> hex_value(#[trigger] s[i]) >= 0
}

/// The number that hex digits `s` spell, most significant first.
pub open spec fn hex_number(s: Seq<u8>) -> int
    decreases s.len(),
{
    if s.len() == 0 {
        0
    } else {
        hex_number(s.drop_last()) * 16 + hex_value(s.last())
    }
}

pub open spec fn pow16(n: nat) -> int
    decreases n,
{
    if n == 0 {
        1
    } else {
        16 * pow16((n - 1) as nat)
    }
}

/// A DATA size: one to eight hex digits.
pub open spec fn valid_data_size(s: Seq<u8>) -> bool {
    1 <= s.len() <= 8 && all_hex(s)
}

/// The reply that the bytes `b` stand for, over the kind and payload.
pub open spec fn response_matches(r: FastBootResponse, b: Seq<u8>) -> bool {
    match r {
        FastBootResponse::Info(s) => response_kind(b) == Some(ResponseKind::Info) && s@ == utf8_lossy(payload(b)),
        FastBootResponse::Text(s) => response_kind(b) == Some(ResponseKind::Text) && s@ == utf8_lossy(payload(b)),
        FastBootResponse::Data(n) => response_kind(b) == Some(ResponseKind::Data) && n == hex_number(payload(b)),
        FastBootResponse::Okay(s) => response_kind(b) == Some(ResponseKind::Okay) && s@ == utf8_lossy(payload(b)),
        FastBootResponse::Fail(s) => response_kind(b) == Some(ResponseKind::Fail) && s@ == utf8_lossy(payload(b)),
    }
}

/// The text of a reply encodes back to the bytes `p`.
pub open spec fn text_encodes_to(r: FastBootResponse, p: Seq<u8>) -> bool {
    match r {
        FastBootResponse::Info(s) => encode_utf8(s@) == p,
        FastBootResponse::Text(s) => encode_utf8(s@) == p,
        FastBootResponse::Data(_) => true,
        FastBootResponse::Okay(s) => encode_utf8(s@) == p,
        FastBootResponse::Fail(s) => encode_utf8(s@) == p,
    }
}

proof fn lemma_pow16_8()
    ensures
        pow16(8) == 4294967296,
{
    reveal_with_fuel(pow16, 9);
}

proof fn lemma_pow16_le(m: nat, n: nat)
    requires
        m <= n,
    ensures
        pow16(m) <= pow16(n),
    decreases n,
{
    if m < n {
        lemma_pow16_le(m, (n - 1) as nat);
        lemma_pow16_pos((n - 1) as nat);
    }
}

proof fn lemma_pow16_pos(n: nat)
    ensures
        pow16(n) >= 1,
    decreases n,
{
    if n > 0 {
        lemma_pow16_pos((n - 1) as nat);
    }
}

fn hex_digit_value(c: u8) -> (r: u8)
    requires
        hex_value(c) >= 0,
    ensures
        r == hex_value(c),
{
    if 48 <= c && c <= 57 {
        c - 48
    } else if 97 <= c && c <= 102 {
        c - 87
    } else {
        c - 55
    }
}

/// Parses the payload of a DATA reply.
fn parse_data_size(s: &[u8]) -> (r: Option<u32>)
    ensures
        r is Some <==> valid_data_size(s@),
        r is Some ==> r->0 == hex_number(s@),
{
    if s.len() == 0 || s.len() > 8 {
        return None;
    }
    let mut acc: u64 = 0;
    let mut i: usize = 0;
    while i < s.len()
        invariant
            1 <= s@.len() <= 8,
            i <= s@.len(),
            all_hex(s@.take(i as int)),
            acc == hex_number(s@.take(i as int)),
            acc < pow16(i as nat),
            0 <= acc,
        decreases s@.len() - i,
    {
        let c = s[i];
        if !(48 <= c && c <= 57) && !(97 <= c && c <= 102) && !(65 <= c && c <= 70) {
            assert(!all_hex(s@)) by {
                assert(hex_value(s@[i as int]) < 0);
            }
            return None;
        }
        proof {
            lemma_pow16_8();
            lemma_pow16_le((i + 1) as nat, 8);
            assert(s@.take(i + 1).drop_last() =~= s@.take(i as int));
            assert(s@.take(i + 1).last() == c);
        }
        let d = hex_digit_value(c);
        acc = acc * 16 + d as u64;
        assert forall|j: int| 0 <= j < s@.take(i + 1).len() implies hex_value(#[trigger] s@.take(i + 1)[j]) >= 0 by {
            if j < i {
                assert(s@.take(i + 1)[j] == s@.take(i as int)[j]);
            }
        }
        i = i + 1;
    }
    assert(s@.take(s@.len() as int) =~= s@);
    proof {
        lemma_pow16_le(s@.len(), 8);
        lemma_pow16_8();
    }
    Some(acc as u32)
}

impl FastBootResponse {
    /// Parses one reply read from the device.
    pub fn from_bytes(b: &[u8]) -> (r: Result<FastBootResponse, FastBootResponseParseError>)
        ensures
            response_kind(b@) is None ==> r == Err::<FastBootResponse, FastBootResponseParseError>(FastBootResponseParseError::UnknownReply),
            response_kind(b@) == Some(ResponseKind::Data) && !valid_data_size(payload(b@))
                ==> r == Err::<FastBootResponse, FastBootResponseParseError>(FastBootResponseParseError::ParseDataSize),
            r is Ok <==> response_kind(b@) is Some && (response_kind(b@) == Some(ResponseKind::Data) ==> valid_data_size(payload(b@))),
            r is Ok ==> response_matches(r->Ok_0, b@),
            r is Ok && valid_utf8(payload(b@)) ==> text_encodes_to(r->Ok_0, payload(b@)),
    {
        let n = b.len();
        if n < 4 {
            return Err(FastBootResponseParseError::UnknownReply);
        }
        let mut end = n;
        while end > 4 && (b[end - 1] == 32 || b[end - 1] == 9 || b[end - 1] == 10 || b[end - 1] == 12 || b[end - 1] == 13)
            invariant
                n == b@.len(),
                4 <= end <= n,
                trim_end(b@.subrange(4, end as int)) == payload(b@),
            decreases end,
        {
            assert(b@.subrange(4, end as int).drop_last() =~= b@.subrange(4, end - 1));
            end = end - 1;
        }
        let p = vstd::slice::slice_subrange(b, 4, end);
        assert(p@ == payload(b@));
        if b[0] == 73 && b[1] == 78 && b[2] == 70 && b[3] == 79 {
            Ok(FastBootResponse::Info(text_from_bytes(p)))
        } else if b[0] == 84 && b[1] == 69 && b[2] == 88 && b[3] == 84 {
            Ok(FastBootResponse::Text(text_from_bytes(p)))
        } else if b[0] == 68 && b[1] == 65 && b[2] == 84 && b[3] == 65 {
            match parse_data_size(p) {
                Some(size) => Ok(FastBootResponse::Data(size)),
                None => Err(FastBootResponseParseError::ParseDataSize),
            }
        } else if b[0] == 79 && b[1] == 75 && b[2] == 65 && b[3] == 89 {
            Ok(FastBootResponse::Okay(text_from_bytes(p)))
        } else if b[0] == 70 && b[1] == 65 && b[2] == 73 && b[3] == 76 {
            Ok(FastBootResponse::Fail(text_from_bytes(p)))
        } else {
            Err(FastBootResponseParseError::UnknownReply)
        }
    }
}

pub open spec fn hex_digit(d: int) -> u8 {
    if d < 10 {
        (48 + d) as u8
    } else {
        (87 + d) as u8
    }
}

/// `v` as eight lowercase hex digits, most significant first.
pub open spec fn hex8(v: int) -> Seq<u8> {
    Seq::new(8, |i: int| hex_digit((v / pow16((7 - i) as nat)) % 16))
}

/// The bytes that carry a command on the wire.
pub open spec fn command_bytes(c: FastBootCommand) -> Seq<u8> {
    match c {
        FastBootCommand::GetVar(s) => "getvar:".spec_bytes() + encode_utf8(s@),
        FastBootCommand::Download(n) => "download:".spec_bytes() + hex8(n as int),
        FastBootCommand::Flash(s) => "flash:".spec_bytes() + encode_utf8(s@),
        FastBootCommand::Erase(s) => "erase:".spec_bytes() + encode_utf8(s@),
        FastBootCommand::Reboot => "reboot".spec_bytes(),
        FastBootCommand::RebootBootloader => "reboot-bootloader".spec_bytes(),
    }
}

fn append(out: &mut Vec<u8>, b: &[u8])
    ensures
        final(out)@ == old(out)@ + b@,
{
    let mut i: usize = 0;
    while i < b.len()
        invariant
            i <= b@.len(),
            out@ == old(out)@ + b@.take(i as int),
        decreases b@.len() - i,
    {
        out.push(b[i]);
        assert(b@.take(i + 1) =~= b@.take(i as int).push(b@[i as int]));
        i = i + 1;
    }
    assert(b@.take(b@.len() as int) =~= b@);
}

fn append_hex8(out: &mut Vec<u8>, v: u32)
    ensures
        final(out)@ == old(out)@ + hex8(v as int),
{
    let mut d: u32 = 0x1000_0000;
    let mut i: usize = 0;
    proof {
        reveal_with_fuel(pow16, 8);
    }
    while i < 8
        invariant
            i <= 8,
            i < 8 ==> d == pow16((7 - i) as nat),
            d > 0,
            out@ == old(out)@ + hex8(v as int).take(i as int),
        decreases 8 - i,
    {
        let digit = (v / d) % 16;
        let c: u8 = if digit < 10 { 48 + digit as u8 } else { 87 + digit as u8 };
        out.push(c);
        assert(hex8(v as int).take(i + 1) =~= hex8(v as int).take(i as int).push(c));
        if i < 7 {
            assert(pow16((7 - i) as nat) == 16 * pow16((6 - i) as nat));
            d = d / 16;
        }
        i = i + 1;
    }
    assert(hex8(v as int).take(8) =~= hex8(v as int));
}

impl FastBootCommand {
    /// The bytes that carry the command on the wire.
    pub fn to_bytes(&self) -> (r: Vec<u8>)
        ensures
            r@ == command_bytes(*self),
    {
        let mut out: Vec<u8> = Vec::new();
        match self {
            FastBootCommand::GetVar(s) => {
                append(&mut out, "getvar:".as_bytes());
                append(&mut out, s.as_str().as_bytes());
            },
            FastBootCommand::Download(n) => {
                append(&mut out, "download:".as_bytes());
                append_hex8(&mut out, *n);
            },
            FastBootCommand::Flash(s) => {
                append(&mut out, "flash:".as_bytes());
                append(&mut out, s.as_str().as_bytes());
            },
            FastBootCommand::Erase(s) => {
                append(&mut out, "erase:".as_bytes());
                append(&mut out, s.as_str().as_bytes());
            },
            FastBootCommand::Reboot => {
                append(&mut out, "reboot".as_bytes());
            },
            FastBootCommand::RebootBootloader => {
                append(&mut out, "reboot-bootloader".as_bytes());
            },
        }
        assert(out@ =~= command_bytes(*self));
        out
    }
}

} // verus!
