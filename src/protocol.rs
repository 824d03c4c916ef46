//! Control-plane messages and their wire encoding.
//!
//! A frame is a four-byte big-endian length followed by that many payload
//! bytes. A payload starts with a tag byte naming the message variant; a
//! string is its UTF-8 length as four big-endian bytes followed by the UTF-8
//! bytes; an optional value is a byte 0 (absent) or 1 followed by the value.
use vstd::prelude::*;
use vstd::utf8::{decode_utf8, encode_utf8, encode_utf8_decode_utf8, encode_utf8_valid_utf8, valid_utf8};

use crate::text::views;

verus! {

/// A command sent by a client to the supervisor.
#[derive(Debug, Clone)]
#[allow(inconsistent_fields)]
pub enum IpcRequest {
    StartService { name: String },
    StopService { name: String },
    RestartService { name: String },
    GetStatus { name: Option<String> },
    ListServices,
    EnableService { name: String },
    DisableService { name: String },
    ReloadDaemon,
}

/// The supervisor's answer to one request.
#[derive(Debug, Clone)]
#[allow(inconsistent_fields)]
pub enum IpcResponse {
    Success { message: String },
    Error { message: String },
    Status { services: Vec<ServiceStatus> },
    ServiceList { services: Vec<String> },
}

/// The public view of one service instance.
#[derive(Debug, Clone)]
pub struct ServiceStatus {
    pub name: String,
    pub state: String,
    pub pid: Option<u32>,
    pub enabled: bool,
    pub restart_count: u32,
}

/// A request with its strings as character sequences.
pub enum RequestView {
    StartService(Seq<char>),
    StopService(Seq<char>),
    RestartService(Seq<char>),
    GetStatus(Option<Seq<char>>),
    ListServices,
    EnableService(Seq<char>),
    DisableService(Seq<char>),
    ReloadDaemon,
}

impl View for IpcRequest {
    type V = RequestView;

    open spec fn view(&self) -> RequestView {
        match self {
            IpcRequest::StartService { name } => RequestView::StartService(name@),
            IpcRequest::StopService { name } => RequestView::StopService(name@),
            IpcRequest::RestartService { name } => RequestView::RestartService(name@),
            IpcRequest::GetStatus { name } => RequestView::GetStatus(
                match name {
                    Some(n) => Some(n@),
                    None => None,
                },
            ),
            IpcRequest::ListServices => RequestView::ListServices,
            IpcRequest::EnableService { name } => RequestView::EnableService(name@),
            IpcRequest::DisableService { name } => RequestView::DisableService(name@),
            IpcRequest::ReloadDaemon => RequestView::ReloadDaemon,
        }
    }
}

/// `n` as four big-endian bytes.
pub open spec fn be32(n: u32) -> Seq<u8> {
    seq![(n >> 24u32) as u8, ((n >> 16u32) & 0xffu32) as u8, ((n >> 8u32) & 0xffu32) as u8, (n & 0xffu32) as u8]
}

/// The big-endian number in the four bytes of `b` at `pos`.
pub open spec fn read_be32(b: Seq<u8>, pos: int) -> u32 {
    ((b[pos] as u32) << 24u32) | ((b[pos + 1] as u32) << 16u32) | ((b[pos + 2] as u32) << 8u32) | (
    b[pos + 3] as u32)
}

/// Whether the UTF-8 form of `s` has a length that four bytes can hold.
pub open spec fn str_fits(s: Seq<char>) -> bool {
    encode_utf8(s).len() <= u32::MAX
}

pub open spec fn str_bytes(s: Seq<char>) -> Seq<u8> {
    be32(encode_utf8(s).len() as u32) + encode_utf8(s)
}

pub open spec fn opt_str_bytes(o: Option<Seq<char>>) -> Seq<u8> {
    match o {
        None => seq![0u8],
        Some(s) => seq![1u8] + str_bytes(s),
    }
}

/// Whether every string of the request fits the encoding.
pub open spec fn request_fits(r: RequestView) -> bool {
    match r {
        RequestView::StartService(s) => str_fits(s),
        RequestView::StopService(s) => str_fits(s),
        RequestView::RestartService(s) => str_fits(s),
        RequestView::GetStatus(Some(s)) => str_fits(s),
        RequestView::EnableService(s) => str_fits(s),
        RequestView::DisableService(s) => str_fits(s),
        _ => true,
    }
}

/// The payload that encodes a request.
pub open spec fn request_bytes(r: RequestView) -> Seq<u8> {
    match r {
        RequestView::StartService(s) => seq![0u8] + str_bytes(s),
        RequestView::StopService(s) => seq![1u8] + str_bytes(s),
        RequestView::RestartService(s) => seq![2u8] + str_bytes(s),
        RequestView::GetStatus(o) => seq![3u8] + opt_str_bytes(o),
        RequestView::ListServices => seq![4u8],
        RequestView::EnableService(s) => seq![5u8] + str_bytes(s),
        RequestView::DisableService(s) => seq![6u8] + str_bytes(s),
        RequestView::ReloadDaemon => seq![7u8],
    }
}

/// The string encoded at `pos`, and the position after it.
pub open spec fn parse_str(b: Seq<u8>, pos: int) -> Option<(Seq<char>, int)> {
    if 0 <= pos && pos + 4 <= b.len() {
        let end = pos + 4 + read_be32(b, pos);
        if end <= b.len() && valid_utf8(b.subrange(pos + 4, end)) {
            Some((decode_utf8(b.subrange(pos + 4, end)), end))
        } else {
            None
        }
    } else {
        None
    }
}

/// The string encoded at `pos`, when it ends exactly where `b` ends.
pub open spec fn parse_last_str(b: Seq<u8>, pos: int) -> Option<Seq<char>> {
    match parse_str(b, pos) {
        Some((s, end)) => if end == b.len() {
            Some(s)
        } else {
            None
        },
        None => None,
    }
}

/// The request that a payload encodes, if any.
pub open spec fn parse_request(b: Seq<u8>) -> Option<RequestView> {
    if b.len() == 0 {
        None
    } else {
        let tag = b[0];
        if tag == 4 {
            if b.len() == 1 {
                Some(RequestView::ListServices)
            } else {
                None
            }
        } else if tag == 7 {
            if b.len() == 1 {
                Some(RequestView::ReloadDaemon)
            } else {
                None
            }
        } else if tag == 3 {
            if b.len() == 2 && b[1] == 0 {
                Some(RequestView::GetStatus(None))
            } else if b.len() >= 2 && b[1] == 1 {
                match parse_last_str(b, 2) {
                    Some(s) => Some(RequestView::GetStatus(Some(s))),
                    None => None,
                }
            } else {
                None
            }
        } else {
            match parse_last_str(b, 1) {
                Some(s) => if tag == 0 {
                    Some(RequestView::StartService(s))
                } else if tag == 1 {
                    Some(RequestView::StopService(s))
                } else if tag == 2 {
                    Some(RequestView::RestartService(s))
                } else if tag == 5 {
                    Some(RequestView::EnableService(s))
                } else if tag == 6 {
                    Some(RequestView::DisableService(s))
                } else {
                    None
                },
                None => None,
            }
        }
    }
}

pub proof fn lemma_be32(n: u32)
    ensures
        be32(n).len() == 4,
        read_be32(be32(n), 0) == n,
{
    let b = be32(n);
    let b0 = (n >> 24u32) as u8;
    let b1 = ((n >> 16u32) & 0xffu32) as u8;
    let b2 = ((n >> 8u32) & 0xffu32) as u8;
    let b3 = (n & 0xffu32) as u8;
    assert(b[0] == b0 && b[1] == b1 && b[2] == b2 && b[3] == b3);
    assert(((b0 as u32) << 24u32) | ((b1 as u32) << 16u32) | ((b2 as u32) << 8u32) | (b3 as u32)
        == n) by (bit_vector)
        requires
            b0 == (n >> 24u32) as u8,
            b1 == ((n >> 16u32) & 0xffu32) as u8,
            b2 == ((n >> 8u32) & 0xffu32) as u8,
            b3 == (n & 0xffu32) as u8,
    ;
}

/// A string is read back from its encoding, whatever surrounds it.
pub proof fn lemma_parse_str(pre: Seq<u8>, s: Seq<char>, post: Seq<u8>)
    requires
        str_fits(s),
    ensures
        parse_str(pre + str_bytes(s) + post, pre.len() as int) == Some(
            (s, (pre.len() + str_bytes(s).len()) as int),
        ),
        str_bytes(s).len() == 4 + encode_utf8(s).len(),
{
    let e = encode_utf8(s);
    let n = e.len() as u32;
    let b = pre + str_bytes(s) + post;
    let p = pre.len() as int;
    lemma_be32(n);
    assert(read_be32(b, p) == read_be32(be32(n), 0)) by {
        assert(b[p] == be32(n)[0]);
        assert(b[p + 1] == be32(n)[1]);
        assert(b[p + 2] == be32(n)[2]);
        assert(b[p + 3] == be32(n)[3]);
    }
    assert(b.subrange(p + 4, p + 4 + n) =~= e);
    encode_utf8_valid_utf8(s);
    encode_utf8_decode_utf8(s);
}

/// Decoding the encoding of a request gives the request back.
pub proof fn lemma_request_round_trip(r: RequestView)
    requires
        request_fits(r),
    ensures
        parse_request(request_bytes(r)) == Some(r),
{
    let e = Seq::<u8>::empty();
    match r {
        RequestView::StartService(s) => {
            lemma_parse_str(seq![0u8], s, e);
            assert(seq![0u8] + str_bytes(s) + e =~= request_bytes(r));
        },
        RequestView::StopService(s) => {
            lemma_parse_str(seq![1u8], s, e);
            assert(seq![1u8] + str_bytes(s) + e =~= request_bytes(r));
        },
        RequestView::RestartService(s) => {
            lemma_parse_str(seq![2u8], s, e);
            assert(seq![2u8] + str_bytes(s) + e =~= request_bytes(r));
        },
        RequestView::GetStatus(Some(s)) => {
            lemma_parse_str(seq![3u8, 1u8], s, e);
            assert(seq![3u8, 1u8] + str_bytes(s) + e =~= request_bytes(r));
        },
        RequestView::GetStatus(None) => {
            assert(request_bytes(r) =~= seq![3u8, 0u8]);
        },
        RequestView::EnableService(s) => {
            lemma_parse_str(seq![5u8], s, e);
            assert(seq![5u8] + str_bytes(s) + e =~= request_bytes(r));
        },
        RequestView::DisableService(s) => {
            lemma_parse_str(seq![6u8], s, e);
            assert(seq![6u8] + str_bytes(s) + e =~= request_bytes(r));
        },
        _ => {},
    }
}

/// A status entry with its strings as character sequences.
pub struct StatusView {
    pub name: Seq<char>,
    pub state: Seq<char>,
    pub pid: Option<u32>,
    pub enabled: bool,
    pub restart_count: u32,
}

impl View for ServiceStatus {
    type V = StatusView;

    open spec fn view(&self) -> StatusView {
        StatusView {
            name: self.name@,
            state: self.state@,
            pid: self.pid,
            enabled: self.enabled,
            restart_count: self.restart_count,
        }
    }
}

/// A response with its strings as character sequences.
pub enum ResponseView {
    Success(Seq<char>),
    Error(Seq<char>),
    Status(Seq<StatusView>),
    ServiceList(Seq<Seq<char>>),
}

pub open spec fn status_views(v: Seq<ServiceStatus>) -> Seq<StatusView> {
    v.map_values(|s: ServiceStatus| s@)
}

impl View for IpcResponse {
    type V = ResponseView;

    open spec fn view(&self) -> ResponseView {
        match self {
            IpcResponse::Success { message } => ResponseView::Success(message@),
            IpcResponse::Error { message } => ResponseView::Error(message@),
            IpcResponse::Status { services } => ResponseView::Status(status_views(services@)),
            IpcResponse::ServiceList { services } => ResponseView::ServiceList(views(services@)),
        }
    }
}

pub open spec fn pid_bytes(p: Option<u32>) -> Seq<u8> {
    match p {
        None => seq![0u8],
        Some(x) => seq![1u8] + be32(x),
    }
}

pub open spec fn status_fits(s: StatusView) -> bool {
    str_fits(s.name) && str_fits(s.state)
}

pub open spec fn status_bytes(s: StatusView) -> Seq<u8> {
    str_bytes(s.name) + str_bytes(s.state) + pid_bytes(s.pid) + seq![
        if s.enabled {
            1u8
        } else {
            0u8
        },
    ] + be32(s.restart_count)
}

pub open spec fn statuses_bytes(v: Seq<StatusView>) -> Seq<u8>
    decreases v.len(),
{
    if v.len() == 0 {
        Seq::empty()
    } else {
        statuses_bytes(v.drop_last()) + status_bytes(v.last())
    }
}

pub open spec fn strs_bytes(v: Seq<Seq<char>>) -> Seq<u8>
    decreases v.len(),
{
    if v.len() == 0 {
        Seq::empty()
    } else {
        strs_bytes(v.drop_last()) + str_bytes(v.last())
    }
}

/// Whether every string and count of the response fits the encoding.
pub open spec fn response_fits(r: ResponseView) -> bool {
    match r {
        ResponseView::Success(m) => str_fits(m),
        ResponseView::Error(m) => str_fits(m),
        ResponseView::Status(v) => v.len() <= u32::MAX && forall|k: int|
            0 <= k < v.len() ==> status_fits(#[trigger] v[k]),
        ResponseView::ServiceList(v) => v.len() <= u32::MAX && forall|k: int|
            0 <= k < v.len() ==> str_fits(#[trigger] v[k]),
    }
}

/// The payload that encodes a response.
pub open spec fn response_bytes(r: ResponseView) -> Seq<u8> {
    match r {
        ResponseView::Success(m) => seq![0u8] + str_bytes(m),
        ResponseView::Error(m) => seq![1u8] + str_bytes(m),
        ResponseView::Status(v) => seq![2u8] + be32(v.len() as u32) + statuses_bytes(v),
        ResponseView::ServiceList(v) => seq![3u8] + be32(v.len() as u32) + strs_bytes(v),
    }
}

pub open spec fn parse_pid(b: Seq<u8>, pos: int) -> Option<(Option<u32>, int)> {
    if 0 <= pos < b.len() && b[pos] == 0 {
        Some((None, pos + 1))
    } else if 0 <= pos && pos + 5 <= b.len() && b[pos] == 1 {
        Some((Some(read_be32(b, pos + 1)), pos + 5))
    } else {
        None
    }
}

pub open spec fn parse_status(b: Seq<u8>, pos: int) -> Option<(StatusView, int)> {
    match parse_str(b, pos) {
        Some((name, p1)) => match parse_str(b, p1) {
            Some((state, p2)) => match parse_pid(b, p2) {
                Some((pid, p3)) => if p3 + 5 <= b.len() && (b[p3] == 0 || b[p3] == 1) {
                    Some(
                        (
                            StatusView {
                                name,
                                state,
                                pid,
                                enabled: b[p3] == 1,
                                restart_count: read_be32(b, p3 + 1),
                            },
                            p3 + 5,
                        ),
                    )
                } else {
                    None
                },
                None => None,
            },
            None => None,
        },
        None => None,
    }
}

/// `count` status entries read one after another from `pos`.
pub open spec fn parse_statuses(b: Seq<u8>, pos: int, count: nat) -> Option<(Seq<StatusView>, int)>
    decreases count,
{
    if count == 0 {
        Some((Seq::empty(), pos))
    } else {
        match parse_statuses(b, pos, (count - 1) as nat) {
            Some((v, p)) => match parse_status(b, p) {
                Some((st, p2)) => Some((v.push(st), p2)),
                None => None,
            },
            None => None,
        }
    }
}

/// `count` strings read one after another from `pos`.
pub open spec fn parse_strs(b: Seq<u8>, pos: int, count: nat) -> Option<(Seq<Seq<char>>, int)>
    decreases count,
{
    if count == 0 {
        Some((Seq::empty(), pos))
    } else {
        match parse_strs(b, pos, (count - 1) as nat) {
            Some((v, p)) => match parse_str(b, p) {
                Some((x, p2)) => Some((v.push(x), p2)),
                None => None,
            },
            None => None,
        }
    }
}

/// The response that a payload encodes, if any.
pub open spec fn parse_response(b: Seq<u8>) -> Option<ResponseView> {
    if b.len() == 0 {
        None
    } else if b[0] == 0 || b[0] == 1 {
        match parse_last_str(b, 1) {
            Some(m) => if b[0] == 0 {
                Some(ResponseView::Success(m))
            } else {
                Some(ResponseView::Error(m))
            },
            None => None,
        }
    } else if (b[0] == 2 || b[0] == 3) && b.len() >= 5 {
        let count = read_be32(b, 1) as nat;
        if b[0] == 2 {
            match parse_statuses(b, 5, count) {
                Some((v, end)) => if end == b.len() {
                    Some(ResponseView::Status(v))
                } else {
                    None
                },
                None => None,
            }
        } else {
            match parse_strs(b, 5, count) {
                Some((v, end)) => if end == b.len() {
                    Some(ResponseView::ServiceList(v))
                } else {
                    None
                },
                None => None,
            }
        }
    } else {
        None
    }
}

/// Relies on `String::from_utf8`: it accepts exactly the valid UTF-8 byte
/// sequences and keeps the characters they encode.
#[verifier::external_body]
fn string_from_utf8(bytes: Vec<u8>) -> (r: Option<String>)
    ensures
        r is Some <==> valid_utf8(bytes@),
        r matches Some(s) ==> s@ == decode_utf8(bytes@),
{
    String::from_utf8(bytes).ok()
}

fn put_u32(out: &mut Vec<u8>, n: u32)
    ensures
        final(out)@ == old(out)@ + be32(n),
{
    out.push((n >> 24u32) as u8);
    out.push(((n >> 16u32) & 0xffu32) as u8);
    out.push(((n >> 8u32) & 0xffu32) as u8);
    out.push((n & 0xffu32) as u8);
    assert(final(out)@ =~= old(out)@ + be32(n));
}

/// Appends the encoding of `s`, when its length fits.
fn put_str(out: &mut Vec<u8>, s: &str) -> (ok: bool)
    ensures
        ok == str_fits(s@),
        ok ==> final(out)@ == old(out)@ + str_bytes(s@),
        !ok ==> final(out)@ == old(out)@,
{
    let bytes = s.as_bytes();
    assert(bytes@ == encode_utf8(s@));
    if bytes.len() > 0xffff_ffffusize {
        return false;
    }
    put_u32(out, bytes.len() as u32);
    let ghost mid = out@;
    let mut i: usize = 0;
    while i < bytes.len()
        invariant
            i <= bytes.len(),
            bytes@ == encode_utf8(s@),
            out@ == mid + bytes@.subrange(0, i as int),
        decreases bytes.len() - i,
    {
        out.push(bytes[i]);
        i = i + 1;
        assert(out@ =~= mid + bytes@.subrange(0, i as int));
    }
    assert(bytes@.subrange(0, bytes@.len() as int) =~= bytes@);
    assert(out@ =~= old(out)@ + str_bytes(s@));
    true
}

fn read_u32(b: &Vec<u8>, pos: usize) -> (r: u32)
    requires
        pos + 4 <= b.len(),
    ensures
        r == read_be32(b@, pos as int),
{
    ((b[pos] as u32) << 24u32) | ((b[pos + 1] as u32) << 16u32) | ((b[pos + 2] as u32) << 8u32) | (
    b[pos + 3] as u32)
}

fn read_str(b: &Vec<u8>, pos: usize) -> (r: Option<(String, usize)>)
    ensures
        match parse_str(b@, pos as int) {
            Some((s, end)) => r matches Some((x, e)) && x@ == s && e == end,
            None => r is None,
        },
{
    if pos > b.len() || b.len() - pos < 4 {
        return None;
    }
    let n = read_u32(b, pos) as usize;
    let start = pos + 4;
    if n > b.len() - start {
        return None;
    }
    let end = start + n;
    let mut body: Vec<u8> = Vec::new();
    let mut i: usize = start;
    while i < end
        invariant
            start <= i <= end,
            end <= b.len(),
            body@ == b@.subrange(start as int, i as int),
        decreases end - i,
    {
        body.push(b[i]);
        i = i + 1;
        assert(body@ =~= b@.subrange(start as int, i as int));
    }
    match string_from_utf8(body) {
        Some(s) => Some((s, end)),
        None => None,
    }
}

/// Encodes a request payload; `None` when a string is too long for the encoding.
pub fn encode_request(r: &IpcRequest) -> (b: Option<Vec<u8>>)
    ensures
        b is Some <==> request_fits(r@),
        b matches Some(v) ==> v@ == request_bytes(r@),
{
    let mut out: Vec<u8> = Vec::new();
    let (tag, text): (u8, Option<&String>) = match r {
        IpcRequest::StartService { name } => (0u8, Some(name)),
        IpcRequest::StopService { name } => (1u8, Some(name)),
        IpcRequest::RestartService { name } => (2u8, Some(name)),
        IpcRequest::GetStatus { name } => (3u8, None),
        IpcRequest::ListServices => (4u8, None),
        IpcRequest::EnableService { name } => (5u8, Some(name)),
        IpcRequest::DisableService { name } => (6u8, Some(name)),
        IpcRequest::ReloadDaemon => (7u8, None),
    };
    out.push(tag);
    match text {
        Some(s) => {
            if !put_str(&mut out, s.as_str()) {
                return None;
            }
        },
        None => {
            if let IpcRequest::GetStatus { name } = r {
                match name {
                    Some(s) => {
                        out.push(1u8);
                        if !put_str(&mut out, s.as_str()) {
                            return None;
                        }
                    },
                    None => {
                        out.push(0u8);
                    },
                }
            }
        },
    }
    assert(out@ =~= request_bytes(r@));
    Some(out)
}

/// Decodes a request payload; `None` when the bytes encode no request.
pub fn decode_request(b: &Vec<u8>) -> (r: Option<IpcRequest>)
    ensures
        match parse_request(b@) {
            Some(v) => r matches Some(q) && q@ == v,
            None => r is None,
        },
{
    if b.len() == 0 {
        return None;
    }
    let tag = b[0];
    if tag == 4 || tag == 7 {
        if b.len() != 1 {
            return None;
        }
        return if tag == 4 {
            Some(IpcRequest::ListServices)
        } else {
            Some(IpcRequest::ReloadDaemon)
        };
    }
    if tag == 3 {
        if b.len() == 2 && b[1] == 0 {
            return Some(IpcRequest::GetStatus { name: None });
        }
        if b.len() >= 2 && b[1] == 1 {
            return match read_str(b, 2) {
                Some((s, end)) => if end == b.len() {
                    Some(IpcRequest::GetStatus { name: Some(s) })
                } else {
                    None
                },
                None => None,
            };
        }
        return None;
    }
    if tag > 6 {
        return None;
    }
    match read_str(b, 1) {
        Some((name, end)) => {
            if end != b.len() {
                return None;
            }
            if tag == 0 {
                Some(IpcRequest::StartService { name })
            } else if tag == 1 {
                Some(IpcRequest::StopService { name })
            } else if tag == 2 {
                Some(IpcRequest::RestartService { name })
            } else if tag == 5 {
                Some(IpcRequest::EnableService { name })
            } else {
                Some(IpcRequest::DisableService { name })
            }
        },
        None => None,
    }
}

/// Wraps a payload in a frame: its length as four big-endian bytes, then
/// the payload. `None` when the payload is too long for the length field.
pub fn encode_frame(payload: &Vec<u8>) -> (r: Option<Vec<u8>>)
    ensures
        r is Some <==> payload.len() <= u32::MAX,
        r matches Some(f) ==> f@ == be32(payload.len() as u32) + payload@,
{
    if payload.len() > 0xffff_ffffusize {
        return None;
    }
    let mut out: Vec<u8> = Vec::new();
    put_u32(&mut out, payload.len() as u32);
    let mut i: usize = 0;
    while i < payload.len()
        invariant
            i <= payload.len(),
            payload.len() <= u32::MAX,
            out@ == be32(payload.len() as u32) + payload@.subrange(0, i as int),
        decreases payload.len() - i,
    {
        out.push(payload[i]);
        i = i + 1;
        assert(out@ =~= be32(payload.len() as u32) + payload@.subrange(0, i as int));
    }
    assert(payload@.subrange(0, payload@.len() as int) =~= payload@);
    Some(out)
}

/// The payload length announced by a frame header of four bytes.
pub fn frame_length(header: &Vec<u8>) -> (r: Option<u32>)
    ensures
        r is Some <==> header.len() == 4,
        r matches Some(n) ==> n == read_be32(header@, 0),
{
    if header.len() != 4 {
        return None;
    }
    Some(read_u32(header, 0))
}

/// The payload of a complete frame; `None` when the bytes are not exactly one frame.
pub fn split_frame(bytes: &Vec<u8>) -> (r: Option<Vec<u8>>)
    ensures
        r is Some <==> bytes.len() >= 4 && bytes.len() == 4 + read_be32(bytes@, 0),
        r matches Some(p) ==> p@ == bytes@.subrange(4, bytes.len() as int),
{
    if bytes.len() < 4 {
        return None;
    }
    let n = read_u32(bytes, 0) as usize;
    if bytes.len() - 4 != n {
        return None;
    }
    let mut out: Vec<u8> = Vec::new();
    let mut i: usize = 4;
    while i < bytes.len()
        invariant
            4 <= i <= bytes.len(),
            out@ == bytes@.subrange(4, i as int),
        decreases bytes.len() - i,
    {
        out.push(bytes[i]);
        i = i + 1;
        assert(out@ =~= bytes@.subrange(4, i as int));
    }
    Some(out)
}

/// Splitting a frame gives back the payload it was made from.
pub proof fn lemma_frame_round_trip(payload: Seq<u8>)
    requires
        payload.len() <= u32::MAX,
    ensures
        ({
            let f = be32(payload.len() as u32) + payload;
            &&& f.len() == 4 + read_be32(f, 0)
            &&& f.subrange(4, f.len() as int) == payload
        }),
{
    let f = be32(payload.len() as u32) + payload;
    lemma_be32(payload.len() as u32);
    assert(read_be32(f, 0) == read_be32(be32(payload.len() as u32), 0)) by {
        assert(f[0] == be32(payload.len() as u32)[0]);
        assert(f[1] == be32(payload.len() as u32)[1]);
        assert(f[2] == be32(payload.len() as u32)[2]);
        assert(f[3] == be32(payload.len() as u32)[3]);
    }
    assert(f.subrange(4, f.len() as int) =~= payload);
}

fn put_status(out: &mut Vec<u8>, st: &ServiceStatus) -> (ok: bool)
    ensures
        ok == status_fits(st@),
        ok ==> final(out)@ == old(out)@ + status_bytes(st@),
{
    if !put_str(out, st.name.as_str()) {
        return false;
    }
    if !put_str(out, st.state.as_str()) {
        return false;
    }
    match st.pid {
        Some(p) => {
            out.push(1u8);
            put_u32(out, p);
        },
        None => {
            out.push(0u8);
        },
    }
    out.push(if st.enabled { 1u8 } else { 0u8 });
    put_u32(out, st.restart_count);
    assert(final(out)@ =~= old(out)@ + status_bytes(st@));
    true
}

/// Encodes a response payload; `None` when a string or a list is too long
/// for the encoding.
pub fn encode_response(r: &IpcResponse) -> (b: Option<Vec<u8>>)
    ensures
        b is Some <==> response_fits(r@),
        b matches Some(v) ==> v@ == response_bytes(r@),
{
    let mut out: Vec<u8> = Vec::new();
    match r {
        IpcResponse::Success { message } => {
            out.push(0u8);
            if !put_str(&mut out, message.as_str()) {
                return None;
            }
        },
        IpcResponse::Error { message } => {
            out.push(1u8);
            if !put_str(&mut out, message.as_str()) {
                return None;
            }
        },
        IpcResponse::Status { services } => {
            out.push(2u8);
            if services.len() > 0xffff_ffffusize {
                return None;
            }
            put_u32(&mut out, services.len() as u32);
            let ghost head = out@;
            let ghost sv = status_views(services@);
            assert(r@ == ResponseView::Status(sv));
            let mut i: usize = 0;
            while i < services.len()
                invariant
                    i <= services.len(),
                    sv == status_views(services@),
                    r@ == ResponseView::Status(sv),
                    out@ == head + statuses_bytes(sv.subrange(0, i as int)),
                    forall|k: int| 0 <= k < i ==> status_fits(#[trigger] sv[k]),
                decreases services.len() - i,
            {
                if !put_status(&mut out, &services[i]) {
                    assert(!status_fits(sv[i as int]));
                    assert(r@ == ResponseView::Status(sv));
                    assert(!response_fits(r@));
                    return None;
                }
                assert(sv.subrange(0, i + 1).drop_last() =~= sv.subrange(0, i as int));
                i = i + 1;
            }
            assert(sv.subrange(0, services.len() as int) =~= sv);
        },
        IpcResponse::ServiceList { services } => {
            out.push(3u8);
            if services.len() > 0xffff_ffffusize {
                return None;
            }
            put_u32(&mut out, services.len() as u32);
            let ghost head = out@;
            let ghost sv = views(services@);
            assert(r@ == ResponseView::ServiceList(sv));
            let mut i: usize = 0;
            while i < services.len()
                invariant
                    i <= services.len(),
                    sv == views(services@),
                    r@ == ResponseView::ServiceList(sv),
                    out@ == head + strs_bytes(sv.subrange(0, i as int)),
                    forall|k: int| 0 <= k < i ==> str_fits(#[trigger] sv[k]),
                decreases services.len() - i,
            {
                if !put_str(&mut out, services[i].as_str()) {
                    assert(!str_fits(sv[i as int]));
                    assert(r@ == ResponseView::ServiceList(sv));
                    assert(!response_fits(r@));
                    return None;
                }
                assert(sv.subrange(0, i + 1).drop_last() =~= sv.subrange(0, i as int));
                i = i + 1;
            }
            assert(sv.subrange(0, services.len() as int) =~= sv);
        },
    }
    assert(out@ =~= response_bytes(r@));
    Some(out)
}

fn read_status(b: &Vec<u8>, pos: usize) -> (r: Option<(ServiceStatus, usize)>)
    ensures
        match parse_status(b@, pos as int) {
            Some((st, end)) => r matches Some((x, e)) && x@ == st && e == end,
            None => r is None,
        },
{
    let (name, p1) = match read_str(b, pos) {
        Some(x) => x,
        None => {
            return None;
        },
    };
    let (state, p2) = match read_str(b, p1) {
        Some(x) => x,
        None => {
            return None;
        },
    };
    let (pid, p3): (Option<u32>, usize) = if p2 < b.len() && b[p2] == 0 {
        (None, p2 + 1)
    } else if p2 < b.len() && b.len() - p2 >= 5 && b[p2] == 1 {
        (Some(read_u32(b, p2 + 1)), p2 + 5)
    } else {
        return None;
    };
    if p3 > b.len() || b.len() - p3 < 5 || b[p3] > 1 {
        return None;
    }
    let st = ServiceStatus {
        name,
        state,
        pid,
        enabled: b[p3] == 1,
        restart_count: read_u32(b, p3 + 1),
    };
    Some((st, p3 + 5))
}

/// Decodes a response payload; `None` when the bytes encode no response.
pub fn decode_response(b: &Vec<u8>) -> (r: Option<IpcResponse>)
    ensures
        match parse_response(b@) {
            Some(v) => r matches Some(q) && q@ == v,
            None => r is None,
        },
{
    if b.len() == 0 {
        return None;
    }
    let tag = b[0];
    if tag == 0 || tag == 1 {
        return match read_str(b, 1) {
            Some((m, end)) => if end != b.len() {
                None
            } else if tag == 0 {
                Some(IpcResponse::Success { message: m })
            } else {
                Some(IpcResponse::Error { message: m })
            },
            None => None,
        };
    }
    if (tag != 2 && tag != 3) || b.len() < 5 {
        return None;
    }
    let count = read_u32(b, 1);
    let mut pos: usize = 5;
    let mut i: u32 = 0;
    if tag == 2 {
        let mut items: Vec<ServiceStatus> = Vec::new();
        while i < count
            invariant
                i <= count,
                count == read_be32(b@, 1),
                b.len() >= 5,
                b@[0] == tag,
                tag == 2,
                parse_statuses(b@, 5, i as nat) == Some((status_views(items@), pos as int)),
            decreases count - i,
        {
            match read_status(b, pos) {
                Some((st, end)) => {
                    let ghost prev = items@;
                    items.push(st);
                    assert(status_views(items@) =~= status_views(prev).push(st@));
                    pos = end;
                },
                None => {
                    assert(parse_statuses(b@, 5, (i + 1) as nat) is None);
                    assert(parse_statuses(b@, 5, count as nat) is None) by {
                        lemma_statuses_fail(b@, (i + 1) as nat, count as nat);
                    }
                    assert(parse_response(b@) is None);
                    return None;
                },
            }
            i = i + 1;
        }
        if pos != b.len() {
            return None;
        }
        Some(IpcResponse::Status { services: items })
    } else {
        let mut items: Vec<String> = Vec::new();
        while i < count
            invariant
                i <= count,
                count == read_be32(b@, 1),
                b.len() >= 5,
                b@[0] == tag,
                tag == 3,
                parse_strs(b@, 5, i as nat) == Some((views(items@), pos as int)),
            decreases count - i,
        {
            match read_str(b, pos) {
                Some((x, end)) => {
                    let ghost prev = items@;
                    items.push(x);
                    assert(views(items@) =~= views(prev).push(x@));
                    pos = end;
                },
                None => {
                    assert(parse_strs(b@, 5, (i + 1) as nat) is None);
                    assert(parse_strs(b@, 5, count as nat) is None) by {
                        lemma_strs_fail(b@, (i + 1) as nat, count as nat);
                    }
                    assert(parse_response(b@) is None);
                    return None;
                },
            }
            i = i + 1;
        }
        if pos != b.len() {
            return None;
        }
        Some(IpcResponse::ServiceList { services: items })
    }
}

proof fn lemma_statuses_fail(b: Seq<u8>, i: nat, count: nat)
    requires
        i <= count,
        parse_statuses(b, 5, i) is None,
    ensures
        parse_statuses(b, 5, count) is None,
    decreases count - i,
{
    if i < count {
        lemma_statuses_fail(b, i + 1, count);
    }
}

proof fn lemma_strs_fail(b: Seq<u8>, i: nat, count: nat)
    requires
        i <= count,
        parse_strs(b, 5, i) is None,
    ensures
        parse_strs(b, 5, count) is None,
    decreases count - i,
{
    if i < count {
        lemma_strs_fail(b, i + 1, count);
    }
}

/// Four big-endian bytes are read back, whatever surrounds them.
proof fn lemma_read_be32_at(pre: Seq<u8>, n: u32, post: Seq<u8>)
    ensures
        read_be32(pre + be32(n) + post, pre.len() as int) == n,
{
    let b = pre + be32(n) + post;
    let p = pre.len() as int;
    lemma_be32(n);
    assert(b[p] == be32(n)[0]);
    assert(b[p + 1] == be32(n)[1]);
    assert(b[p + 2] == be32(n)[2]);
    assert(b[p + 3] == be32(n)[3]);
}

/// A status entry is read back from its encoding, whatever surrounds it.
#[verifier::rlimit(100)]
proof fn lemma_parse_status(pre: Seq<u8>, st: StatusView, post: Seq<u8>)
    requires
        status_fits(st),
    ensures
        parse_status(pre + status_bytes(st) + post, pre.len() as int) == Some(
            (st, (pre.len() + status_bytes(st).len()) as int),
        ),
{
    let b = pre + status_bytes(st) + post;
    let en: u8 = if st.enabled { 1u8 } else { 0u8 };
    let tail = pid_bytes(st.pid) + seq![en] + be32(st.restart_count) + post;
    assert(b =~= pre + str_bytes(st.name) + (str_bytes(st.state) + tail));
    lemma_parse_str(pre, st.name, str_bytes(st.state) + tail);
    let p1 = (pre.len() + str_bytes(st.name).len()) as int;
    assert(b =~= (pre + str_bytes(st.name)) + str_bytes(st.state) + tail);
    lemma_parse_str(pre + str_bytes(st.name), st.state, tail);
    let p2 = p1 + str_bytes(st.state).len();
    let head = pre + str_bytes(st.name) + str_bytes(st.state);
    assert(head.len() == p2);
    let p3 = match st.pid {
        None => p2 + 1,
        Some(x) => p2 + 5,
    };
    match st.pid {
        None => {
            assert(b[p2] == 0);
        },
        Some(x) => {
            assert(b =~= (head + seq![1u8]) + be32(x) + (seq![en] + be32(st.restart_count) + post));
            lemma_read_be32_at(head + seq![1u8], x, seq![en] + be32(st.restart_count) + post);
            assert(b[p2] == 1);
        },
    }
    assert(parse_pid(b, p2) == Some((st.pid, p3)));
    let head3 = head + pid_bytes(st.pid);
    assert(head3.len() == p3);
    assert(b =~= (head3 + seq![en]) + be32(st.restart_count) + post);
    lemma_read_be32_at(head3 + seq![en], st.restart_count, post);
    assert(b[p3] == en);
    assert(status_bytes(st).len() == p3 + 5 - pre.len());
}

/// A list of status entries is read back from its encoding.
#[verifier::rlimit(100)]
proof fn lemma_parse_statuses(pre: Seq<u8>, v: Seq<StatusView>, post: Seq<u8>)
    requires
        forall|k: int| 0 <= k < v.len() ==> status_fits(#[trigger] v[k]),
    ensures
        parse_statuses(pre + statuses_bytes(v) + post, pre.len() as int, v.len()) == Some(
            (v, (pre.len() + statuses_bytes(v).len()) as int),
        ),
    decreases v.len(),
{
    if v.len() == 0 {
        assert(v =~= Seq::<StatusView>::empty());
    } else {
        let init = v.drop_last();
        let last = v.last();
        let b = pre + statuses_bytes(v) + post;
        assert(b =~= pre + statuses_bytes(init) + (status_bytes(last) + post));
        lemma_parse_statuses(pre, init, status_bytes(last) + post);
        assert(b =~= (pre + statuses_bytes(init)) + status_bytes(last) + post);
        assert(status_fits(v[v.len() - 1]));
        lemma_parse_status(pre + statuses_bytes(init), last, post);
        assert(init.push(last) =~= v);
    }
}

/// A list of strings is read back from its encoding.
proof fn lemma_parse_strs(pre: Seq<u8>, v: Seq<Seq<char>>, post: Seq<u8>)
    requires
        forall|k: int| 0 <= k < v.len() ==> str_fits(#[trigger] v[k]),
    ensures
        parse_strs(pre + strs_bytes(v) + post, pre.len() as int, v.len()) == Some(
            (v, (pre.len() + strs_bytes(v).len()) as int),
        ),
    decreases v.len(),
{
    if v.len() == 0 {
        assert(v =~= Seq::<Seq<char>>::empty());
    } else {
        let init = v.drop_last();
        let last = v.last();
        let b = pre + strs_bytes(v) + post;
        assert(b =~= pre + strs_bytes(init) + (str_bytes(last) + post));
        lemma_parse_strs(pre, init, str_bytes(last) + post);
        assert(b =~= (pre + strs_bytes(init)) + str_bytes(last) + post);
        assert(str_fits(v[v.len() - 1]));
        lemma_parse_str(pre + strs_bytes(init), last, post);
        assert(init.push(last) =~= v);
    }
}

/// Decoding the encoding of a response gives the response back.
pub proof fn lemma_response_round_trip(r: ResponseView)
    requires
        response_fits(r),
    ensures
        parse_response(response_bytes(r)) == Some(r),
{
    let e = Seq::<u8>::empty();
    match r {
        ResponseView::Success(m) => {
            lemma_parse_str(seq![0u8], m, e);
            assert(seq![0u8] + str_bytes(m) + e =~= response_bytes(r));
        },
        ResponseView::Error(m) => {
            lemma_parse_str(seq![1u8], m, e);
            assert(seq![1u8] + str_bytes(m) + e =~= response_bytes(r));
        },
        ResponseView::Status(v) => {
            let head = seq![2u8] + be32(v.len() as u32);
            lemma_be32(v.len() as u32);
            lemma_parse_statuses(head, v, e);
            assert(head + statuses_bytes(v) + e =~= response_bytes(r));
            lemma_read_be32_at(seq![2u8], v.len() as u32, statuses_bytes(v));
            assert(seq![2u8] + be32(v.len() as u32) + statuses_bytes(v) =~= response_bytes(r));
        },
        ResponseView::ServiceList(v) => {
            let head = seq![3u8] + be32(v.len() as u32);
            lemma_be32(v.len() as u32);
            lemma_parse_strs(head, v, e);
            assert(head + strs_bytes(v) + e =~= response_bytes(r));
            lemma_read_be32_at(seq![3u8], v.len() as u32, strs_bytes(v));
            assert(seq![3u8] + be32(v.len() as u32) + strs_bytes(v) =~= response_bytes(r));
        },
    }
}

} // verus!
