//! Decisions about incoming connections and streams: the negotiated
//! protocol, the route of a request, the admission of a VLESS header, the
//! pacing of outgoing data, and the text of a destination.

use vstd::prelude::*;

use crate::net::{ip_text, ip_to_string};
use crate::settings::{contains_id, contains_str, Config, ConfigView};
use crate::file_config::opt_view;
use crate::text::{ascii_lower, decimal, decimal_string, to_ascii_lowercase};
use crate::vless::{
    lemma_decision_is_final, parse_header, spec_parse_header, DestAddr,
    Destination, Header, HeaderParse, HeaderView, VlessError,
};

verus! {

broadcast use vstd::string::group_string_axioms;

/// Whether the protocol negotiated by ALPN is `h2`: its bytes, read as
/// UTF-8 with invalid sequences replaced, must be exactly `h2`; that holds
/// of the two bytes `h`, `2` and of nothing else.
pub open spec fn spec_alpn_is_h2(alpn: Option<Seq<u8>>) -> bool {
    alpn == Some(seq![0x68u8, 0x32u8])
}

/// Whether the connection negotiated HTTP/2.
pub fn alpn_is_h2(alpn: Option<&[u8]>) -> (r: bool)
    ensures
        r == spec_alpn_is_h2(
            match alpn {
                Some(p) => Some(p@),
                None => None,
            },
        ),
{
    match alpn {
        None => false,
        Some(p) => {
            if p.len() == 2 && p[0] == 0x68 && p[1] == 0x32 {
                assert(p@ =~= seq![0x68u8, 0x32u8]);
                true
            } else {
                false
            }
        },
    }
}

/// The authority of a request in lower case: that of the URI if it has one,
/// else the `Host` header (when it is visible ASCII text), else none.
pub open spec fn spec_authority(uri_authority: Option<Seq<char>>, host_header: Option<Seq<char>>) -> Option<
    Seq<char>,
> {
    match uri_authority {
        Some(a) => Some(ascii_lower(a)),
        None => match host_header {
            Some(h) => Some(ascii_lower(h)),
            None => None,
        },
    }
}

/// The authority of a request in lower case.
pub fn authority_of(uri_authority: Option<&str>, host_header: Option<&str>) -> (r: Option<String>)
    ensures
        opt_view(r) == spec_authority(
            match uri_authority {
                Some(a) => Some(a@),
                None => None,
            },
            match host_header {
                Some(h) => Some(h@),
                None => None,
            },
        ),
{
    match uri_authority {
        Some(a) => Some(to_ascii_lowercase(a)),
        None => match host_header {
            Some(h) => Some(to_ascii_lowercase(h)),
            None => None,
        },
    }
}

/// Where a request stream goes.
#[derive(Clone, Copy, Debug, PartialEq, Eq)]
pub enum StreamRoute {
    /// Answer it as a subscription request.
    Subscription,
    /// Answer with this status and end the stream.
    Reject { status: u16 },
    /// Accept it (status 200) and read a VLESS header from it.
    Proxy,
}

/// The route of a request: a `GET` of the subscription path is a
/// subscription request; any other path than the proxy path gets 404; a
/// request without an allowed (lower-case) authority gets 421; the rest is
/// proxied.
pub open spec fn spec_route(c: ConfigView, is_get: bool, path: Seq<char>, authority: Option<Seq<char>>) -> StreamRoute {
    if is_get && c.sub_path == Some(path) {
        StreamRoute::Subscription
    } else if path != c.path {
        StreamRoute::Reject { status: 404 }
    } else if !(authority matches Some(a) && c.hosts.contains(a)) {
        StreamRoute::Reject { status: 421 }
    } else {
        StreamRoute::Proxy
    }
}

/// Whether the request names an allowed authority.
pub open spec fn authority_allowed(c: ConfigView, authority: Option<Seq<char>>) -> bool {
    authority matches Some(a) && c.hosts.contains(a)
}

/// What each route requires of the request: only a `GET` of the
/// subscription path is a subscription request; a request is proxied only
/// on exactly the proxy path and with an allowed authority; any other path
/// gets 404, and the proxy path without an allowed authority gets 421.
pub proof fn lemma_route(c: ConfigView, is_get: bool, path: Seq<char>, authority: Option<Seq<char>>)
    ensures
        (spec_route(c, is_get, path, authority) == StreamRoute::Subscription) == (is_get && c.sub_path
            == Some(path)),
        spec_route(c, is_get, path, authority) == StreamRoute::Proxy ==> path == c.path
            && authority_allowed(c, authority),
        !(is_get && c.sub_path == Some(path)) && path != c.path ==> spec_route(c, is_get, path, authority)
            == (StreamRoute::Reject { status: 404 }),
        !(is_get && c.sub_path == Some(path)) && path == c.path && !authority_allowed(c, authority)
            ==> spec_route(c, is_get, path, authority) == (StreamRoute::Reject { status: 421 }),
        !(is_get && c.sub_path == Some(path)) && path == c.path && authority_allowed(c, authority)
            ==> spec_route(c, is_get, path, authority) == StreamRoute::Proxy,
{
}

/// Routes a request stream with the given method, path and (lower-case)
/// authority.
pub fn route_stream(cfg: &Config, is_get: bool, path: &str, authority: &Option<String>) -> (r: StreamRoute)
    ensures
        r == spec_route(cfg@, is_get, path@, opt_view(*authority)),
        r == StreamRoute::Proxy ==> path@ == cfg@.path,
{
    proof {
        lemma_route(cfg@, is_get, path@, opt_view(*authority));
    }
    let p = path.to_owned();
    if is_get {
        if let Some(sp) = &cfg.sub_path {
            if *sp == p {
                return StreamRoute::Subscription;
            }
        }
    }
    if !(cfg.path == p) {
        return StreamRoute::Reject { status: 404 };
    }
    match authority {
        None => StreamRoute::Reject { status: 421 },
        Some(a) => if contains_str(&cfg.hosts, a) {
            StreamRoute::Proxy
        } else {
            StreamRoute::Reject { status: 421 }
        },
    }
}

/// What to do with a stream once its VLESS header is read.
#[derive(Clone, Copy, Debug, PartialEq, Eq)]
pub enum HeaderVerdict {
    /// The command is not TCP (1): reset with `PROTOCOL_ERROR`.
    UnsupportedCommand,
    /// The user id is not accepted: reset with `REFUSED_STREAM`.
    UnknownUser,
    /// Connect to the destination.
    Connect,
}

/// The command byte of a TCP request.
pub const COMMAND_TCP: u8 = 0x01;

/// The verdict on a header: only TCP requests of accepted users connect.
pub open spec fn spec_verdict(c: ConfigView, command: u8, user_id: Seq<u8>) -> HeaderVerdict {
    if command != COMMAND_TCP {
        HeaderVerdict::UnsupportedCommand
    } else if !c.users.contains(user_id) {
        HeaderVerdict::UnknownUser
    } else {
        HeaderVerdict::Connect
    }
}

/// Only TCP requests of configured users connect; any other command is a
/// protocol error whoever sends it, and a TCP request of anyone else is
/// refused.
pub proof fn lemma_verdict(c: ConfigView, command: u8, user_id: Seq<u8>)
    ensures
        (spec_verdict(c, command, user_id) == HeaderVerdict::Connect) == (command == 1
            && c.users.contains(user_id)),
        (spec_verdict(c, command, user_id) == HeaderVerdict::UnsupportedCommand) == (command != 1),
        (spec_verdict(c, command, user_id) == HeaderVerdict::UnknownUser) == (command == 1
            && !c.users.contains(user_id)),
{
}

/// Decides what to do with a stream whose header is `h`.
pub fn check_header(cfg: &Config, h: &Header) -> (r: HeaderVerdict)
    ensures
        r == spec_verdict(cfg@, h.command, h.user_id@),
{
    if h.command != COMMAND_TCP {
        HeaderVerdict::UnsupportedCommand
    } else if !contains_id(&cfg.users, &h.user_id) {
        HeaderVerdict::UnknownUser
    } else {
        HeaderVerdict::Connect
    }
}

/// The two bytes that open the response stream: the request's version and
/// an empty add-ons length.
pub fn response_prefix(h: &Header) -> (r: [u8; 2])
    ensures
        r@ == seq![h.version, 0u8],
{
    let r = [h.version, 0u8];
    assert(r@ =~= seq![h.version, 0u8]);
    r
}

/// One step of connecting to the addresses that a name resolved to.
#[derive(Clone, Copy, Debug, PartialEq, Eq)]
pub enum ConnectStep {
    /// Try the address at this position.
    Try { index: usize },
    /// The last attempt connected: use that stream.
    Connected,
    /// Every address was tried and failed: report the last failure.
    FailLast,
    /// The name resolved to no address at all.
    NoAddress,
}

/// The next step after `tried` of the `addrs` addresses were tried, in order,
/// `connected` telling whether the last attempt succeeded: stop at the first
/// success, else try the next address, else give up.
pub open spec fn spec_connect_step(addrs: usize, tried: usize, connected: bool) -> ConnectStep {
    if tried > 0 && connected {
        ConnectStep::Connected
    } else if tried < addrs {
        ConnectStep::Try { index: tried }
    } else if addrs == 0 {
        ConnectStep::NoAddress
    } else {
        ConnectStep::FailLast
    }
}

/// The next step of connecting to `addrs` resolved addresses, after `tried`
/// attempts of which the last one `connected` or not.
pub fn next_connect_step(addrs: usize, tried: usize, connected: bool) -> (r: ConnectStep)
    requires
        tried <= addrs,
    ensures
        r == spec_connect_step(addrs, tried, connected),
        r matches ConnectStep::Try { index } ==> index < addrs,
{
    if tried > 0 && connected {
        ConnectStep::Connected
    } else if tried < addrs {
        ConnectStep::Try { index: tried }
    } else if addrs == 0 {
        ConnectStep::NoAddress
    } else {
        ConnectStep::FailLast
    }
}

/// One step of sending a buffer over a flow-controlled stream.
#[derive(Clone, Copy, Debug, PartialEq, Eq)]
pub enum SendStep {
    /// Nothing is left to send.
    Done,
    /// No capacity: reserve this much and wait for capacity.
    Wait { reserve: usize },
    /// Send this many bytes from the front; `end_stream` on the last chunk
    /// when the stream is to end.
    Send { len: usize, end_stream: bool },
}

/// The next step with `remaining` bytes left and `capacity` bytes of window:
/// as much as the window allows, ending the stream with the last chunk when
/// `end` is asked for.
pub open spec fn spec_send_step(remaining: usize, capacity: usize, end: bool) -> SendStep {
    if remaining == 0 {
        SendStep::Done
    } else if capacity == 0 {
        SendStep::Wait { reserve: remaining }
    } else {
        let n = if capacity < remaining {
            capacity
        } else {
            remaining
        };
        SendStep::Send { len: n, end_stream: end && n == remaining }
    }
}

/// The next step of sending `remaining` bytes with `capacity` bytes of window.
pub fn next_send_step(remaining: usize, capacity: usize, end: bool) -> (r: SendStep)
    ensures
        r == spec_send_step(remaining, capacity, end),
        r matches SendStep::Send { len, end_stream } ==> 0 < len <= remaining && len <= capacity
            && (end_stream ==> end && len == remaining),
{
    if remaining == 0 {
        SendStep::Done
    } else if capacity == 0 {
        SendStep::Wait { reserve: remaining }
    } else {
        let n = if capacity < remaining {
            capacity
        } else {
            remaining
        };
        SendStep::Send { len: n, end_stream: end && n == remaining }
    }
}

/// The chunks sent by following `next_send_step` from `remaining` bytes
/// while the stream offers the capacities `caps` in turn (a zero capacity
/// only makes the sender wait), as (length, end of stream) pairs.
pub open spec fn chunks_sent(remaining: usize, caps: Seq<usize>, end: bool) -> Seq<(usize, bool)>
    decreases caps.len(),
{
    if caps.len() == 0 {
        Seq::empty()
    } else {
        match spec_send_step(remaining, caps[0], end) {
            SendStep::Done => Seq::empty(),
            SendStep::Wait { .. } => chunks_sent(remaining, caps.drop_first(), end),
            SendStep::Send { len, end_stream } => seq![(len, end_stream)] + chunks_sent(
                (remaining - len) as usize,
                caps.drop_first(),
                end,
            ),
        }
    }
}

/// Total length of chunks.
pub open spec fn chunks_len(c: Seq<(usize, bool)>) -> nat
    decreases c.len(),
{
    if c.len() == 0 {
        0
    } else {
        c[0].0 as nat + chunks_len(c.drop_first())
    }
}

/// The sum of the capacities offered.
pub open spec fn total(caps: Seq<usize>) -> nat
    decreases caps.len(),
{
    if caps.len() == 0 {
        0
    } else {
        caps[0] as nat + total(caps.drop_first())
    }
}

/// Sending never sends more than the buffer and, once the capacities
/// offered add up to the buffer, has sent all of it; only the final chunk
/// may end the stream, and it does exactly when the end was asked for.
pub proof fn lemma_send_steps_deliver(remaining: usize, caps: Seq<usize>, end: bool)
    ensures
        chunks_len(chunks_sent(remaining, caps, end)) <= remaining,
        total(caps) >= remaining ==> chunks_len(chunks_sent(remaining, caps, end)) == remaining,
        forall|i: int|
            #![trigger chunks_sent(remaining, caps, end)[i]]
            0 <= i < chunks_sent(remaining, caps, end).len() - 1 ==> !chunks_sent(remaining, caps, end)[i].1,
        chunks_sent(remaining, caps, end).len() > 0 && chunks_len(chunks_sent(remaining, caps, end))
            == remaining ==> chunks_sent(remaining, caps, end).last().1 == end,
    decreases caps.len(),
{
    if caps.len() > 0 {
        let rest = caps.drop_first();
        match spec_send_step(remaining, caps[0], end) {
            SendStep::Done => {},
            SendStep::Wait { .. } => {
                lemma_send_steps_deliver(remaining, rest, end);
            },
            SendStep::Send { len, end_stream } => {
                let r = (remaining - len) as usize;
                lemma_send_steps_deliver(r, rest, end);
                let tail = chunks_sent(r, rest, end);
                let all = seq![(len, end_stream)] + tail;
                assert(all.drop_first() =~= tail);
                if tail.len() > 0 {
                    assert(all.last() == tail.last());
                    assert forall|i: int| 0 <= i < all.len() - 1 implies !#[trigger] all[i].1 by {
                        if i > 0 {
                            assert(all[i] == tail[i - 1]);
                        } else {
                            lemma_chunks_nonempty_means_more(r, rest, end);
                        }
                    }
                }
            },
        }
    }
}

/// Chunks after a first one mean the first did not empty the buffer.
proof fn lemma_chunks_nonempty_means_more(remaining: usize, caps: Seq<usize>, end: bool)
    requires
        chunks_sent(remaining, caps, end).len() > 0,
    ensures
        remaining > 0,
    decreases caps.len(),
{
    if caps.len() > 0 {
        match spec_send_step(remaining, caps[0], end) {
            SendStep::Wait { .. } => lemma_chunks_nonempty_means_more(remaining, caps.drop_first(), end),
            _ => {},
        }
    }
}

/// The text of a destination, `address:port`: a domain name as it is, an
/// IP address as its `Display` writes it (IPv6 without brackets).
pub open spec fn spec_dest_text(d: Destination) -> Seq<char> {
    match d.address {
        DestAddr::Ip(ip) => ip_text(ip) + seq![':'] + decimal(d.port as nat),
        DestAddr::Domain(name) => name@ + seq![':'] + decimal(d.port as nat),
    }
}

/// The text of a destination, for logging.
pub fn dest_to_string(dest: &Destination) -> (r: String)
    ensures
        r@ == spec_dest_text(*dest),
{
    let colon = ":";
    proof {
        reveal_strlit(":");
    }
    let mut s = match &dest.address {
        DestAddr::Ip(ip) => ip_to_string(ip),
        DestAddr::Domain(name) => name.clone(),
    };
    s.append(colon);
    let port = decimal_string(dest.port as u64);
    s.append(port.as_str());
    s
}

/// Why a proxied stream is reset.
#[derive(Clone, Copy, Debug, PartialEq, Eq)]
pub enum ResetReason {
    /// `PROTOCOL_ERROR`: an unsupported command.
    ProtocolError,
    /// `REFUSED_STREAM`: a user id that is not accepted.
    RefusedStream,
    /// `INTERNAL_ERROR`: the destination could not be reached.
    InternalError,
}

/// What to do with the bytes received so far on a proxied stream.
#[derive(Clone, Debug, PartialEq, Eq)]
pub enum Admission {
    /// Read more bytes.
    NeedMore,
    /// The header is malformed: reset the stream with `PROTOCOL_ERROR`.
    Malformed { error: VlessError },
    /// Reset the stream.
    Reject { reason: ResetReason },
    /// Connect to the header's destination, answer with `reply`, and relay
    /// the bytes after the first `consumed` ones.
    Connect { header: Header, consumed: usize, reply: [u8; 2] },
}

/// Mathematical view of an `Admission`.
pub enum AdmissionView {
    NeedMore,
    Malformed(VlessError),
    Reject(ResetReason),
    Connect(HeaderView, nat, Seq<u8>),
}

impl View for Admission {
    type V = AdmissionView;

    open spec fn view(&self) -> AdmissionView {
        match *self {
            Admission::NeedMore => AdmissionView::NeedMore,
            Admission::Malformed { error } => AdmissionView::Malformed(error),
            Admission::Reject { reason } => AdmissionView::Reject(reason),
            Admission::Connect { header, consumed, reply } => AdmissionView::Connect(
                header@,
                consumed as nat,
                reply@,
            ),
        }
    }
}

/// The decision on the bytes `b` received so far: wait for a whole header;
/// reset on a malformed one (`PROTOCOL_ERROR`, with the parser's error), on
/// a command other than TCP
/// (`PROTOCOL_ERROR`) or on an unknown user (`REFUSED_STREAM`); otherwise
/// connect.
pub open spec fn spec_admission(c: ConfigView, b: Seq<u8>) -> AdmissionView {
    match spec_parse_header(b) {
        HeaderParse::Incomplete => AdmissionView::NeedMore,
        HeaderParse::Failed(e) => AdmissionView::Malformed(e),
        HeaderParse::Complete(h, n) => match spec_verdict(c, h.command, h.user_id) {
            HeaderVerdict::UnsupportedCommand => AdmissionView::Reject(ResetReason::ProtocolError),
            HeaderVerdict::UnknownUser => AdmissionView::Reject(ResetReason::RefusedStream),
            HeaderVerdict::Connect => AdmissionView::Connect(h, n, seq![h.version, 0u8]),
        },
    }
}

/// Decides what to do with the bytes `b` received so far on a proxied stream.
pub fn decide_admission(cfg: &Config, b: &[u8]) -> (r: Admission)
    ensures
        r@ == spec_admission(cfg@, b@),
{
    match parse_header(b) {
        Ok(None) => Admission::NeedMore,
        Err(error) => Admission::Malformed { error },
        Ok(Some((header, consumed))) => match check_header(cfg, &header) {
            HeaderVerdict::UnsupportedCommand => Admission::Reject { reason: ResetReason::ProtocolError },
            HeaderVerdict::UnknownUser => Admission::Reject { reason: ResetReason::RefusedStream },
            HeaderVerdict::Connect => {
                let reply = response_prefix(&header);
                Admission::Connect { header, consumed, reply }
            },
        },
    }
}

/// Once the bytes have been accepted or rejected, more bytes do not change the
/// decision: the stream reader stops at the first decision.
pub proof fn lemma_admission_is_final(c: ConfigView, b: Seq<u8>, extra: Seq<u8>)
    requires
        !(spec_admission(c, b) is NeedMore),
    ensures
        spec_admission(c, b + extra) == spec_admission(c, b),
{
    lemma_decision_is_final(b, extra);
}

/// A stream is let through only for a complete header whose command byte
/// is TCP and whose user id, bytes 1..17 of the stream, is configured; the
/// reply is the version byte and a zero. A complete header of an unknown
/// user with the TCP command is refused, and any other command is a
/// protocol error.
pub proof fn lemma_admission(c: ConfigView, b: Seq<u8>)
    ensures
        spec_admission(c, b) matches AdmissionView::Connect(h, n, reply) ==> {
            &&& c.users.contains(b.subrange(1, 17))
            &&& h.user_id == b.subrange(1, 17)
            &&& b[18 + b[17] as int] == 1
            &&& reply == seq![b[0], 0u8]
            &&& n <= b.len()
        },
        spec_admission(c, b) == AdmissionView::Reject(ResetReason::RefusedStream) ==> spec_parse_header(
            b,
        ) is Complete && b[18 + b[17] as int] == 1 && !c.users.contains(b.subrange(1, 17)),
        spec_admission(c, b) == AdmissionView::Reject(ResetReason::ProtocolError) ==> spec_parse_header(
            b,
        ) is Complete && b[18 + b[17] as int] != 1,
        spec_parse_header(b) is Complete ==> (spec_admission(c, b) is Connect) == (b[18 + b[17] as int] == 1
            && c.users.contains(b.subrange(1, 17))),
{
    crate::vless::lemma_header_fields(b);
}

} // verus!
