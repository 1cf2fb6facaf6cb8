//! The VLESS request header: version, user id, add-ons, command, port,
//! address type and address.

use vstd::prelude::*;
use vstd::slice::slice_subrange;
use vstd::utf8::{decode_utf8, valid_utf8};

use bytes::BytesMut;

use crate::net::{IpAddr, Ipv4Addr, Ipv6Addr};

verus! {

/// Address type byte of an IPv4 destination.
pub const ADDR_TYPE_IPV4: u8 = 0x01;
/// Address type byte of a domain-name destination.
pub const ADDR_TYPE_DOMAIN: u8 = 0x02;
/// Address type byte of an IPv6 destination.
pub const ADDR_TYPE_IPV6: u8 = 0x03;

/// Where the client asks to be connected.
#[derive(Clone, Debug, PartialEq, Eq)]
pub enum DestAddr {
    Ip(IpAddr),
    Domain(String),
}

/// Destination address and port.
#[derive(Clone, Debug, PartialEq, Eq)]
pub struct Destination {
    pub address: DestAddr,
    pub port: u16,
}

/// A parsed VLESS request header.
#[derive(Clone, Debug, PartialEq, Eq)]
pub struct Header {
    pub version: u8,
    pub user_id: [u8; 16],
    pub command: u8,
    pub destination: Destination,
}

/// Why a complete header was refused.
#[derive(Clone, Copy, Debug, PartialEq, Eq)]
pub enum VlessError {
    /// The domain name bytes are not UTF-8.
    InvalidDomainUtf8,
    /// The address type byte is none of the three known ones.
    UnknownAddrType(u8),
}

/// Mathematical view of a destination address.
pub enum AddrView {
    V4(Seq<u8>),
    V6(Seq<u8>),
    Domain(Seq<char>),
}

/// Mathematical view of a header.
pub struct HeaderView {
    pub version: u8,
    pub user_id: Seq<u8>,
    pub command: u8,
    pub address: AddrView,
    pub port: u16,
}

/// What the header grammar makes of a buffer.
pub enum HeaderParse {
    /// More bytes are needed before anything can be decided.
    Incomplete,
    /// The bytes seen so far can never form a header.
    Failed(VlessError),
    /// A header, and the number of bytes it occupies at the start of the buffer.
    Complete(HeaderView, nat),
}

impl DestAddr {
    pub open spec fn view_addr(self) -> AddrView {
        match self {
            DestAddr::Ip(IpAddr::V4(a)) => AddrView::V4(a.octets@),
            DestAddr::Ip(IpAddr::V6(a)) => AddrView::V6(a.octets@),
            DestAddr::Domain(s) => AddrView::Domain(s@),
        }
    }
}

impl View for Header {
    type V = HeaderView;

    open spec fn view(&self) -> HeaderView {
        HeaderView {
            version: self.version,
            user_id: self.user_id@,
            command: self.command,
            address: self.destination.address.view_addr(),
            port: self.destination.port,
        }
    }
}

/// Big-endian value of two bytes.
pub open spec fn be_u16(hi: u8, lo: u8) -> u16 {
    (hi as int * 256 + lo as int) as u16
}

/// The header grammar. Byte 0 is the version, bytes 1..17 the user id,
/// byte 17 the length `m` of the add-ons, which are skipped; then come the
/// command, the port (big-endian), the address type and the address: four
/// octets, a length-prefixed UTF-8 name, or sixteen octets.
pub open spec fn spec_parse_header(b: Seq<u8>) -> HeaderParse {
    if b.len() < 18 {
        HeaderParse::Incomplete
    } else {
        let i = 18 + b[17] as int;
        if b.len() < i + 4 {
            HeaderParse::Incomplete
        } else {
            let command = b[i];
            let port = be_u16(b[i + 1], b[i + 2]);
            let addr_type = b[i + 3];
            let j = i + 4;
            let mk = |a: AddrView|
                HeaderView {
                    version: b[0],
                    user_id: b.subrange(1, 17),
                    command,
                    address: a,
                    port,
                };
            if addr_type == ADDR_TYPE_IPV4 {
                if b.len() < j + 4 {
                    HeaderParse::Incomplete
                } else {
                    HeaderParse::Complete(mk(AddrView::V4(b.subrange(j, j + 4))), (j + 4) as nat)
                }
            } else if addr_type == ADDR_TYPE_DOMAIN {
                if b.len() < j + 1 {
                    HeaderParse::Incomplete
                } else {
                    let n = b[j] as int;
                    if b.len() < j + 1 + n {
                        HeaderParse::Incomplete
                    } else if !valid_utf8(b.subrange(j + 1, j + 1 + n)) {
                        HeaderParse::Failed(VlessError::InvalidDomainUtf8)
                    } else {
                        HeaderParse::Complete(
                            mk(AddrView::Domain(decode_utf8(b.subrange(j + 1, j + 1 + n)))),
                            (j + 1 + n) as nat,
                        )
                    }
                }
            } else if addr_type == ADDR_TYPE_IPV6 {
                if b.len() < j + 16 {
                    HeaderParse::Incomplete
                } else {
                    HeaderParse::Complete(mk(AddrView::V6(b.subrange(j, j + 16))), (j + 16) as nat)
                }
            } else {
                HeaderParse::Failed(VlessError::UnknownAddrType(addr_type))
            }
        }
    }
}

/// How a result of `parse_header` reads in the grammar's terms.
pub open spec fn parse_result_view(r: Result<Option<(Header, usize)>, VlessError>) -> HeaderParse {
    match r {
        Ok(None) => HeaderParse::Incomplete,
        Ok(Some((h, n))) => HeaderParse::Complete(h@, n as nat),
        Err(e) => HeaderParse::Failed(e),
    }
}

#[verifier::external_type_specification]
#[verifier::external_body]
pub struct ExBytesMut(BytesMut);

/// `std::str::from_utf8`: `Some` exactly when the bytes are well-formed
/// UTF-8, and then the text they encode.
#[verifier::external_body]
fn str_from_utf8(bytes: &[u8]) -> (r: Option<&str>)
    ensures
        r is Some <==> valid_utf8(bytes@),
        r matches Some(s) ==> s@ == decode_utf8(bytes@),
{
    match std::str::from_utf8(bytes) {
        Ok(s) => Some(s),
        Err(_) => None,
    }
}

/// Parses a VLESS request header at the start of `b`. `Ok(None)` asks for
/// more bytes; `Ok(Some((h, n)))` gives the header and its length in bytes.
pub fn parse_header(b: &[u8]) -> (r: Result<Option<(Header, usize)>, VlessError>)
    ensures
        parse_result_view(r) == spec_parse_header(b@),
        r matches Ok(Some((h, n))) ==> h.version == b@[0] && h.user_id@ == b@.subrange(1, 17) && n
            <= b@.len(),
{
    proof {
        lemma_header_fields(b@);
    }
    let len = b.len();
    if len < 18 {
        return Ok(None);
    }
    let version = b[0];
    let user_id: [u8; 16] = [
        b[1], b[2], b[3], b[4], b[5], b[6], b[7], b[8],
        b[9], b[10], b[11], b[12], b[13], b[14], b[15], b[16],
    ];
    assert(user_id@ =~= b@.subrange(1, 17));
    let addons_len = b[17] as usize;
    let i: usize = 18 + addons_len;
    if len < i + 4 {
        return Ok(None);
    }
    let command = b[i];
    let port: u16 = (b[i + 1] as u16) * 256 + (b[i + 2] as u16);
    let addr_type = b[i + 3];
    let j: usize = i + 4;
    let mk = |address: DestAddr| -> (h: Header)
        ensures
            h.version == version,
            h.user_id == user_id,
            h.command == command,
            h.destination.port == port,
            h.destination.address == address,
        {
            Header { version, user_id, command, destination: Destination { address, port } }
        };
    if addr_type == ADDR_TYPE_IPV4 {
        if len < j + 4 {
            return Ok(None);
        }
        let ip = Ipv4Addr::new(b[j], b[j + 1], b[j + 2], b[j + 3]);
        assert(ip.octets@ =~= b@.subrange(j as int, j + 4));
        Ok(Some((mk(DestAddr::Ip(IpAddr::V4(ip))), j + 4)))
    } else if addr_type == ADDR_TYPE_DOMAIN {
        if len < j + 1 {
            return Ok(None);
        }
        let n = b[j] as usize;
        if len < j + 1 + n {
            return Ok(None);
        }
        let name_bytes = slice_subrange(b, j + 1, j + 1 + n);
        match str_from_utf8(name_bytes) {
            None => Err(VlessError::InvalidDomainUtf8),
            Some(name) => Ok(Some((mk(DestAddr::Domain(name.to_owned())), j + 1 + n))),
        }
    } else if addr_type == ADDR_TYPE_IPV6 {
        if len < j + 16 {
            return Ok(None);
        }
        let octets: [u8; 16] = [
            b[j], b[j + 1], b[j + 2], b[j + 3], b[j + 4], b[j + 5], b[j + 6], b[j + 7],
            b[j + 8], b[j + 9], b[j + 10], b[j + 11], b[j + 12], b[j + 13], b[j + 14], b[j + 15],
        ];
        assert(octets@ =~= b@.subrange(j as int, j + 16));
        Ok(Some((mk(DestAddr::Ip(IpAddr::V6(Ipv6Addr::from_octets(octets)))), j + 16)))
    } else {
        Err(VlessError::UnknownAddrType(addr_type))
    }
}

/// Every field of a header is read from its own place in the buffer: the
/// version is byte 0, the user id bytes 1..17 in order, byte 17 counts the
/// add-ons that are skipped, then come the command, the port (high byte
/// first), the address type and the address; the header ends where the
/// address ends, within the buffer.
pub proof fn lemma_header_fields(b: Seq<u8>)
    ensures
        spec_parse_header(b) matches HeaderParse::Complete(h, n) ==> {
            let m = b[17] as int;
            &&& h.version == b[0]
            &&& h.user_id == b.subrange(1, 17)
            &&& h.command == b[18 + m]
            &&& h.port as int == b[19 + m] as int * 256 + b[20 + m] as int
            &&& n <= b.len()
            &&& (h.address matches AddrView::V4(o) ==> b[21 + m] == 1 && o == b.subrange(22 + m, 26 + m)
                && n == 26 + m)
            &&& (h.address matches AddrView::V6(o) ==> b[21 + m] == 3 && o == b.subrange(22 + m, 38 + m)
                && n == 38 + m)
            &&& (h.address matches AddrView::Domain(name) ==> b[21 + m] == 2 && n == 23 + m + b[22 + m]
                && valid_utf8(b.subrange(23 + m, n as int)) && name == decode_utf8(b.subrange(23 + m, n as int)))
        },
        spec_parse_header(b) matches HeaderParse::Failed(e) ==> {
            let m = b[17] as int;
            &&& b.len() >= 22 + m
            &&& (e == VlessError::InvalidDomainUtf8 ==> b[21 + m] == 2)
            &&& (e matches VlessError::UnknownAddrType(t) ==> t == b[21 + m] && t != 1 && t != 2 && t != 3)
        },
        (spec_parse_header(b) is Incomplete) == (b.len() < 18 || b.len() < 22 + b[17] as int || (b[21
            + b[17] as int] == 1 && b.len() < 26 + b[17] as int) || (b[21 + b[17] as int] == 3 && b.len()
            < 38 + b[17] as int) || (b[21 + b[17] as int] == 2 && (b.len() < 23 + b[17] as int || b.len()
            < 23 + b[17] as int + b[22 + b[17] as int]))),
{
}

/// Once the grammar has decided (a header or a failure), further bytes do not
/// change the decision: a reader may stop at the first decided buffer.
pub proof fn lemma_decision_is_final(b: Seq<u8>, extra: Seq<u8>)
    requires
        !(spec_parse_header(b) is Incomplete),
    ensures
        spec_parse_header(b + extra) == spec_parse_header(b),
{
    let c = b + extra;
    assert(c.subrange(0, b.len() as int) =~= b);
    assert forall|x: int, y: int| 0 <= x <= y <= b.len() implies c.subrange(x, y) =~= b.subrange(x, y) by {}
    assert(c.subrange(1, 17) =~= b.subrange(1, 17));
    let i = 18 + b[17] as int;
    let j = i + 4;
    if b.len() >= j + 1 {
        let n = b[j] as int;
        if b.len() >= j + 1 + n {
            assert(c.subrange(j + 1, j + 1 + n) =~= b.subrange(j + 1, j + 1 + n));
        }
    }
    if b.len() >= j + 4 {
        assert(c.subrange(j, j + 4) =~= b.subrange(j, j + 4));
    }
    if b.len() >= j + 16 {
        assert(c.subrange(j, j + 16) =~= b.subrange(j, j + 16));
    }
}

/// A header is read from exactly the bytes it occupies: the first `n` bytes
/// alone give the same header, and every shorter prefix asks for more bytes.
pub proof fn lemma_header_occupies_exactly(b: Seq<u8>, k: nat)
    requires
        spec_parse_header(b) is Complete,
        k <= spec_parse_header(b)->Complete_1,
    ensures
        k == spec_parse_header(b)->Complete_1 ==> spec_parse_header(b.take(k as int)) == spec_parse_header(b),
        k < spec_parse_header(b)->Complete_1 ==> spec_parse_header(b.take(k as int)) is Incomplete,
{
    let n = spec_parse_header(b)->Complete_1;
    let p = b.take(k as int);
    assert(b.len() >= n);
    assert forall|x: int, y: int| 0 <= x <= y <= k implies p.subrange(x, y) =~= b.subrange(x, y) by {}
    let i = 18 + b[17] as int;
    let j = i + 4;
    if k >= j + 1 {
        let m = b[j] as int;
        if k >= j + 1 + m {
            assert(p.subrange(j + 1, j + 1 + m) =~= b.subrange(j + 1, j + 1 + m));
        }
    }
    if k >= j + 4 {
        assert(p.subrange(j, j + 4) =~= b.subrange(j, j + 4));
    }
    if k >= j + 16 {
        assert(p.subrange(j, j + 16) =~= b.subrange(j, j + 16));
    }
    if k >= 17 {
        assert(p.subrange(1, 17) =~= b.subrange(1, 17));
    }
}

/// The bytes held by a `BytesMut`.
pub uninterp spec fn bytes_mut_contents(b: BytesMut) -> Seq<u8>;

/// `<BytesMut as AsRef<[u8]>>::as_ref`: the initialized bytes of the buffer,
/// in order.
#[verifier::external_body]
fn bytes_mut_slice(buf: &BytesMut) -> (r: &[u8])
    ensures
        r@ == bytes_mut_contents(*buf),
{
    buf.as_ref()
}

/// Parses a VLESS request header at the start of the bytes held by `buf`.
/// `Ok(None)` asks for more bytes; `Ok(Some((h, n)))` gives the header and
/// the number of bytes it occupies; the payload starts at `n`.
pub fn try_parse(buf: &BytesMut) -> (r: Result<Option<(Header, usize)>, VlessError>)
    ensures
        parse_result_view(r) == spec_parse_header(bytes_mut_contents(*buf)),
        r matches Ok(Some((h, n))) ==> h.version == bytes_mut_contents(*buf)[0] && h.user_id@
            == bytes_mut_contents(*buf).subrange(1, 17) && n <= bytes_mut_contents(*buf).len(),
{
    parse_header(bytes_mut_slice(buf))
}

} // verus!
