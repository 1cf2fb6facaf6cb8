//! Plain-value models of IP addresses.

use vstd::prelude::*;

use crate::text::{chars_of, decimal, decimal_string, hex_lower, hex_string};

verus! {

/// An IPv4 address, held as its four octets in network order.
#[derive(Clone, Copy, Debug, PartialEq, Eq, Hash)]
pub struct Ipv4Addr {
    pub octets: [u8; 4],
}

impl Ipv4Addr {
    /// The address `a.b.c.d`.
    pub fn new(a: u8, b: u8, c: u8, d: u8) -> (r: Ipv4Addr)
        ensures
            r.octets@ == seq![a, b, c, d],
    {
        Ipv4Addr { octets: [a, b, c, d] }
    }
}

/// An IPv6 address, held as its sixteen octets in network order.
#[derive(Clone, Copy, Debug, PartialEq, Eq, Hash)]
pub struct Ipv6Addr {
    pub octets: [u8; 16],
}

impl Ipv6Addr {
    /// The address whose octets, in network order, are `octets`.
    pub fn from_octets(octets: [u8; 16]) -> (r: Ipv6Addr)
        ensures
            r.octets == octets,
    {
        Ipv6Addr { octets }
    }
}

/// An IP address of either family.
#[derive(Clone, Copy, Debug, PartialEq, Eq, Hash)]
pub enum IpAddr {
    V4(Ipv4Addr),
    V6(Ipv6Addr),
}

/// Dotted-decimal text of an IPv4 address (`Ipv4Addr`'s `Display`).
pub open spec fn ipv4_text(o: Seq<u8>) -> Seq<char> {
    decimal(o[0] as nat) + seq!['.'] + decimal(o[1] as nat) + seq!['.'] + decimal(o[2] as nat)
        + seq!['.'] + decimal(o[3] as nat)
}

/// The eight 16-bit groups of an IPv6 address.
pub open spec fn segments(o: Seq<u8>) -> Seq<u16> {
    Seq::new(8, |i: int| (o[2 * i] as int * 256 + o[2 * i + 1] as int) as u16)
}

/// Number of consecutive zero groups starting at `i`.
pub open spec fn run_at(g: Seq<u16>, i: int) -> nat
    decreases g.len() - i,
{
    if i < 0 || i >= g.len() || g[i] != 0 {
        0
    } else {
        1 + run_at(g, i + 1)
    }
}

/// Length of the longest run of zero groups at or after `i`.
pub open spec fn max_run_from(g: Seq<u16>, i: int) -> nat
    decreases g.len() - i,
{
    if i < 0 || i >= g.len() {
        0
    } else {
        let r = run_at(g, i);
        let m = max_run_from(g, i + 1);
        if r >= m {
            r
        } else {
            m
        }
    }
}

/// The first position at or after `i` where a run of exactly `l` zero groups
/// starts (the length of `g` if there is none).
pub open spec fn first_run_of(g: Seq<u16>, l: nat, i: int) -> int
    decreases g.len() - i,
{
    if i < 0 || i >= g.len() {
        g.len() as int
    } else if run_at(g, i) == l {
        i
    } else {
        first_run_of(g, l, i + 1)
    }
}

/// Groups in lower-case hexadecimal, separated by colons.
pub open spec fn hex_join(g: Seq<u16>) -> Seq<char>
    decreases g.len(),
{
    if g.len() == 0 {
        Seq::<char>::empty()
    } else if g.len() == 1 {
        hex_lower(g[0] as nat)
    } else {
        hex_join(g.drop_last()) + seq![':'] + hex_lower(g.last() as nat)
    }
}

/// Whether the address is an IPv4-mapped one, `::ffff:a.b.c.d`.
pub open spec fn is_ipv4_mapped(g: Seq<u16>) -> bool {
    &&& g[0] == 0 && g[1] == 0 && g[2] == 0 && g[3] == 0 && g[4] == 0
    &&& g[5] == 0xffff
}

/// Text of an IPv6 address (`Ipv6Addr`'s `Display`): an IPv4-mapped address
/// as `::ffff:` and its dotted IPv4 form; otherwise the groups in hex, with
/// the longest run of two or more zero groups (the first such if several
/// are equally long) written as `::`.
pub open spec fn ipv6_text(o: Seq<u8>) -> Seq<char> {
    let g = segments(o);
    if is_ipv4_mapped(g) {
        seq![':', ':', 'f', 'f', 'f', 'f', ':'] + ipv4_text(o.subrange(12, 16))
    } else {
        let l = max_run_from(g, 0);
        if l > 1 {
            let st = first_run_of(g, l, 0);
            hex_join(g.take(st)) + seq![':', ':'] + hex_join(g.skip(st + l))
        } else {
            hex_join(g)
        }
    }
}

/// Text of an IP address (`IpAddr`'s `Display`).
pub open spec fn ip_text(a: IpAddr) -> Seq<char> {
    match a {
        IpAddr::V4(v) => ipv4_text(v.octets@),
        IpAddr::V6(v) => ipv6_text(v.octets@),
    }
}

/// Dotted-decimal text of an IPv4 address.
pub fn ipv4_to_string(o: &[u8; 4]) -> (r: String)
    ensures
        r@ == ipv4_text(o@),
{
    let dot = ".";
    proof {
        reveal_strlit(".");
    }
    let mut s = decimal_string(o[0] as u64);
    s.append(dot);
    let t = decimal_string(o[1] as u64);
    s.append(t.as_str());
    s.append(dot);
    let t = decimal_string(o[2] as u64);
    s.append(t.as_str());
    s.append(dot);
    let t = decimal_string(o[3] as u64);
    s.append(t.as_str());
    s
}

/// `hex_join` of `g@[a..b]`.
fn hex_join_range(g: &Vec<u16>, a: usize, b: usize) -> (r: String)
    requires
        a <= b <= g@.len(),
    ensures
        r@ == hex_join(g@.subrange(a as int, b as int)),
{
    let colon = ":";
    proof {
        reveal_strlit(":");
    }
    let mut s = String::new();
    let mut k = a;
    while k < b
        invariant
            a <= k <= b <= g@.len(),
            colon@ == seq![':'],
            s@ == hex_join(g@.subrange(a as int, k as int)),
        decreases b - k,
    {
        let h = hex_string(g[k] as u64);
        if k > a {
            s.append(colon);
        }
        s.append(h.as_str());
        proof {
            let t = g@.subrange(a as int, k + 1);
            assert(t.drop_last() =~= g@.subrange(a as int, k as int));
            if k == a {
                assert(g@.subrange(a as int, k as int) =~= Seq::<u16>::empty());
            }
        }
        k = k + 1;
    }
    s
}

/// Text of an IPv6 address.
pub fn ipv6_to_string(o: &[u8; 16]) -> (r: String)
    ensures
        r@ == ipv6_text(o@),
{
    let ghost gs = segments(o@);
    let mut g: Vec<u16> = Vec::new();
    let mut i: usize = 0;
    while i < 8
        invariant
            i <= 8,
            gs == segments(o@),
            g@ == gs.take(i as int),
        decreases 8 - i,
    {
        let v: u16 = (o[2 * i] as u16) * 256 + (o[2 * i + 1] as u16);
        g.push(v);
        assert(g@ =~= gs.take(i + 1));
        i = i + 1;
    }
    assert(g@ =~= gs);
    if g[0] == 0 && g[1] == 0 && g[2] == 0 && g[3] == 0 && g[4] == 0 && g[5] == 0xffff {
        let mut s = String::new();
        let prefix = "::ffff:";
        proof {
            reveal_strlit("::ffff:");
        }
        s.append(prefix);
        let tail: [u8; 4] = [o[12], o[13], o[14], o[15]];
        assert(tail@ =~= o@.subrange(12, 16));
        let t = ipv4_to_string(&tail);
        s.append(t.as_str());
        return s;
    }
    // run lengths, computed from the back
    let mut runs: Vec<u64> = Vec::new();
    let mut k: usize = 0;
    while k < 8
        invariant
            k <= 8,
            runs@.len() == k,
        decreases 8 - k,
    {
        runs.push(0);
        k = k + 1;
    }
    let mut j: usize = 8;
    while j > 0
        invariant
            j <= 8,
            g@ == gs,
            gs.len() == 8,
            runs@.len() == 8,
            forall|m: int| j <= m < 8 ==> runs@[m] == run_at(gs, m),
            forall|m: int| j <= m < 8 ==> runs@[m] <= 8 - m,
        decreases j,
    {
        let idx = j - 1;
        assert(g@[idx as int] == gs[idx as int]);
        assert(run_at(gs, idx as int) == if gs[idx as int] != 0 { 0 } else { 1 + run_at(gs, idx + 1) });
        let r: u64 = if g[idx] != 0 {
            0
        } else if idx == 7 {
            1
        } else {
            1 + runs[idx + 1]
        };
        runs.set(idx, r);
        j = idx;
    }
    assert(runs@[0] <= 8);
    // the longest run, computed from the back
    let mut best: u64 = 0;
    let mut m: usize = 8;
    while m > 0
        invariant
            m <= 8,
            gs.len() == 8,
            runs@.len() == 8,
            forall|q: int| 0 <= q < 8 ==> runs@[q] == run_at(gs, q),
            forall|q: int| 0 <= q < 8 ==> runs@[q] <= 8 - q,
            best == max_run_from(gs, m as int),
            best <= 8,
        decreases m,
    {
        let idx = m - 1;
        if runs[idx] >= best {
            best = runs[idx];
        }
        m = idx;
    }
    if best > 1 {
        let mut st: usize = 0;
        while st < 8 && runs[st] != best
            invariant
                st <= 8,
                gs.len() == 8,
                runs@.len() == 8,
                forall|q: int| 0 <= q < 8 ==> runs@[q] == run_at(gs, q),
                first_run_of(gs, best as nat, 0) == first_run_of(gs, best as nat, st as int),
            decreases 8 - st,
        {
            st = st + 1;
        }
        proof {
            lemma_max_run_attained(gs, 0);
            lemma_first_run_bounds(gs, best as nat, st as int);
        }
        let end = st + best as usize;
        let mut s = hex_join_range(&g, 0, st);
        let dc = "::";
        proof {
            reveal_strlit("::");
            assert(gs.take(st as int) =~= gs.subrange(0, st as int));
            assert(gs.skip(end as int) =~= gs.subrange(end as int, 8));
        }
        s.append(dc);
        let t = hex_join_range(&g, end, 8);
        s.append(t.as_str());
        s
    } else {
        let s = hex_join_range(&g, 0, 8);
        assert(gs.subrange(0, 8) =~= gs);
        s
    }
}

/// The longest run from `i` on, if any, starts somewhere from `i` on.
proof fn lemma_max_run_attained(g: Seq<u16>, i: int)
    requires
        0 <= i <= g.len(),
    ensures
        max_run_from(g, i) > 0 ==> first_run_of(g, max_run_from(g, i), i) < g.len(),
    decreases g.len() - i,
{
    if i < g.len() {
        lemma_max_run_attained(g, i + 1);
        let r = run_at(g, i);
        let m = max_run_from(g, i + 1);
        if r < m {
            lemma_first_run_skip(g, m, i);
        }
    }
}

proof fn lemma_first_run_skip(g: Seq<u16>, l: nat, i: int)
    requires
        0 <= i < g.len(),
        run_at(g, i) != l,
    ensures
        first_run_of(g, l, i) == first_run_of(g, l, i + 1),
{
}

/// A run found by `first_run_of` fits inside the groups.
proof fn lemma_first_run_bounds(g: Seq<u16>, l: nat, i: int)
    requires
        0 <= i <= g.len(),
        i < g.len() ==> run_at(g, i) == l,
    ensures
        i < g.len() ==> i + l <= g.len(),
{
    if i < g.len() {
        lemma_run_at_bound(g, i);
    }
}

proof fn lemma_run_at_bound(g: Seq<u16>, i: int)
    requires
        0 <= i,
    ensures
        run_at(g, i) <= if i <= g.len() { g.len() - i } else { 0 },
    decreases g.len() - i,
{
    if i < g.len() && g[i] == 0 {
        lemma_run_at_bound(g, i + 1);
    }
}

/// Text of an IP address.
pub fn ip_to_string(a: &IpAddr) -> (r: String)
    ensures
        r@ == ip_text(*a),
{
    match a {
        IpAddr::V4(v) => ipv4_to_string(&v.octets),
        IpAddr::V6(v) => ipv6_to_string(&v.octets),
    }
}

/// A socket address: an IP address and a port, and for IPv6 a scope id.
#[derive(Clone, Copy, Debug, PartialEq, Eq, Hash)]
pub enum SocketAddress {
    /// Address and port.
    V4(Ipv4Addr, u16),
    /// Address, port and scope id.
    V6(Ipv6Addr, u16, u32),
}

/// Mathematical view of a socket address; IPv6 addresses by their groups.
pub enum SockView {
    V4(Seq<u8>, u16),
    V6(Seq<u16>, u16, u32),
}

impl SocketAddress {
    pub open spec fn view_sock(self) -> SockView {
        match self {
            SocketAddress::V4(ip, port) => SockView::V4(ip.octets@, port),
            SocketAddress::V6(ip, port, scope_id) => SockView::V6(segments(ip.octets@), port, scope_id),
        }
    }

    /// The port.
    pub fn port(&self) -> (r: u16)
        ensures
            r == match *self {
                SocketAddress::V4(_, port) => port,
                SocketAddress::V6(_, port, _) => port,
            },
    {
        match self {
            SocketAddress::V4(_, port) => *port,
            SocketAddress::V6(_, port, _) => *port,
        }
    }
}

/// `char::to_digit(radix)` for radix 10 or 16.
pub open spec fn digit_of(c: char, radix: nat) -> Option<nat> {
    if '0' <= c && c <= '9' {
        Some((c as u32 - '0' as u32) as nat)
    } else if radix == 16 && 'a' <= c && c <= 'f' {
        Some((c as u32 - 'a' as u32 + 10) as nat)
    } else if radix == 16 && 'A' <= c && c <= 'F' {
        Some((c as u32 - 'A' as u32 + 10) as nat)
    } else {
        None
    }
}

/// Number of consecutive digits of `radix` in `s` starting at `pos`.
pub open spec fn digit_run(s: Seq<char>, pos: int, radix: nat) -> nat
    decreases s.len() - pos,
{
    if pos < 0 || pos >= s.len() || digit_of(s[pos], radix) is None {
        0
    } else {
        1 + digit_run(s, pos + 1, radix)
    }
}

/// Value of a string of digits in `radix`.
pub open spec fn digits_value(d: Seq<char>, radix: nat) -> nat
    decreases d.len(),
{
    if d.len() == 0 {
        0
    } else {
        digits_value(d.drop_last(), radix) * radix + match digit_of(d.last(), radix) {
            Some(x) => x,
            None => 0,
        }
    }
}

/// The number parser of `std::net`: the longest run of digits at `pos`; it
/// fails on an empty run, a value above `max`, more than `max_digits` digits
/// (when `max_digits > 0`), or a leading zero in a run of several digits when
/// `allow_zero_prefix` is false. On success, the value and the position
/// after the run.
pub open spec fn read_number(
    s: Seq<char>,
    pos: int,
    radix: nat,
    max_digits: nat,
    allow_zero_prefix: bool,
    max: nat,
) -> Option<(nat, int)> {
    let k = digit_run(s, pos, radix);
    let v = digits_value(s.subrange(pos, pos + k), radix);
    if k == 0 || v > max || (max_digits > 0 && k > max_digits) || (!allow_zero_prefix && s[pos]
        == '0' && k > 1) {
        None
    } else {
        Some((v, pos + k))
    }
}

/// Reads the character `c` at `pos`.
pub open spec fn read_char(s: Seq<char>, pos: int, c: char) -> Option<int> {
    if 0 <= pos < s.len() && s[pos] == c {
        Some(pos + 1)
    } else {
        None
    }
}

/// Dotted-decimal IPv4 address at `pos`: four numbers of at most three
/// digits, each at most 255, without leading zeros.
pub open spec fn read_ipv4(s: Seq<char>, pos: int) -> Option<(Seq<u8>, int)> {
    match read_number(s, pos, 10, 3, false, 255) {
        None => None,
        Some((a, p1)) => match read_char(s, p1, '.') {
            None => None,
            Some(p2) => match read_number(s, p2, 10, 3, false, 255) {
                None => None,
                Some((b, p3)) => match read_char(s, p3, '.') {
                    None => None,
                    Some(p4) => match read_number(s, p4, 10, 3, false, 255) {
                        None => None,
                        Some((c, p5)) => match read_char(s, p5, '.') {
                            None => None,
                            Some(p6) => match read_number(s, p6, 10, 3, false, 255) {
                                None => None,
                                Some((d, p7)) => Some((seq![a as u8, b as u8, c as u8, d as u8], p7)),
                            },
                        },
                    },
                },
            },
        },
    }
}

/// A separator `:` before every group but the first.
pub open spec fn read_sep(s: Seq<char>, pos: int, i: nat) -> Option<int> {
    if i > 0 {
        read_char(s, pos, ':')
    } else {
        Some(pos)
    }
}

/// Colon-separated IPv6 groups from `pos`, group index `i` of at most
/// `limit`, where the last two groups may be written as an embedded IPv4
/// address. Gives the groups read, whether they ended in an IPv4 address,
/// and the position after them.
pub open spec fn read_groups(s: Seq<char>, pos: int, i: nat, limit: nat) -> (Seq<u16>, bool, int)
    decreases limit - i,
{
    if i >= limit {
        (Seq::<u16>::empty(), false, pos)
    } else {
        let v4 = if i + 1 < limit {
            match read_sep(s, pos, i) {
                None => None,
                Some(p) => read_ipv4(s, p),
            }
        } else {
            None
        };
        match v4 {
            Some((o, p)) => (
                seq![(o[0] as int * 256 + o[1] as int) as u16, (o[2] as int * 256 + o[3] as int) as u16],
                true,
                p,
            ),
            None => {
                let g = match read_sep(s, pos, i) {
                    None => None,
                    Some(p) => read_number(s, p, 16, 4, true, 0xffff),
                };
                match g {
                    None => (Seq::<u16>::empty(), false, pos),
                    Some((v, p)) => {
                        let r = read_groups(s, p, i + 1, limit);
                        (seq![v as u16] + r.0, r.1, r.2)
                    },
                }
            },
        }
    }
}

/// Textual IPv6 address at `pos`: eight groups, or fewer with one `::`
/// standing for the missing zero groups; an IPv4 address may stand for the
/// last two groups, but not before `::`.
pub open spec fn read_ipv6(s: Seq<char>, pos: int) -> Option<(Seq<u16>, int)> {
    let (head, head_v4, p1) = read_groups(s, pos, 0, 8);
    if head.len() == 8 {
        Some((head, p1))
    } else if head_v4 {
        None
    } else {
        match read_char(s, p1, ':') {
            None => None,
            Some(p2) => match read_char(s, p2, ':') {
                None => None,
                Some(p3) => {
                    let (tail, _t, p4) = read_groups(s, p3, 0, (7 - head.len()) as nat);
                    Some(
                        (
                            head + Seq::new((8 - head.len() - tail.len()) as nat, |k: int| 0u16)
                                + tail,
                            p4,
                        ),
                    )
                },
            },
        }
    }
}

/// `ip:port` with a dotted IPv4 address and a decimal port.
pub open spec fn read_socket_v4(s: Seq<char>) -> Option<(SockView, int)> {
    match read_ipv4(s, 0) {
        None => None,
        Some((o, p1)) => match read_char(s, p1, ':') {
            None => None,
            Some(p2) => match read_number(s, p2, 10, 0, true, 0xffff) {
                None => None,
                Some((port, p3)) => Some((SockView::V4(o, port as u16), p3)),
            },
        },
    }
}

/// `[ip%scope]:port` with an IPv6 address and an optional decimal scope id.
pub open spec fn read_socket_v6(s: Seq<char>) -> Option<(SockView, int)> {
    match read_char(s, 0, '[') {
        None => None,
        Some(p1) => match read_ipv6(s, p1) {
            None => None,
            Some((g, p2)) => {
                let scope = match read_char(s, p2, '%') {
                    None => None,
                    Some(p) => read_number(s, p, 10, 0, true, 0xffff_ffff),
                };
                let (scope_id, p3) = match scope {
                    None => (0nat, p2),
                    Some((v, p)) => (v, p),
                };
                match read_char(s, p3, ']') {
                    None => None,
                    Some(p4) => match read_char(s, p4, ':') {
                        None => None,
                        Some(p5) => match read_number(s, p5, 10, 0, true, 0xffff) {
                            None => None,
                            Some((port, p6)) => Some(
                                (SockView::V6(g, port as u16, scope_id as u32), p6),
                            ),
                        },
                    },
                }
            },
        },
    }
}

/// `SocketAddr`'s `FromStr`: an IPv4 form is tried first, then an IPv6 form;
/// the form must take up the whole text.
pub open spec fn parse_socket_spec(s: Seq<char>) -> Option<SockView> {
    match read_socket_v4(s) {
        Some((a, p)) => if p == s.len() {
            Some(a)
        } else {
            None
        },
        None => match read_socket_v6(s) {
            Some((a, p)) => if p == s.len() {
                Some(a)
            } else {
                None
            },
            None => None,
        },
    }
}

fn exec_digit_of(c: char, radix: u64) -> (r: Option<u64>)
    requires
        radix == 10 || radix == 16,
    ensures
        match r {
            Some(x) => digit_of(c, radix as nat) == Some(x as nat) && x < radix,
            None => digit_of(c, radix as nat) is None,
        },
{
    if '0' <= c && c <= '9' {
        Some((c as u32 - '0' as u32) as u64)
    } else if radix == 16 && 'a' <= c && c <= 'f' {
        Some((c as u32 - 'a' as u32 + 10) as u64)
    } else if radix == 16 && 'A' <= c && c <= 'F' {
        Some((c as u32 - 'A' as u32 + 10) as u64)
    } else {
        None
    }
}

proof fn lemma_digits_value_step(s: Seq<char>, pos: int, k: int, radix: nat)
    requires
        0 <= pos <= k < s.len(),
    ensures
        digits_value(s.subrange(pos, k + 1), radix) == digits_value(s.subrange(pos, k), radix)
            * radix + match digit_of(s[k], radix) {
            Some(x) => x,
            None => 0,
        },
{
    assert(s.subrange(pos, k + 1).drop_last() =~= s.subrange(pos, k));
}

/// A longer run of digits has at least the value of a shorter one.
proof fn lemma_digits_value_mono(s: Seq<char>, pos: int, j: int, k: int, radix: nat)
    requires
        0 <= pos <= j <= k <= s.len(),
        radix >= 1,
    ensures
        digits_value(s.subrange(pos, j), radix) <= digits_value(s.subrange(pos, k), radix),
    decreases k - j,
{
    if j < k {
        lemma_digits_value_mono(s, pos, j, k - 1, radix);
        lemma_digits_value_step(s, pos, k - 1, radix);
        let a = digits_value(s.subrange(pos, k - 1), radix);
        assert(a * radix >= a) by (nonlinear_arith)
            requires
                radix >= 1,
        ;
    }
}

proof fn lemma_digit_run_step(s: Seq<char>, pos: int, k: int, radix: nat)
    requires
        0 <= pos <= k < s.len(),
        digit_of(s[k], radix) is Some,
        digit_run(s, pos, radix) == (k - pos) + digit_run(s, k, radix),
    ensures
        digit_run(s, pos, radix) == (k + 1 - pos) + digit_run(s, k + 1, radix),
{
}

/// `read_number` on `v`.
pub(crate) fn exec_read_number(
    v: &Vec<char>,
    pos: usize,
    radix: u64,
    max_digits: usize,
    allow_zero_prefix: bool,
    max: u64,
) -> (r: Option<(u64, usize)>)
    requires
        pos <= v@.len(),
        radix == 10 || radix == 16,
        max <= 0xffff_ffff,
    ensures
        match r {
            Some((x, p)) => read_number(
                v@,
                pos as int,
                radix as nat,
                max_digits as nat,
                allow_zero_prefix,
                max as nat,
            ) == Some((x as nat, p as int)) && p <= v@.len(),
            None => read_number(
                v@,
                pos as int,
                radix as nat,
                max_digits as nat,
                allow_zero_prefix,
                max as nat,
            ) is None,
        },
{
    let len = v.len();
    let ghost s = v@;
    let mut k = pos;
    let mut val: u64 = 0;
    loop
        invariant
            pos <= k <= len,
            len == s.len(),
            s == v@,
            radix == 10 || radix == 16,
            max <= 0xffff_ffff,
            val as nat == digits_value(s.subrange(pos as int, k as int), radix as nat),
            val <= max,
            max_digits > 0 ==> k - pos <= max_digits,
            digit_run(s, pos as int, radix as nat) == (k - pos) + digit_run(s, k as int, radix as nat),
        ensures
            pos <= k <= len,
            val as nat == digits_value(s.subrange(pos as int, k as int), radix as nat),
            val <= max,
            max_digits > 0 ==> k - pos <= max_digits,
            digit_run(s, pos as int, radix as nat) == (k - pos) + digit_run(s, k as int, radix as nat),
            k >= len || digit_of(s[k as int], radix as nat) is None,
        decreases len - k,
    {
        if k >= len {
            break;
        }
        let d = match exec_digit_of(v[k], radix) {
            Some(d) => d,
            None => {
                break;
            },
        };
        proof {
            lemma_digits_value_step(s, pos as int, k as int, radix as nat);
            lemma_digit_run_step(s, pos as int, k as int, radix as nat);
        }
        let nv = val * radix + d;
        if nv > max {
            proof {
                let kk = digit_run(s, pos as int, radix as nat);
                lemma_digit_run_bound(s, pos as int, radix as nat);
                lemma_digits_value_mono(s, pos as int, k + 1, pos + kk, radix as nat);
            }
            return None;
        }
        if max_digits > 0 && k + 1 - pos > max_digits {
            return None;
        }
        val = nv;
        k = k + 1;
    }
    assert(digit_run(s, k as int, radix as nat) == 0);
    if k == pos {
        return None;
    }
    if !allow_zero_prefix && v[pos] == '0' && k - pos > 1 {
        return None;
    }
    Some((val, k))
}

proof fn lemma_digit_run_bound(s: Seq<char>, pos: int, radix: nat)
    requires
        0 <= pos <= s.len(),
    ensures
        pos + digit_run(s, pos, radix) <= s.len(),
    decreases s.len() - pos,
{
    if pos < s.len() && digit_of(s[pos], radix) is Some {
        lemma_digit_run_bound(s, pos + 1, radix);
    }
}

fn exec_read_char(v: &Vec<char>, pos: usize, c: char) -> (r: Option<usize>)
    ensures
        match r {
            Some(p) => read_char(v@, pos as int, c) == Some(p as int) && p <= v@.len(),
            None => read_char(v@, pos as int, c) is None,
        },
{
    if pos < v.len() && v[pos] == c {
        Some(pos + 1)
    } else {
        None
    }
}

/// `read_ipv4` on `v`.
fn exec_read_ipv4(v: &Vec<char>, pos: usize) -> (r: Option<([u8; 4], usize)>)
    requires
        pos <= v@.len(),
    ensures
        match r {
            Some((o, p)) => read_ipv4(v@, pos as int) == Some((o@, p as int)) && p <= v@.len(),
            None => read_ipv4(v@, pos as int) is None,
        },
{
    let (a, p1) = match exec_read_number(v, pos, 10, 3, false, 255) {
        Some(x) => x,
        None => return None,
    };
    let p2 = match exec_read_char(v, p1, '.') {
        Some(x) => x,
        None => return None,
    };
    let (b, p3) = match exec_read_number(v, p2, 10, 3, false, 255) {
        Some(x) => x,
        None => return None,
    };
    let p4 = match exec_read_char(v, p3, '.') {
        Some(x) => x,
        None => return None,
    };
    let (c, p5) = match exec_read_number(v, p4, 10, 3, false, 255) {
        Some(x) => x,
        None => return None,
    };
    let p6 = match exec_read_char(v, p5, '.') {
        Some(x) => x,
        None => return None,
    };
    let (d, p7) = match exec_read_number(v, p6, 10, 3, false, 255) {
        Some(x) => x,
        None => return None,
    };
    let o: [u8; 4] = [a as u8, b as u8, c as u8, d as u8];
    assert(o@ =~= seq![a as u8, b as u8, c as u8, d as u8]);
    Some((o, p7))
}

fn exec_read_sep(v: &Vec<char>, pos: usize, i: usize) -> (r: Option<usize>)
    requires
        pos <= v@.len(),
    ensures
        match r {
            Some(p) => read_sep(v@, pos as int, i as nat) == Some(p as int) && p <= v@.len(),
            None => read_sep(v@, pos as int, i as nat) is None,
        },
{
    if i > 0 {
        exec_read_char(v, pos, ':')
    } else {
        Some(pos)
    }
}

/// `read_groups` on `v`.
fn exec_read_groups(v: &Vec<char>, pos: usize, i: usize, limit: usize) -> (r: (Vec<u16>, bool, usize))
    requires
        pos <= v@.len(),
        i <= limit <= 8,
    ensures
        ({
            let sp = read_groups(v@, pos as int, i as nat, limit as nat);
            &&& r.0@ == sp.0
            &&& r.1 == sp.1
            &&& r.2 as int == sp.2
        }),
        r.2 <= v@.len(),
        r.0@.len() <= limit - i,
    decreases limit - i,
{
    if i >= limit {
        return (Vec::new(), false, pos);
    }
    if i + 1 < limit {
        if let Some(p) = exec_read_sep(v, pos, i) {
            if let Some((o, q)) = exec_read_ipv4(v, p) {
                let mut g: Vec<u16> = Vec::new();
                g.push((o[0] as u16) * 256 + (o[1] as u16));
                g.push((o[2] as u16) * 256 + (o[3] as u16));
                let ghost sp = read_groups(v@, pos as int, i as nat, limit as nat);
                assert(g@ =~= sp.0);
                return (g, true, q);
            }
        }
    }
    let gr = match exec_read_sep(v, pos, i) {
        None => None,
        Some(p) => exec_read_number(v, p, 16, 4, true, 0xffff),
    };
    match gr {
        None => (Vec::new(), false, pos),
        Some((val, p)) => {
            let (rest, b, q) = exec_read_groups(v, p, i + 1, limit);
            let mut g: Vec<u16> = Vec::new();
            g.push(val as u16);
            let mut rest = rest;
            g.append(&mut rest);
            let ghost sp = read_groups(v@, pos as int, i as nat, limit as nat);
            assert(g@ =~= sp.0);
            (g, b, q)
        },
    }
}

/// `read_ipv6` on `v`.
fn exec_read_ipv6(v: &Vec<char>, pos: usize) -> (r: Option<(Vec<u16>, usize)>)
    requires
        pos <= v@.len(),
    ensures
        match r {
            Some((g, p)) => read_ipv6(v@, pos as int) == Some((g@, p as int)) && p <= v@.len()
                && g@.len() == 8,
            None => read_ipv6(v@, pos as int) is None,
        },
{
    let (head, head_v4, p1) = exec_read_groups(v, pos, 0, 8);
    if head.len() == 8 {
        return Some((head, p1));
    }
    if head_v4 {
        return None;
    }
    let p2 = match exec_read_char(v, p1, ':') {
        Some(x) => x,
        None => return None,
    };
    let p3 = match exec_read_char(v, p2, ':') {
        Some(x) => x,
        None => return None,
    };
    let (tail, _t, p4) = exec_read_groups(v, p3, 0, 7 - head.len());
    let zeros = 8 - head.len() - tail.len();
    let mut g = head;
    let ghost h = g@;
    let mut k: usize = 0;
    while k < zeros
        invariant
            k <= zeros,
            g@ == h + Seq::new(k as nat, |m: int| 0u16),
        decreases zeros - k,
    {
        g.push(0);
        assert(g@ =~= h + Seq::new((k + 1) as nat, |m: int| 0u16));
        k = k + 1;
    }
    let mut tail = tail;
    g.append(&mut tail);
    Some((g, p4))
}

/// The groups of an IPv6 address as its sixteen octets.
fn octets_of_groups(g: &Vec<u16>) -> (r: [u8; 16])
    requires
        g@.len() == 8,
    ensures
        segments(r@) == g@,
{
    let r: [u8; 16] = [
        (g[0] / 256) as u8, (g[0] % 256) as u8, (g[1] / 256) as u8, (g[1] % 256) as u8,
        (g[2] / 256) as u8, (g[2] % 256) as u8, (g[3] / 256) as u8, (g[3] % 256) as u8,
        (g[4] / 256) as u8, (g[4] % 256) as u8, (g[5] / 256) as u8, (g[5] % 256) as u8,
        (g[6] / 256) as u8, (g[6] % 256) as u8, (g[7] / 256) as u8, (g[7] % 256) as u8,
    ];
    assert(segments(r@) =~= g@);
    r
}

/// `SocketAddr`'s `FromStr` on the characters `s`.
pub fn parse_socket_addr(v: &Vec<char>) -> (r: Option<SocketAddress>)
    ensures
        match r {
            Some(a) => parse_socket_spec(v@) == Some(a.view_sock()),
            None => parse_socket_spec(v@) is None,
        },
{
    let len = v.len();
    // IPv4 form
    let v4 = match exec_read_ipv4(v, 0) {
        None => None,
        Some((o, p1)) => match exec_read_char(v, p1, ':') {
            None => None,
            Some(p2) => match exec_read_number(v, p2, 10, 0, true, 0xffff) {
                None => None,
                Some((port, p3)) => Some((o, port as u16, p3)),
            },
        },
    };
    if let Some((o, port, p)) = v4 {
        if p == len {
            return Some(SocketAddress::V4(Ipv4Addr { octets: o }, port));
        }
        return None;
    }
    // IPv6 form
    let p1 = match exec_read_char(v, 0, '[') {
        Some(x) => x,
        None => return None,
    };
    let (g, p2) = match exec_read_ipv6(v, p1) {
        Some(x) => x,
        None => return None,
    };
    let scope = match exec_read_char(v, p2, '%') {
        None => None,
        Some(p) => exec_read_number(v, p, 10, 0, true, 0xffff_ffff),
    };
    let (scope_id, p3): (u64, usize) = match scope {
        None => (0, p2),
        Some((x, p)) => (x, p),
    };
    let p4 = match exec_read_char(v, p3, ']') {
        Some(x) => x,
        None => return None,
    };
    let p5 = match exec_read_char(v, p4, ':') {
        Some(x) => x,
        None => return None,
    };
    let (port, p6) = match exec_read_number(v, p5, 10, 0, true, 0xffff) {
        Some(x) => x,
        None => return None,
    };
    if p6 != len {
        return None;
    }
    let octets = octets_of_groups(&g);
    Some(SocketAddress::V6(Ipv6Addr { octets }, port as u16, scope_id as u32))
}

/// `SocketAddr`'s `FromStr` on a string.
pub fn parse_socket_address(s: &str) -> (r: Option<SocketAddress>)
    ensures
        match r {
            Some(a) => parse_socket_spec(s@) == Some(a.view_sock()),
            None => parse_socket_spec(s@) is None,
        },
{
    let v = chars_of(s);
    parse_socket_addr(&v)
}

} // verus!
