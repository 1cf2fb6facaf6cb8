//! Subscription documents: the query string, the Clash provider YAML and
//! the list of VLESS links, and the answer to a subscription request.

use vstd::prelude::*;

use crate::file_config::{lemma_split_on_concat, opt_view};
use crate::settings::{contains_str, ids_view, or_else, Config, ConfigView};
use crate::text::{
    chars_of, decimal, decimal_string, find_char, find_in, lemma_find_char_first, lemma_split_end,
    lemma_split_on_no_sep,
    lemma_split_step_other, lemma_split_step_sep, range_eq, split_on, substring,
};
use crate::user_id::{hyphenated, uuid_to_string};

verus! {

broadcast use vstd::string::group_string_axioms;

pub const QUERY_FMT: [char; 3] = ['f', 'm', 't'];
pub const QUERY_FORMAT: [char; 6] = ['f', 'o', 'r', 'm', 'a', 't'];
pub const QUERY_TOKEN: [char; 5] = ['t', 'o', 'k', 'e', 'n'];

/// The format and token named by a query string so far.
pub type QueryState = (Option<Seq<char>>, Option<Seq<char>>);

/// The effect of one `&`-separated part of a query: `fmt=` or `format=` sets
/// the format, `token=` the token; a part without `=` has an empty value;
/// empty parts and other keys change nothing.
pub open spec fn query_step(st: QueryState, part: Seq<char>) -> QueryState {
    if part.len() == 0 {
        st
    } else {
        let (k, v) = match find_char(part, '=') {
            Some(i) => (part.take(i), part.skip(i + 1)),
            None => (part, Seq::<char>::empty()),
        };
        if k == QUERY_FMT@ || k == QUERY_FORMAT@ {
            (Some(v), st.1)
        } else if k == QUERY_TOKEN@ {
            (st.0, Some(v))
        } else {
            st
        }
    }
}

/// The parts of a query applied in order; a later part wins.
pub open spec fn query_fold(parts: Seq<Seq<char>>) -> QueryState
    decreases parts.len(),
{
    if parts.len() == 0 {
        (None, None)
    } else {
        query_step(query_fold(parts.drop_last()), parts.last())
    }
}

/// The format and token of an optional query string.
pub open spec fn spec_parse_sub_query(q: Option<Seq<char>>) -> QueryState {
    match q {
        None => (None, None),
        Some(s) => query_fold(split_on(s, '&')),
    }
}

/// What a query that follows `earlier` makes of it: each of its settings
/// wins where it is given.
pub open spec fn query_after(earlier: QueryState, later: QueryState) -> QueryState {
    (or_else(later.0, earlier.0), or_else(later.1, earlier.1))
}

proof fn lemma_query_fold_concat(p: Seq<Seq<char>>, q: Seq<Seq<char>>)
    ensures
        query_fold(p + q) == query_after(query_fold(p), query_fold(q)),
    decreases q.len(),
{
    if q.len() == 0 {
        assert(p + q =~= p);
    } else {
        lemma_query_fold_concat(p, q.drop_last());
        assert((p + q).drop_last() =~= p + q.drop_last());
        assert((p + q).last() == q.last());
    }
}

/// Two queries joined by `&` read as one: the second one's format and token
/// win where it gives them, the first one's stand elsewhere.
pub proof fn lemma_sub_query_concat(q1: Seq<char>, q2: Seq<char>)
    ensures
        spec_parse_sub_query(Some(q1 + seq!['&'] + q2)) == query_after(
            spec_parse_sub_query(Some(q1)),
            spec_parse_sub_query(Some(q2)),
        ),
{
    lemma_split_on_concat(q1, '&', q2);
    lemma_query_fold_concat(split_on(q1, '&'), split_on(q2, '&'));
}

proof fn lemma_query_one_part(key: Seq<char>, v: Seq<char>)
    requires
        forall|k: int| 0 <= k < key.len() ==> key[k] != '&' && key[k] != '=',
        forall|k: int| 0 <= k < v.len() ==> v[k] != '&',
    ensures
        spec_parse_sub_query(Some(key + seq!['='] + v)) == query_step((None, None), key + seq!['='] + v),
        find_char(key + seq!['='] + v, '=') == Some(key.len() as int),
        (key + seq!['='] + v).take(key.len() as int) == key,
        (key + seq!['='] + v).skip(key.len() as int + 1) == v,
{
    let part = key + seq!['='] + v;
    assert forall|k: int| 0 <= k < part.len() implies part[k] != '&' by {
        if k < key.len() {
            assert(part[k] == key[k]);
        } else if k > key.len() {
            assert(part[k] == v[k - key.len() - 1]);
        }
    }
    lemma_split_on_no_sep(part, '&');
    assert(seq![part].drop_last() =~= Seq::<Seq<char>>::empty());
    assert(query_fold(Seq::<Seq<char>>::empty()) == (None::<Seq<char>>, None::<Seq<char>>));
    assert(query_fold(seq![part]) == query_step(query_fold(seq![part].drop_last()), seq![part].last()));
    assert forall|k: int| 0 <= k < key.len() implies part[k] != '=' by {
        assert(part[k] == key[k]);
    }
    lemma_find_char_first(part, '=', key.len() as int);
    assert(part.take(key.len() as int) =~= key);
    assert(part.skip(key.len() as int + 1) =~= v);
}

/// A query that is one `fmt=` or `format=` part sets the format to its
/// value and no token; one `token=` part sets the token and no format.
pub proof fn lemma_query_parts(v: Seq<char>)
    requires
        forall|k: int| 0 <= k < v.len() ==> v[k] != '&',
    ensures
        spec_parse_sub_query(Some("fmt="@ + v)) == (Some(v), None::<Seq<char>>),
        spec_parse_sub_query(Some("format="@ + v)) == (Some(v), None::<Seq<char>>),
        spec_parse_sub_query(Some("token="@ + v)) == (None::<Seq<char>>, Some(v)),
{
    reveal_strlit("fmt=");
    reveal_strlit("format=");
    reveal_strlit("token=");
    assert("fmt="@ =~= QUERY_FMT@ + seq!['=']);
    assert("format="@ =~= QUERY_FORMAT@ + seq!['=']);
    assert("token="@ =~= QUERY_TOKEN@ + seq!['=']);
    lemma_query_one_part(QUERY_FMT@, v);
    lemma_query_one_part(QUERY_FORMAT@, v);
    lemma_query_one_part(QUERY_TOKEN@, v);
}

/// The effect of the part `v@[a..b]`.
fn query_step_exec(
    st: (Option<String>, Option<String>),
    s: &str,
    v: &Vec<char>,
    a: usize,
    b: usize,
) -> (r: (Option<String>, Option<String>))
    requires
        v@ == s@,
        a <= b <= v@.len(),
    ensures
        (opt_view(r.0), opt_view(r.1)) == query_step(
            (opt_view(st.0), opt_view(st.1)),
            v@.subrange(a as int, b as int),
        ),
{
    let ghost part = v@.subrange(a as int, b as int);
    if a == b {
        return st;
    }
    let (ka, kb, va, vb) = match find_in(v, a, b, '=') {
        Some(p) => {
            assert(part.take(p - a) =~= v@.subrange(a as int, p as int));
            assert(part.skip(p - a + 1) =~= v@.subrange(p + 1, b as int));
            (a, p, p + 1, b)
        },
        None => {
            assert(v@.subrange(b as int, b as int) =~= Seq::<char>::empty());
            (a, b, b, b)
        },
    };
    if range_eq(v, ka, kb, &QUERY_FMT) || range_eq(v, ka, kb, &QUERY_FORMAT) {
        (Some(substring(s, va, vb)), st.1)
    } else if range_eq(v, ka, kb, &QUERY_TOKEN) {
        (st.0, Some(substring(s, va, vb)))
    } else {
        st
    }
}

/// Reads the `fmt` (or `format`) and `token` parameters of a query string.
pub fn parse_sub_query(query: Option<&str>) -> (r: (Option<String>, Option<String>))
    ensures
        (opt_view(r.0), opt_view(r.1)) == spec_parse_sub_query(
            match query {
                Some(q) => Some(q@),
                None => None,
            },
        ),
{
    let q = match query {
        None => return (None, None),
        Some(q) => q,
    };
    let v = chars_of(q);
    let len = v.len();
    let ghost t = v@;
    let mut st: (Option<String>, Option<String>) = (None, None);
    let mut start: usize = 0;
    let mut k: usize = 0;
    while k < len
        invariant
            start <= k <= len,
            len == v@.len(),
            t == v@,
            v@ == q@,
            split_on(t.take(k as int), '&').last() == t.subrange(start as int, k as int),
            query_fold(split_on(t.take(k as int), '&').drop_last()) == (
                opt_view(st.0),
                opt_view(st.1),
            ),
        decreases len - k,
    {
        if v[k] == '&' {
            proof {
                lemma_split_step_sep(t, '&', k as int);
                lemma_split_end(t.take(k as int), '&');
            }
            st = query_step_exec(st, q, &v, start, k);
            start = k + 1;
            assert(t.subrange(start as int, (k + 1) as int) =~= Seq::<char>::empty());
        } else {
            proof {
                lemma_split_step_other(t, '&', k as int, start as int);
            }
        }
        k = k + 1;
    }
    proof {
        lemma_split_end(t, '&');
    }
    query_step_exec(st, q, &v, start, len)
}

/// One proxy of the Clash provider YAML; `n` is its number, from 1.
pub open spec fn clash_entry(n: nat, uuid: Seq<char>, host: Seq<char>, port: u16, path: Seq<char>) -> Seq<
    char,
> {
    "  - name: hpx-"@ + decimal(n) + "\n"@ + "    type: vless\n"@ + "    server: "@ + host + "\n"@
        + "    port: "@ + decimal(port as nat) + "\n"@ + "    uuid: "@ + uuid + "\n"@
        + "    udp: false\n"@ + "    tls: true\n"@ + "    servername: "@ + host + "\n"@
        + "    network: h2\n"@ + "    h2-opts:\n"@ + "      host:\n"@ + "        - "@ + host + "\n"@
        + "      path: "@ + path + "\n"@
}

/// The proxies of the first `users.len()` users, numbered from 1.
pub open spec fn clash_entries(users: Seq<Seq<u8>>, host: Seq<char>, port: u16, path: Seq<char>) -> Seq<
    char,
>
    decreases users.len(),
{
    if users.len() == 0 {
        Seq::empty()
    } else {
        clash_entries(users.drop_last(), host, port, path) + clash_entry(
            users.len(),
            hyphenated(users.last()),
            host,
            port,
            path,
        )
    }
}

/// The Clash provider YAML: `proxies:` and one VLESS-over-HTTP/2 proxy per
/// user, all pointing at the public host and port.
pub open spec fn clash_yaml(c: ConfigView) -> Seq<char> {
    "proxies:\n"@ + clash_entries(c.users, c.public_host, c.public_port, c.path)
}

/// One VLESS link, with its line break; `n` is its number, from 1.
pub open spec fn vless_link(n: nat, uuid: Seq<char>, host: Seq<char>, port: u16, path: Seq<char>) -> Seq<
    char,
> {
    "vless://"@ + uuid + "@"@ + host + ":"@ + decimal(port as nat)
        + "?encryption=none&security=tls&type=http&host="@ + host + "&path="@ + path + "&sni="@
        + host + "#hpx-"@ + decimal(n) + "\n"@
}

/// The links of the first `users.len()` users, numbered from 1.
pub open spec fn vless_links(users: Seq<Seq<u8>>, host: Seq<char>, port: u16, path: Seq<char>) -> Seq<
    char,
>
    decreases users.len(),
{
    if users.len() == 0 {
        Seq::empty()
    } else {
        vless_links(users.drop_last(), host, port, path) + vless_link(
            users.len(),
            hyphenated(users.last()),
            host,
            port,
            path,
        )
    }
}

/// The proxies of the users one by one: the i-th is numbered i + 1 and
/// carries the i-th user's id.
pub open spec fn clash_entry_list(users: Seq<Seq<u8>>, host: Seq<char>, port: u16, path: Seq<char>) -> Seq<
    Seq<char>,
> {
    Seq::new(users.len(), |i: int| clash_entry((i + 1) as nat, hyphenated(users[i]), host, port, path))
}

/// The links of the users one by one: the i-th is numbered i + 1 and
/// carries the i-th user's id.
pub open spec fn vless_link_list(users: Seq<Seq<u8>>, host: Seq<char>, port: u16, path: Seq<char>) -> Seq<
    Seq<char>,
> {
    Seq::new(users.len(), |i: int| vless_link((i + 1) as nat, hyphenated(users[i]), host, port, path))
}

proof fn lemma_clash_entries_list(users: Seq<Seq<u8>>, host: Seq<char>, port: u16, path: Seq<char>)
    ensures
        clash_entries(users, host, port, path) == clash_entry_list(users, host, port, path).flatten_alt(),
    decreases users.len(),
{
    if users.len() > 0 {
        let rest = users.drop_last();
        lemma_clash_entries_list(rest, host, port, path);
        assert(clash_entry_list(users, host, port, path).drop_last() =~= clash_entry_list(rest, host, port, path));
    }
}

proof fn lemma_vless_links_list(users: Seq<Seq<u8>>, host: Seq<char>, port: u16, path: Seq<char>)
    ensures
        vless_links(users, host, port, path) == vless_link_list(users, host, port, path).flatten_alt(),
    decreases users.len(),
{
    if users.len() > 0 {
        let rest = users.drop_last();
        lemma_vless_links_list(rest, host, port, path);
        assert(vless_link_list(users, host, port, path).drop_last() =~= vless_link_list(rest, host, port, path));
    }
}

/// The Clash YAML has exactly one proxy per user, in the users' order: it is
/// `proxies:` followed by the users' entries one after another.
pub proof fn lemma_clash_entry_per_user(c: ConfigView)
    ensures
        clash_entry_list(c.users, c.public_host, c.public_port, c.path).len() == c.users.len(),
        clash_yaml(c) == "proxies:\n"@ + clash_entry_list(c.users, c.public_host, c.public_port, c.path).flatten(),
{
    lemma_clash_entries_list(c.users, c.public_host, c.public_port, c.path);
    clash_entry_list(c.users, c.public_host, c.public_port, c.path).lemma_flatten_and_flatten_alt_are_equivalent();
}

/// The link list has exactly one link per user, in the users' order: it is
/// the users' links one after another, each ending with a line break.
pub proof fn lemma_vless_link_per_user(c: ConfigView)
    ensures
        vless_link_list(c.users, c.public_host, c.public_port, c.path).len() == c.users.len(),
        vless_links(c.users, c.public_host, c.public_port, c.path) == vless_link_list(
            c.users,
            c.public_host,
            c.public_port,
            c.path,
        ).flatten(),
{
    lemma_vless_links_list(c.users, c.public_host, c.public_port, c.path);
    vless_link_list(c.users, c.public_host, c.public_port, c.path).lemma_flatten_and_flatten_alt_are_equivalent();
}

/// Appends the YAML of proxy number `n`.
#[verifier::rlimit(30)]
fn append_clash_entry(out: &mut String, n: u64, uuid: &String, host: &String, port: u16, path: &String)
    ensures
        final(out)@ == old(out)@ + clash_entry(n as nat, uuid@, host@, port, path@),
{
    let ghost start = out@;
    let num = decimal_string(n);
    let port_text = decimal_string(port as u64);
    out.append("  - name: hpx-");
    out.append(num.as_str());
    out.append("\n");
    out.append("    type: vless\n");
    out.append("    server: ");
    out.append(host.as_str());
    out.append("\n");
    out.append("    port: ");
    out.append(port_text.as_str());
    out.append("\n");
    out.append("    uuid: ");
    out.append(uuid.as_str());
    out.append("\n");
    out.append("    udp: false\n");
    out.append("    tls: true\n");
    out.append("    servername: ");
    out.append(host.as_str());
    out.append("\n");
    out.append("    network: h2\n");
    out.append("    h2-opts:\n");
    out.append("      host:\n");
    out.append("        - ");
    out.append(host.as_str());
    out.append("\n");
    out.append("      path: ");
    out.append(path.as_str());
    out.append("\n");
    assert(out@ =~= start + clash_entry(n as nat, uuid@, host@, port, path@));
}

/// The Clash provider YAML of the configuration.
pub fn build_clash_yaml(cfg: &Config) -> (r: String)
    ensures
        r@ == clash_yaml(cfg@),
{
    let mut out = String::new();
    out.append("proxies:\n");
    let n = cfg.users.len();
    let ghost users = ids_view(cfg.users);
    let mut i: usize = 0;
    while i < n
        invariant
            i <= n,
            n == cfg.users@.len(),
            users == ids_view(cfg.users),
            out@ == "proxies:\n"@ + clash_entries(
                users.take(i as int),
                cfg.public_host@,
                cfg.public_port,
                cfg.path@,
            ),
        decreases n - i,
    {
        let uuid = uuid_to_string(&cfg.users[i]);
        proof {
            assert(users.take(i + 1).drop_last() =~= users.take(i as int));
            assert(users.take(i + 1).last() == cfg.users@[i as int]@);
        }
        append_clash_entry(&mut out, (i as u64) + 1, &uuid, &cfg.public_host, cfg.public_port, &cfg.path);
        assert(out@ =~= "proxies:\n"@ + clash_entries(
            users.take(i + 1),
            cfg.public_host@,
            cfg.public_port,
            cfg.path@,
        ));
        i = i + 1;
    }
    assert(users.take(n as int) =~= users);
    out
}

/// Appends the link of user number `n`.
fn append_vless_link(out: &mut String, n: u64, uuid: &String, host: &String, port: u16, path: &String)
    ensures
        final(out)@ == old(out)@ + vless_link(n as nat, uuid@, host@, port, path@),
{
    let ghost start = out@;
    let num = decimal_string(n);
    let port_text = decimal_string(port as u64);
    out.append("vless://");
    out.append(uuid.as_str());
    out.append("@");
    out.append(host.as_str());
    out.append(":");
    out.append(port_text.as_str());
    out.append("?encryption=none&security=tls&type=http&host=");
    out.append(host.as_str());
    out.append("&path=");
    out.append(path.as_str());
    out.append("&sni=");
    out.append(host.as_str());
    out.append("#hpx-");
    out.append(num.as_str());
    out.append("\n");
    assert(out@ =~= start + vless_link(n as nat, uuid@, host@, port, path@));
}

/// The VLESS links of the configuration, one per line.
pub fn build_vless_links(cfg: &Config) -> (r: String)
    ensures
        r@ == vless_links(cfg@.users, cfg@.public_host, cfg@.public_port, cfg@.path),
{
    let mut out = String::new();
    let n = cfg.users.len();
    let ghost users = ids_view(cfg.users);
    let mut i: usize = 0;
    while i < n
        invariant
            i <= n,
            n == cfg.users@.len(),
            users == ids_view(cfg.users),
            out@ == vless_links(users.take(i as int), cfg.public_host@, cfg.public_port, cfg.path@),
        decreases n - i,
    {
        let uuid = uuid_to_string(&cfg.users[i]);
        proof {
            assert(users.take(i + 1).drop_last() =~= users.take(i as int));
            assert(users.take(i + 1).last() == cfg.users@[i as int]@);
        }
        append_vless_link(&mut out, (i as u64) + 1, &uuid, &cfg.public_host, cfg.public_port, &cfg.path);
        i = i + 1;
    }
    assert(users.take(n as int) =~= users);
    out
}

pub const FMT_VLESS: [char; 5] = ['v', 'l', 'e', 's', 's'];
pub const FMT_URI: [char; 3] = ['u', 'r', 'i'];
pub const FMT_LINKS: [char; 5] = ['l', 'i', 'n', 'k', 's'];

/// The answer to a subscription request.
#[derive(Clone, Debug, PartialEq, Eq)]
pub enum SubscriptionReply {
    /// Status 404, no body.
    NotFound,
    /// Status 200 with this content type and body.
    Document { content_type: String, body: String },
}

/// Mathematical view of a `SubscriptionReply`.
pub enum ReplyView {
    NotFound,
    Document(Seq<char>, Seq<char>),
}

impl View for SubscriptionReply {
    type V = ReplyView;

    open spec fn view(&self) -> ReplyView {
        match *self {
            SubscriptionReply::NotFound => ReplyView::NotFound,
            SubscriptionReply::Document { content_type, body } => ReplyView::Document(
                content_type@,
                body@,
            ),
        }
    }
}

/// Whether the format asks for VLESS links rather than YAML.
pub open spec fn wants_links(fmt: Option<Seq<char>>) -> bool {
    fmt matches Some(f) && (f == FMT_VLESS@ || f == FMT_URI@ || f == FMT_LINKS@)
}

/// The answer to a subscription request with the given (lower-case)
/// authority and query: 404 without an allowed authority or, when a token
/// is configured, without that token; otherwise the links (for format
/// `vless`, `uri` or `links`) or the YAML (for any other format or none).
pub open spec fn spec_subscription_reply(
    c: ConfigView,
    authority: Option<Seq<char>>,
    query: Option<Seq<char>>,
) -> ReplyView {
    let (fmt, token) = spec_parse_sub_query(query);
    if !(authority matches Some(a) && c.hosts.contains(a)) {
        ReplyView::NotFound
    } else if c.sub_token is Some && token != c.sub_token {
        ReplyView::NotFound
    } else if wants_links(fmt) {
        ReplyView::Document(
            "text/plain; charset=utf-8"@,
            vless_links(c.users, c.public_host, c.public_port, c.path),
        )
    } else {
        ReplyView::Document("text/yaml; charset=utf-8"@, clash_yaml(c))
    }
}

/// The answer to a subscription request: nothing unless the authority is
/// one of the hosts and, when a token is configured, the query gives exactly
/// that token; then the VLESS links as plain text for the formats `vless`,
/// `uri` and `links`, and the Clash YAML for any other format or none.
pub proof fn lemma_subscription_reply(c: ConfigView, authority: Option<Seq<char>>, query: Option<Seq<char>>)
    ensures
        ({
            let fmt = spec_parse_sub_query(query).0;
            let token = spec_parse_sub_query(query).1;
            let admitted = (authority matches Some(a) && c.hosts.contains(a)) && (c.sub_token matches Some(
                t,
            ) ==> token == Some(t));
            let links = ReplyView::Document(
                "text/plain; charset=utf-8"@,
                vless_links(c.users, c.public_host, c.public_port, c.path),
            );
            let yaml = ReplyView::Document("text/yaml; charset=utf-8"@, clash_yaml(c));
            let r = spec_subscription_reply(c, authority, query);
            &&& !admitted ==> r == ReplyView::NotFound
            &&& admitted && fmt is None ==> r == yaml
            &&& admitted && (fmt == Some(FMT_VLESS@) || fmt == Some(FMT_URI@) || fmt == Some(FMT_LINKS@))
                ==> r == links
            &&& admitted && fmt is Some && fmt != Some(FMT_VLESS@) && fmt != Some(FMT_URI@) && fmt != Some(
                FMT_LINKS@,
            ) ==> r == yaml
        }),
{
}

fn opt_string_eq(a: &Option<String>, b: &Option<String>) -> (r: bool)
    ensures
        r == (opt_view(*a) == opt_view(*b)),
{
    match (a, b) {
        (Some(x), Some(y)) => *x == *y,
        (None, None) => true,
        _ => false,
    }
}

/// Whether the format asks for VLESS links.
fn wants_links_exec(fmt: &Option<String>) -> (r: bool)
    ensures
        r == wants_links(opt_view(*fmt)),
{
    match fmt {
        None => false,
        Some(f) => {
            let v = chars_of(f.as_str());
            let n = v.len();
            assert(v@.subrange(0, n as int) =~= f@);
            range_eq(&v, 0, n, &FMT_VLESS) || range_eq(&v, 0, n, &FMT_URI) || range_eq(
                &v,
                0,
                n,
                &FMT_LINKS,
            )
        },
    }
}

/// Answers a subscription request with the given (lower-case) authority and
/// query string.
pub fn subscription_reply(cfg: &Config, authority: Option<String>, query: Option<&str>) -> (r:
    SubscriptionReply)
    ensures
        r@ == spec_subscription_reply(
            cfg@,
            opt_view(authority),
            match query {
                Some(q) => Some(q@),
                None => None,
            },
        ),
{
    let allowed = match &authority {
        None => false,
        Some(a) => contains_str(&cfg.hosts, a),
    };
    if !allowed {
        return SubscriptionReply::NotFound;
    }
    let (fmt, token) = parse_sub_query(query);
    if cfg.sub_token.is_some() && !opt_string_eq(&token, &cfg.sub_token) {
        return SubscriptionReply::NotFound;
    }
    if wants_links_exec(&fmt) {
        SubscriptionReply::Document {
            content_type: "text/plain; charset=utf-8".to_owned(),
            body: build_vless_links(cfg),
        }
    } else {
        SubscriptionReply::Document {
            content_type: "text/yaml; charset=utf-8".to_owned(),
            body: build_clash_yaml(cfg),
        }
    }
}

} // verus!
