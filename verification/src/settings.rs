//! The server's settings: the configuration file and the command line
//! merged, with defaults, checks and normalization.

use vstd::prelude::*;

use crate::file_config::{empty_config, opt_view, strs_view, FileConfig, FileConfigView};
use crate::net::{Ipv4Addr, SockView, SocketAddress};
use crate::text::{ascii_lower, to_ascii_lowercase};
use crate::user_id::{parse_uuid, uuid_parse};

verus! {

broadcast use vstd::string::group_string_axioms;

/// Values given on the command line; `None` where an option was not given.
#[derive(Debug, Clone)]
pub struct CliArgs {
    pub listen: Option<SocketAddress>,
    pub cert: Option<String>,
    pub key: Option<String>,
    pub hosts: Vec<String>,
    pub path: Option<String>,
    pub uuids: Vec<String>,
    pub connect_timeout_ms: Option<u64>,
    pub idle_timeout_s: Option<u64>,
}

/// What a running server needs to decide about requests.
#[derive(Debug, Clone)]
pub struct Config {
    /// Accepted authorities, in ASCII lower case, each once.
    pub hosts: Vec<String>,
    /// The path of the proxy endpoint.
    pub path: String,
    /// Accepted user ids, each once.
    pub users: Vec<[u8; 16]>,
    pub connect_timeout_ms: u64,
    pub idle_timeout_s: u64,
    pub sub_path: Option<String>,
    pub sub_token: Option<String>,
    pub public_host: String,
    pub public_port: u16,
}

/// Everything the server starts with.
#[derive(Debug, Clone)]
pub struct Settings {
    pub listen: SocketAddress,
    pub cert: String,
    pub key: String,
    pub config: Config,
}

/// Why the settings could not be made.
#[derive(Clone, Debug, PartialEq, Eq)]
pub enum SettingsError {
    /// No certificate path on the command line or in the file.
    MissingCert,
    /// No private key path on the command line or in the file.
    MissingKey,
    /// No host on the command line or in the file.
    MissingHost,
    /// A user id that is not a UUID.
    InvalidUuid { uuid: String },
    /// No user id on the command line or in the file.
    MissingUuid,
    /// Neither a public host nor a non-empty host to stand for it.
    NoPublicHost,
}

/// Mathematical view of the command line.
pub struct CliView {
    pub listen: Option<SockView>,
    pub cert: Option<Seq<char>>,
    pub key: Option<Seq<char>>,
    pub hosts: Seq<Seq<char>>,
    pub path: Option<Seq<char>>,
    pub uuids: Seq<Seq<char>>,
    pub connect_timeout_ms: Option<u64>,
    pub idle_timeout_s: Option<u64>,
}

/// Mathematical view of a `Config`.
pub struct ConfigView {
    pub hosts: Seq<Seq<char>>,
    pub path: Seq<char>,
    pub users: Seq<Seq<u8>>,
    pub connect_timeout_ms: u64,
    pub idle_timeout_s: u64,
    pub sub_path: Option<Seq<char>>,
    pub sub_token: Option<Seq<char>>,
    pub public_host: Seq<char>,
    pub public_port: u16,
}

/// Mathematical view of `Settings`.
pub struct SettingsView {
    pub listen: SockView,
    pub cert: Seq<char>,
    pub key: Seq<char>,
    pub config: ConfigView,
}

/// Mathematical view of a `SettingsError`.
pub enum SettingsErrorView {
    MissingCert,
    MissingKey,
    MissingHost,
    InvalidUuid(Seq<char>),
    MissingUuid,
    NoPublicHost,
}

pub open spec fn ids_view(v: Vec<[u8; 16]>) -> Seq<Seq<u8>> {
    v@.map_values(|b: [u8; 16]| b@)
}

impl View for CliArgs {
    type V = CliView;

    open spec fn view(&self) -> CliView {
        CliView {
            listen: match self.listen {
                Some(a) => Some(a.view_sock()),
                None => None,
            },
            cert: opt_view(self.cert),
            key: opt_view(self.key),
            hosts: strs_view(self.hosts),
            path: opt_view(self.path),
            uuids: strs_view(self.uuids),
            connect_timeout_ms: self.connect_timeout_ms,
            idle_timeout_s: self.idle_timeout_s,
        }
    }
}

impl View for Config {
    type V = ConfigView;

    open spec fn view(&self) -> ConfigView {
        ConfigView {
            hosts: strs_view(self.hosts),
            path: self.path@,
            users: ids_view(self.users),
            connect_timeout_ms: self.connect_timeout_ms,
            idle_timeout_s: self.idle_timeout_s,
            sub_path: opt_view(self.sub_path),
            sub_token: opt_view(self.sub_token),
            public_host: self.public_host@,
            public_port: self.public_port,
        }
    }
}

impl View for Settings {
    type V = SettingsView;

    open spec fn view(&self) -> SettingsView {
        SettingsView {
            listen: self.listen.view_sock(),
            cert: self.cert@,
            key: self.key@,
            config: self.config@,
        }
    }
}

impl View for SettingsError {
    type V = SettingsErrorView;

    open spec fn view(&self) -> SettingsErrorView {
        match *self {
            SettingsError::MissingCert => SettingsErrorView::MissingCert,
            SettingsError::MissingKey => SettingsErrorView::MissingKey,
            SettingsError::MissingHost => SettingsErrorView::MissingHost,
            SettingsError::InvalidUuid { uuid } => SettingsErrorView::InvalidUuid(uuid@),
            SettingsError::MissingUuid => SettingsErrorView::MissingUuid,
            SettingsError::NoPublicHost => SettingsErrorView::NoPublicHost,
        }
    }
}

/// A path as the server uses it: empty means `/`, and a missing leading `/`
/// is added.
pub open spec fn normalize(p: Seq<char>) -> Seq<char> {
    if p.len() == 0 {
        seq!['/']
    } else if p[0] == '/' {
        p
    } else {
        seq!['/'] + p
    }
}

/// A normalized path starts with `/`, and normalizing it again keeps it.
pub proof fn lemma_normalize_idempotent(p: Seq<char>)
    ensures
        normalize(p).len() > 0,
        normalize(p)[0] == '/',
        normalize(normalize(p)) == normalize(p),
{
}

/// Normalizes a path: `""` becomes `"/"`, and `"x"` becomes `"/x"`.
pub fn normalize_path(path: &str) -> (r: String)
    ensures
        r@ == normalize(path@),
{
    let slash = "/";
    proof {
        reveal_strlit("/");
    }
    let n = path.unicode_len();
    if n == 0 {
        return slash.to_owned();
    }
    if path.get_char(0) == '/' {
        path.to_owned()
    } else {
        let mut s = slash.to_owned();
        s.append(path);
        s
    }
}

/// `s` with repeated elements left out, keeping each first occurrence.
pub open spec fn dedup<T>(s: Seq<T>) -> Seq<T>
    decreases s.len(),
{
    if s.len() == 0 {
        Seq::empty()
    } else {
        let r = dedup(s.drop_last());
        if r.contains(s.last()) {
            r
        } else {
            r.push(s.last())
        }
    }
}

/// The first non-empty string of `s`.
pub open spec fn first_nonempty(s: Seq<Seq<char>>) -> Option<Seq<char>>
    decreases s.len(),
{
    if s.len() == 0 {
        None
    } else {
        match first_nonempty(s.drop_last()) {
            Some(x) => Some(x),
            None => if s.last().len() > 0 {
                Some(s.last())
            } else {
                None
            },
        }
    }
}

/// The user ids of a list of parse results: the first unparsable text is
/// the error; otherwise the ids, each once.
pub open spec fn collect_users(texts: Seq<Seq<char>>, parsed: Seq<Option<Seq<u8>>>) -> Result<
    Seq<Seq<u8>>,
    Seq<char>,
>
    decreases parsed.len(),
{
    if parsed.len() == 0 {
        Ok(Seq::empty())
    } else {
        match collect_users(texts, parsed.drop_last()) {
            Err(e) => Err(e),
            Ok(r) => match parsed.last() {
                None => Err(texts[parsed.len() - 1]),
                Some(b) => {
                    let next = if r.contains(b) {
                        r
                    } else {
                        r.push(b)
                    };
                    Ok(next)
                },
            },
        }
    }
}

/// The default listening address, `0.0.0.0:443`.
pub open spec fn default_listen() -> SockView {
    SockView::V4(seq![0u8, 0u8, 0u8, 0u8], 443)
}

pub open spec fn or_else<T>(a: Option<T>, b: Option<T>) -> Option<T> {
    match a {
        Some(x) => Some(x),
        None => b,
    }
}

pub open spec fn file_or_empty(f: Option<FileConfigView>) -> FileConfigView {
    match f {
        Some(x) => x,
        None => empty_config(),
    }
}

pub open spec fn port_of(l: SockView) -> u16 {
    match l {
        SockView::V4(_, port) => port,
        SockView::V6(_, port, _) => port,
    }
}

pub open spec fn opt_or<T>(a: Option<T>, d: T) -> T {
    match a {
        Some(x) => x,
        None => d,
    }
}

/// The settings when nothing is missing or malformed.
pub open spec fn merged_view(
    fc: FileConfigView,
    a: CliView,
    cert: Seq<char>,
    key: Seq<char>,
    users: Seq<Seq<u8>>,
    public_host: Seq<char>,
) -> SettingsView {
    let listen = opt_or(or_else(a.listen, fc.listen), default_listen());
    SettingsView {
        listen,
        cert,
        key,
        config: ConfigView {
            hosts: dedup((fc.hosts + a.hosts).map_values(|h: Seq<char>| ascii_lower(h))),
            path: normalize(opt_or(or_else(a.path, fc.path), seq!['/'])),
            users,
            connect_timeout_ms: opt_or(or_else(a.connect_timeout_ms, fc.connect_timeout_ms), 5000u64),
            idle_timeout_s: opt_or(or_else(a.idle_timeout_s, fc.idle_timeout_s), 300u64),
            sub_path: match fc.sub_path {
                Some(p) => Some(normalize(p)),
                None => None,
            },
            sub_token: fc.sub_token,
            public_host,
            public_port: opt_or(fc.public_port, port_of(listen)),
        },
    }
}

/// The merge of a configuration file `f` (if any) and the command line `a`,
/// given the parse results `parsed` of the user ids of the file followed by
/// those of the command line. A value on the command line wins over one in
/// the file, which wins over the default; hosts and user ids of both are
/// merged, the file's first. Errors are looked for in this order: certificate,
/// key, hosts, user ids, public host.
pub open spec fn spec_merge(f: Option<FileConfigView>, a: CliView, parsed: Seq<Option<Seq<u8>>>) -> Result<
    SettingsView,
    SettingsErrorView,
> {
    let fc = file_or_empty(f);
    let all_hosts = fc.hosts + a.hosts;
    let all_uuids = fc.uuids + a.uuids;
    let cert = or_else(a.cert, fc.cert);
    let key = or_else(a.key, fc.key);
    let users = collect_users(all_uuids, parsed);
    let public_host = or_else(fc.public_host, first_nonempty(all_hosts));
    if cert is None {
        Err(SettingsErrorView::MissingCert)
    } else if key is None {
        Err(SettingsErrorView::MissingKey)
    } else if all_hosts.len() == 0 {
        Err(SettingsErrorView::MissingHost)
    } else if users is Err {
        Err(SettingsErrorView::InvalidUuid(users->Err_0))
    } else if users->Ok_0.len() == 0 {
        Err(SettingsErrorView::MissingUuid)
    } else if public_host is None {
        Err(SettingsErrorView::NoPublicHost)
    } else {
        Ok(merged_view(fc, a, cert->0, key->0, users->Ok_0, public_host->0))
    }
}

pub open spec fn file_view(f: Option<FileConfig>) -> Option<FileConfigView> {
    match f {
        Some(x) => Some(x@),
        None => None,
    }
}

pub open spec fn parsed_view(p: Vec<Option<[u8; 16]>>) -> Seq<Option<Seq<u8>>> {
    p@.map_values(
        |o: Option<[u8; 16]>|
            match o {
                Some(b) => Some(b@),
                None => None,
            },
    )
}

fn clone_opt(o: &Option<String>) -> (r: Option<String>)
    ensures
        opt_view(r) == opt_view(*o),
{
    match o {
        Some(s) => Some(s.clone()),
        None => None,
    }
}

/// Appends `s` unless an equal string is already there.
fn push_unique_str(v: &mut Vec<String>, s: String)
    ensures
        strs_view(*final(v)) == if strs_view(*old(v)).contains(s@) {
            strs_view(*old(v))
        } else {
            strs_view(*old(v)).push(s@)
        },
{
    let mut k: usize = 0;
    while k < v.len()
        invariant
            k <= v@.len(),
            forall|m: int| 0 <= m < k ==> v@[m]@ != s@,
        decreases v@.len() - k,
    {
        if v[k] == s {
            proof {
                assert(strs_view(*v)[k as int] == s@);
            }
            return;
        }
        k = k + 1;
    }
    let ghost before = strs_view(*v);
    proof {
        assert forall|m: int| 0 <= m < before.len() implies before[m] != s@ by {
            assert(before[m] == v@[m]@);
        }
    }
    v.push(s);
    assert(strs_view(*v) =~= before.push(s@));
}

/// Whether two ids are equal.
fn same_id(a: &[u8; 16], b: &[u8; 16]) -> (r: bool)
    ensures
        r == (a@ == b@),
{
    let mut k: usize = 0;
    while k < 16
        invariant
            k <= 16,
            forall|m: int| 0 <= m < k ==> a@[m] == b@[m],
        decreases 16 - k,
    {
        if a[k] != b[k] {
            return false;
        }
        k = k + 1;
    }
    assert(a@ =~= b@);
    true
}

/// Whether `v` holds the id `b`.
pub fn contains_id(v: &Vec<[u8; 16]>, b: &[u8; 16]) -> (r: bool)
    ensures
        r == ids_view(*v).contains(b@),
{
    let mut k: usize = 0;
    while k < v.len()
        invariant
            k <= v@.len(),
            forall|m: int| 0 <= m < k ==> v@[m]@ != b@,
        decreases v@.len() - k,
    {
        if same_id(&v[k], b) {
            assert(ids_view(*v)[k as int] == b@);
            return true;
        }
        k = k + 1;
    }
    proof {
        if ids_view(*v).contains(b@) {
            let m = choose|m: int| 0 <= m < ids_view(*v).len() && ids_view(*v)[m] == b@;
            assert(v@[m]@ == b@);
        }
    }
    false
}

/// Whether `v` holds a string equal to `s`.
pub fn contains_str(v: &Vec<String>, s: &String) -> (r: bool)
    ensures
        r == strs_view(*v).contains(s@),
{
    let mut k: usize = 0;
    while k < v.len()
        invariant
            k <= v@.len(),
            forall|m: int| 0 <= m < k ==> v@[m]@ != s@,
        decreases v@.len() - k,
    {
        if v[k] == *s {
            assert(strs_view(*v)[k as int] == s@);
            return true;
        }
        k = k + 1;
    }
    proof {
        if strs_view(*v).contains(s@) {
            let m = choose|m: int| 0 <= m < strs_view(*v).len() && strs_view(*v)[m] == s@;
            assert(v@[m]@ == s@);
        }
    }
    false
}

/// One more host: its lower-case form joins `hosts` unless already there,
/// and it becomes the primary host if it is the first non-empty one.
fn add_host(
    hosts: &mut Vec<String>,
    primary: &mut Option<String>,
    h: &String,
    Ghost(all): Ghost<Seq<Seq<char>>>,
    Ghost(i): Ghost<int>,
)
    requires
        0 <= i < all.len(),
        all[i] == h@,
        strs_view(*old(hosts)) == dedup(all.take(i).map_values(|x: Seq<char>| ascii_lower(x))),
        opt_view(*old(primary)) == first_nonempty(all.take(i)),
    ensures
        strs_view(*final(hosts)) == dedup(all.take(i + 1).map_values(|x: Seq<char>| ascii_lower(x))),
        opt_view(*final(primary)) == first_nonempty(all.take(i + 1)),
{
    let lower = to_ascii_lowercase(h.as_str());
    proof {
        let before = all.take(i);
        let after = all.take(i + 1);
        assert(after.drop_last() =~= before);
        assert(after.last() == h@);
        let la = after.map_values(|x: Seq<char>| ascii_lower(x));
        assert(la.drop_last() =~= before.map_values(|x: Seq<char>| ascii_lower(x)));
        assert(la.last() == ascii_lower(h@));
    }
    push_unique_str(hosts, lower);
    if primary.is_none() && h.unicode_len() > 0 {
        *primary = Some(h.clone());
    }
}

/// Merges a configuration file (if any) and the command line, given the
/// parse results `parsed` of the user ids of the file followed by those of
/// the command line.
pub fn merge_settings(file: Option<FileConfig>, args: CliArgs, parsed: Vec<Option<[u8; 16]>>) -> (r:
    Result<Settings, SettingsError>)
    requires
        parsed@.len() == file_or_empty(file_view(file)).uuids.len() + args@.uuids.len(),
    ensures
        match spec_merge(file_view(file), args@, parsed_view(parsed)) {
            Ok(sv) => r matches Ok(x) && x@ == sv,
            Err(e) => r matches Err(x) && x@ == e,
        },
{
    let fc = match file {
        Some(f) => f,
        None => FileConfig::default(),
    };
    let ghost fv = fc@;
    assert(fv == file_or_empty(file_view(file)));
    let cert = match &args.cert {
        Some(c) => c.clone(),
        None => match &fc.cert {
            Some(c) => c.clone(),
            None => return Err(SettingsError::MissingCert),
        },
    };
    let key = match &args.key {
        Some(c) => c.clone(),
        None => match &fc.key {
            Some(c) => c.clone(),
            None => return Err(SettingsError::MissingKey),
        },
    };
    assert(or_else(args@.cert, fv.cert) == Some(cert@));
    assert(or_else(args@.key, fv.key) == Some(key@));
    // hosts: the file's, then the command line's
    let nf = fc.hosts.len();
    let na = args.hosts.len();
    let ghost all_hosts = fv.hosts + args@.hosts;
    if nf == 0 && na == 0 {
        return Err(SettingsError::MissingHost);
    }
    let mut hosts: Vec<String> = Vec::new();
    let mut primary: Option<String> = None;
    assert(all_hosts.take(0) =~= Seq::<Seq<char>>::empty());
    assert(strs_view(hosts) =~= Seq::<Seq<char>>::empty());
    let mut i: usize = 0;
    while i < nf
        invariant
            i <= nf,
            nf == fc.hosts@.len(),
            fv == fc@,
            all_hosts == fv.hosts + args@.hosts,
            strs_view(hosts) == dedup(all_hosts.take(i as int).map_values(|h: Seq<char>| ascii_lower(h))),
            opt_view(primary) == first_nonempty(all_hosts.take(i as int)),
        decreases nf - i,
    {
        let h: &String = &fc.hosts[i];
        assert(h@ == all_hosts[i as int]);
        add_host(&mut hosts, &mut primary, h, Ghost(all_hosts), Ghost(i as int));
        i = i + 1;
    }
    let mut j: usize = 0;
    while j < na
        invariant
            j <= na,
            nf == fc.hosts@.len(),
            na == args.hosts@.len(),
            fv == fc@,
            all_hosts == fv.hosts + args@.hosts,
            strs_view(hosts) == dedup(all_hosts.take(nf + j).map_values(|h: Seq<char>| ascii_lower(h))),
            opt_view(primary) == first_nonempty(all_hosts.take(nf + j)),
        decreases na - j,
    {
        let h: &String = &args.hosts[j];
        assert(h@ == all_hosts[nf + j]);
        add_host(&mut hosts, &mut primary, h, Ghost(all_hosts), Ghost(nf + j));
        j = j + 1;
    }
    assert(all_hosts.take(nf + na) =~= all_hosts);
    // users
    let ghost all_uuids = fv.uuids + args@.uuids;
    let nu = parsed.len();
    let nfu = fc.uuids.len();
    let mut users: Vec<[u8; 16]> = Vec::new();
    assert(parsed_view(parsed).take(0) =~= Seq::<Option<Seq<u8>>>::empty());
    assert(ids_view(users) =~= Seq::<Seq<u8>>::empty());
    let mut j: usize = 0;
    while j < nu
        invariant
            j <= nu,
            nu == parsed@.len(),
            nfu == fc.uuids@.len(),
            nu == fc.uuids@.len() + args.uuids@.len(),
            fv == fc@,
            all_uuids == fv.uuids + args@.uuids,
            collect_users(all_uuids, parsed_view(parsed).take(j as int)) == Ok::<
                Seq<Seq<u8>>,
                Seq<char>,
            >(ids_view(users)),
            or_else(args@.cert, fv.cert) == Some(cert@),
            or_else(args@.key, fv.key) == Some(key@),
            all_hosts.len() > 0,
            all_hosts == fv.hosts + args@.hosts,
            fv == file_or_empty(file_view(file)),
        decreases nu - j,
    {
        let ghost pv = parsed_view(parsed);
        proof {
            assert(pv.take(j + 1).drop_last() =~= pv.take(j as int));
            assert(pv.take(j + 1).last() == pv[j as int]);
        }
        match parsed[j] {
            None => {
                let t: &String = if j < nfu {
                    &fc.uuids[j]
                } else {
                    &args.uuids[j - nfu]
                };
                assert(t@ == all_uuids[j as int]);
                proof {
                    lemma_collect_err_stays(all_uuids, pv, j as int + 1);
                    assert(collect_users(all_uuids, pv) == Err::<Seq<Seq<u8>>, Seq<char>>(t@));
                    assert(or_else(args@.cert, fv.cert) == Some(cert@));
                    assert(or_else(args@.key, fv.key) == Some(key@));
                    assert(all_hosts.len() > 0);
                    assert(pv == parsed_view(parsed));
                }
                return Err(SettingsError::InvalidUuid { uuid: t.clone() });
            },
            Some(b) => {
                let ghost before = ids_view(users);
                if !contains_id(&users, &b) {
                    users.push(b);
                    assert(ids_view(users) =~= before.push(b@));
                }
            },
        }
        j = j + 1;
    }
    assert(parsed_view(parsed).take(nu as int) =~= parsed_view(parsed));
    if users.len() == 0 {
        assert(ids_view(users).len() == 0);
        return Err(SettingsError::MissingUuid);
    }
    let public_host = match &fc.public_host {
        Some(p) => p.clone(),
        None => match primary {
            Some(p) => p,
            None => return Err(SettingsError::NoPublicHost),
        },
    };
    let listen = match args.listen {
        Some(l) => l,
        None => match fc.listen {
            Some(l) => l,
            None => SocketAddress::V4(Ipv4Addr::new(0, 0, 0, 0), 443),
        },
    };
    let path = match &args.path {
        Some(p) => normalize_path(p.as_str()),
        None => match &fc.path {
            Some(p) => normalize_path(p.as_str()),
            None => normalize_path("/"),
        },
    };
    proof {
        reveal_strlit("/");
    }
    let connect_timeout_ms = match args.connect_timeout_ms {
        Some(t) => t,
        None => match fc.connect_timeout_ms {
            Some(t) => t,
            None => 5000,
        },
    };
    let idle_timeout_s = match args.idle_timeout_s {
        Some(t) => t,
        None => match fc.idle_timeout_s {
            Some(t) => t,
            None => 300,
        },
    };
    let sub_path = match &fc.sub_path {
        Some(p) => Some(normalize_path(p.as_str())),
        None => None,
    };
    let sub_token = clone_opt(&fc.sub_token);
    let public_port = match fc.public_port {
        Some(p) => p,
        None => listen.port(),
    };
    let r = Settings {
        listen,
        cert,
        key,
        config: Config {
            hosts,
            path,
            users,
            connect_timeout_ms,
            idle_timeout_s,
            sub_path,
            sub_token,
            public_host,
            public_port,
        },
    };
    proof {
        let sv = spec_merge(file_view(file), args@, parsed_view(parsed));
        let users_s = collect_users(all_uuids, parsed_view(parsed));
        assert(users_s == Ok::<Seq<Seq<u8>>, Seq<char>>(ids_view(r.config.users)));
        let ph = or_else(fv.public_host, first_nonempty(all_hosts));
        assert(ph == Some(r.config.public_host@));
        let m = merged_view(fv, args@, cert@, key@, ids_view(r.config.users), r.config.public_host@);
        assert(r.listen.view_sock() == m.listen);
        assert(r.config.path@ == m.config.path);
        assert(strs_view(r.config.hosts) == m.config.hosts);
        assert(r.config.public_port == m.config.public_port);
        assert(opt_view(r.config.sub_path) == m.config.sub_path);
        assert(r@ == m);
    }
    Ok(r)
}

proof fn lemma_collect_err_stays(texts: Seq<Seq<char>>, parsed: Seq<Option<Seq<u8>>>, k: int)
    requires
        0 <= k <= parsed.len(),
        collect_users(texts, parsed.take(k)) is Err,
    ensures
        collect_users(texts, parsed) == collect_users(texts, parsed.take(k)),
    decreases parsed.len() - k,
{
    if k < parsed.len() {
        assert(parsed.take(k + 1).drop_last() =~= parsed.take(k));
        lemma_collect_err_stays(texts, parsed, k + 1);
    } else {
        assert(parsed.take(k) =~= parsed);
    }
}

/// Merges a configuration file (if any) and the command line into the
/// server's settings; user ids are read with `uuid::Uuid::parse_str`.
pub fn build_settings(file: Option<FileConfig>, args: CliArgs) -> (r: Result<Settings, SettingsError>)
    ensures
        ({
            let texts = file_or_empty(file_view(file)).uuids + args@.uuids;
            match spec_merge(
                file_view(file),
                args@,
                texts.map_values(|t: Seq<char>| uuid_parse(t)),
            ) {
                Ok(sv) => r matches Ok(x) && x@ == sv,
                Err(e) => r matches Err(x) && x@ == e,
            }
        }),
        r matches Ok(x) ==> no_dups(x@.config.hosts) && no_dups(x@.config.users),
{
    let empty = FileConfig::default();
    let fc: &FileConfig = match &file {
        Some(f) => f,
        None => &empty,
    };
    let ghost texts = fc@.uuids + args@.uuids;
    let nf = fc.uuids.len();
    let na = args.uuids.len();
    let mut parsed: Vec<Option<[u8; 16]>> = Vec::new();
    assert(parsed_view(parsed) =~= texts.take(0).map_values(|t: Seq<char>| uuid_parse(t)));
    let mut i: usize = 0;
    while i < nf
        invariant
            i <= nf,
            nf == fc.uuids@.len(),
            texts == fc@.uuids + args@.uuids,
            parsed_view(parsed) == texts.take(i as int).map_values(|t: Seq<char>| uuid_parse(t)),
        decreases nf - i,
    {
        let t: &String = &fc.uuids[i];
        assert(t@ == texts[i as int]);
        let pr = parse_uuid(t.as_str());
        let ghost before = parsed_view(parsed);
        parsed.push(pr);
        proof {
            assert(parsed_view(parsed) =~= before.push(uuid_parse(t@)));
            assert(texts.take(i + 1).map_values(|t: Seq<char>| uuid_parse(t)) =~= texts.take(i as int).map_values(
                |t: Seq<char>| uuid_parse(t),
            ).push(uuid_parse(t@)));
        }
        i = i + 1;
    }
    let mut j: usize = 0;
    while j < na
        invariant
            j <= na,
            nf == fc.uuids@.len(),
            na == args.uuids@.len(),
            texts == fc@.uuids + args@.uuids,
            parsed_view(parsed) == texts.take(nf + j).map_values(|t: Seq<char>| uuid_parse(t)),
        decreases na - j,
    {
        let t: &String = &args.uuids[j];
        assert(t@ == texts[nf + j]);
        let pr = parse_uuid(t.as_str());
        let ghost before = parsed_view(parsed);
        parsed.push(pr);
        proof {
            assert(parsed_view(parsed) =~= before.push(uuid_parse(t@)));
            assert(texts.take(nf + j + 1).map_values(|t: Seq<char>| uuid_parse(t)) =~= texts.take(nf + j).map_values(
                |t: Seq<char>| uuid_parse(t),
            ).push(uuid_parse(t@)));
        }
        j = j + 1;
    }
    assert(texts.take(nf + na) =~= texts);
    assert(fc@ == file_or_empty(file_view(file)));
    let ghost fv = file_view(file);
    let ghost av = args@;
    let ghost pv = parsed_view(parsed);
    let r = merge_settings(file, args, parsed);
    proof {
        if r is Ok {
            lemma_settings_well_formed(fv, av, pv);
        }
    }
    r
}

/// No element occurs twice.
pub open spec fn no_dups<T>(s: Seq<T>) -> bool {
    forall|i: int, j: int| 0 <= i < j < s.len() ==> s[i] != s[j]
}

/// `dedup` keeps exactly the elements, each once.
pub proof fn lemma_dedup<T>(s: Seq<T>)
    ensures
        no_dups(dedup(s)),
        forall|x: T| dedup(s).contains(x) <==> s.contains(x),
    decreases s.len(),
{
    if s.len() > 0 {
        let t = s.drop_last();
        lemma_dedup(t);
        let r = dedup(t);
        let y = s.last();
        if !r.contains(y) {
            let d = r.push(y);
            assert forall|i: int, j: int| 0 <= i < j < d.len() implies d[i] != d[j] by {
                if j == r.len() {
                    assert(d[i] == r[i]);
                    assert(d[j] == y);
                } else {
                    assert(d[i] == r[i] && d[j] == r[j]);
                }
            }
        }
        assert forall|x: T| dedup(s).contains(x) <==> s.contains(x) by {
            assert(r.contains(x) <==> t.contains(x));
            if s.contains(x) {
                let k = choose|k: int| 0 <= k < s.len() && s[k] == x;
                if k < s.len() - 1 {
                    assert(t[k] == x);
                    assert(t.contains(x));
                    assert(r.contains(x));
                    if !r.contains(y) {
                        let i = choose|i: int| 0 <= i < r.len() && r[i] == x;
                        assert(r.push(y)[i] == x);
                    }
                } else {
                    assert(x == y);
                    if !r.contains(x) {
                        assert(r.push(y)[r.len() as int] == x);
                    }
                }
            }
            if dedup(s).contains(x) {
                if r.contains(x) {
                    assert(t.contains(x));
                    let k = choose|k: int| 0 <= k < t.len() && t[k] == x;
                    assert(s[k] == x);
                } else {
                    let d = r.push(y);
                    let k = choose|k: int| 0 <= k < d.len() && d[k] == x;
                    if k < r.len() {
                        assert(r[k] == x);
                    } else {
                        assert(x == y);
                        assert(s[s.len() - 1] == x);
                    }
                }
            }
        }
    }
}

proof fn lemma_collect_users_no_dups(texts: Seq<Seq<char>>, parsed: Seq<Option<Seq<u8>>>)
    ensures
        collect_users(texts, parsed) matches Ok(u) ==> no_dups(u),
    decreases parsed.len(),
{
    if parsed.len() > 0 {
        lemma_collect_users_no_dups(texts, parsed.drop_last());
    }
}

proof fn lemma_lower_idempotent(h: Seq<char>)
    ensures
        ascii_lower(ascii_lower(h)) == ascii_lower(h),
{
    assert(ascii_lower(ascii_lower(h)) =~= ascii_lower(h));
}

/// The first non-empty string is the one with only empty strings before it.
proof fn lemma_first_nonempty_facts(s: Seq<Seq<char>>)
    ensures
        first_nonempty(s) matches Some(x) ==> exists|i: int|
            0 <= i < s.len() && s[i] == x && x.len() > 0 && forall|j: int| 0 <= j < i ==> (#[trigger] s[j]).len() == 0,
        first_nonempty(s) is None ==> forall|j: int| 0 <= j < s.len() ==> (#[trigger] s[j]).len() == 0,
    decreases s.len(),
{
    if s.len() > 0 {
        let t = s.drop_last();
        lemma_first_nonempty_facts(t);
        assert forall|j: int| 0 <= j < t.len() implies t[j] == s[j] by {}
        if let Some(x) = first_nonempty(t) {
            let i = choose|i: int|
                0 <= i < t.len() && t[i] == x && x.len() > 0 && forall|j: int| 0 <= j < i ==> (#[trigger] t[j]).len() == 0;
            assert(s[i] == x);
            assert forall|j: int| 0 <= j < i implies (#[trigger] s[j]).len() == 0 by {
                assert(s[j] == t[j]);
            }
        } else {
            assert forall|j: int| 0 <= j < t.len() implies (#[trigger] s[j]).len() == 0 by {
                assert(s[j] == t[j]);
            }
        }
    }
}

/// The user ids collected from parse results: every result parsed, and the
/// ids are exactly the parsed ones; or the text of the first result that
/// did not parse.
proof fn lemma_collect_users_facts(texts: Seq<Seq<char>>, parsed: Seq<Option<Seq<u8>>>)
    ensures
        collect_users(texts, parsed) matches Ok(u) ==> (forall|i: int| 0 <= i < parsed.len() ==> (#[trigger] parsed[i]) is Some)
            && forall|x: Seq<u8>| u.contains(x) <==> exists|i: int| 0 <= i < parsed.len() && #[trigger] parsed[i] == Some(x),
        collect_users(texts, parsed) matches Err(t) ==> exists|i: int|
            0 <= i < parsed.len() && parsed[i] is None && t == texts[i] && forall|j: int| 0 <= j < i ==> (#[trigger] parsed[j]) is Some,
    decreases parsed.len(),
{
    if parsed.len() > 0 {
        let q = parsed.drop_last();
        lemma_collect_users_facts(texts, q);
        assert forall|j: int| 0 <= j < q.len() implies q[j] == parsed[j] by {}
        match collect_users(texts, q) {
            Err(t) => {
                let i = choose|i: int|
                    0 <= i < q.len() && q[i] is None && t == texts[i] && forall|j: int| 0 <= j < i ==> (#[trigger] q[j]) is Some;
                assert(parsed[i] is None);
                assert forall|j: int| 0 <= j < i implies (#[trigger] parsed[j]) is Some by {
                    assert(q[j] is Some);
                }
            },
            Ok(r) => {
                let n = parsed.len() - 1;
                match parsed.last() {
                    None => {
                        assert(parsed[n] is None);
                        assert forall|j: int| 0 <= j < n implies (#[trigger] parsed[j]) is Some by {
                            assert(q[j] is Some);
                        }
                    },
                    Some(b) => {
                        let u = collect_users(texts, parsed)->Ok_0;
                        assert forall|i: int| 0 <= i < parsed.len() implies (#[trigger] parsed[i]) is Some by {
                            if i < n {
                                assert(q[i] is Some);
                            }
                        }
                        assert forall|x: Seq<u8>| u.contains(x) <==> exists|i: int|
                            0 <= i < parsed.len() && #[trigger] parsed[i] == Some(x) by {
                            if u.contains(x) {
                                if r.contains(x) {
                                    let i = choose|i: int| 0 <= i < q.len() && #[trigger] q[i] == Some(x);
                                    assert(parsed[i] == Some(x));
                                } else {
                                    let k = choose|k: int| 0 <= k < u.len() && u[k] == x;
                                    if k < r.len() {
                                        assert(r.push(b)[k] == r[k]);
                                        assert(r.contains(x));
                                    }
                                    assert(x == b);
                                    assert(parsed[n] == Some(x));
                                }
                            }
                            if exists|i: int| 0 <= i < parsed.len() && #[trigger] parsed[i] == Some(x) {
                                let i = choose|i: int| 0 <= i < parsed.len() && #[trigger] parsed[i] == Some(x);
                                if i < n {
                                    assert(q[i] == Some(x));
                                    assert(r.contains(x));
                                    if !r.contains(b) {
                                        let k = choose|k: int| 0 <= k < r.len() && r[k] == x;
                                        assert(r.push(b)[k] == x);
                                    }
                                } else {
                                    assert(x == b);
                                    if !r.contains(b) {
                                        assert(r.push(b)[r.len() as int] == x);
                                    }
                                }
                            }
                        }
                    },
                }
            },
        }
    }
}

/// Whether the merge failed with `e`.
pub open spec fn merge_fails_with(r: Result<SettingsView, SettingsErrorView>, e: SettingsErrorView) -> bool {
    r == Err::<SettingsView, SettingsErrorView>(e)
}

/// When a merge fails: without a certificate on the command line and in
/// the file; then without a key in both; then without any host; then at the
/// first user id that does not parse, naming its text; then without any
/// user id; then when the file names no public host and no host is
/// non-empty.
pub proof fn lemma_merge_errors(f: Option<FileConfigView>, a: CliView, parsed: Seq<Option<Seq<u8>>>)
    requires
        parsed.len() == file_or_empty(f).uuids.len() + a.uuids.len(),
    ensures
        ({
            let fc = file_or_empty(f);
            let r = spec_merge(f, a, parsed);
            let texts = fc.uuids + a.uuids;
            let hosts = fc.hosts + a.hosts;
            let has_cert = a.cert is Some || fc.cert is Some;
            let has_key = a.key is Some || fc.key is Some;
            let all_parse = forall|i: int| 0 <= i < parsed.len() ==> (#[trigger] parsed[i]) is Some;
            &&& merge_fails_with(r, SettingsErrorView::MissingCert) == !has_cert
            &&& merge_fails_with(r, SettingsErrorView::MissingKey) == (has_cert && !has_key)
            &&& merge_fails_with(r, SettingsErrorView::MissingHost) == (has_cert && has_key && hosts.len()
                == 0)
            &&& (r matches Err(SettingsErrorView::InvalidUuid(t)) ==> has_cert && has_key && hosts.len() > 0
                && exists|i: int|
                0 <= i < parsed.len() && parsed[i] is None && t == texts[i] && forall|j: int|
                    0 <= j < i ==> (#[trigger] parsed[j]) is Some)
            &&& (has_cert && has_key && hosts.len() > 0 && !all_parse ==> r is Err && !(r matches Err(
                SettingsErrorView::MissingUuid)) && !(r matches Err(SettingsErrorView::NoPublicHost)))
            &&& merge_fails_with(r, SettingsErrorView::MissingUuid) == (has_cert && has_key && hosts.len() > 0
                && all_parse && parsed.len() == 0)
            &&& merge_fails_with(r, SettingsErrorView::NoPublicHost) == (has_cert && has_key && hosts.len() > 0
                && all_parse && parsed.len() > 0 && fc.public_host is None && forall|j: int|
                0 <= j < hosts.len() ==> (#[trigger] hosts[j]).len() == 0)
        }),
{
    let fc = file_or_empty(f);
    let texts = fc.uuids + a.uuids;
    let hosts = fc.hosts + a.hosts;
    lemma_collect_users_facts(texts, parsed);
    lemma_first_nonempty_facts(hosts);
    let users = collect_users(texts, parsed);
    if let Ok(u) = users {
        if parsed.len() > 0 {
            assert(parsed[0] is Some);
            assert(u.contains(parsed[0]->0));
        } else {
            assert(u.len() == 0) by {
                if u.len() > 0 {
                    assert(u.contains(u[0]));
                }
            }
        }
    }
    if let Err(t) = users {
        let i = choose|i: int|
            0 <= i < parsed.len() && parsed[i] is None && t == texts[i] && forall|j: int| 0 <= j < i ==> (#[trigger] parsed[j]) is Some;
        assert(!(forall|i: int| 0 <= i < parsed.len() ==> (#[trigger] parsed[i]) is Some));
    }
}

/// Where each accepted setting comes from: the command line's value if it
/// gives one, else the file's, else the default (`0.0.0.0:443`, `/`, 5000
/// ms, 300 s); the subscription path and token, the public host and the
/// public port come from the file, the port falling back to the listening
/// port and the host to the first non-empty host; the user ids are exactly
/// those that the texts parse to.
#[verifier::rlimit(40)]
pub proof fn lemma_merge_sources(f: Option<FileConfigView>, a: CliView, parsed: Seq<Option<Seq<u8>>>)
    ensures
        spec_merge(f, a, parsed) matches Ok(s) ==> {
            let fc = file_or_empty(f);
            let hosts = fc.hosts + a.hosts;
            &&& (a.cert matches Some(c) ==> s.cert == c)
            &&& (a.cert is None ==> fc.cert == Some(s.cert))
            &&& (a.key matches Some(k) ==> s.key == k)
            &&& (a.key is None ==> fc.key == Some(s.key))
            &&& (a.listen matches Some(l) ==> s.listen == l)
            &&& (a.listen is None && fc.listen is Some ==> fc.listen == Some(s.listen))
            &&& (a.listen is None && fc.listen is None ==> s.listen == SockView::V4(seq![0u8, 0u8, 0u8, 0u8], 443))
            &&& (a.path matches Some(p) ==> s.config.path == normalize(p))
            &&& (a.path is None ==> (fc.path matches Some(p) ==> s.config.path == normalize(p)))
            &&& (a.path is None && fc.path is None ==> s.config.path == seq!['/'])
            &&& (a.connect_timeout_ms matches Some(t) ==> s.config.connect_timeout_ms == t)
            &&& (a.connect_timeout_ms is None ==> (fc.connect_timeout_ms matches Some(t)
                ==> s.config.connect_timeout_ms == t))
            &&& (a.connect_timeout_ms is None && fc.connect_timeout_ms is None ==> s.config.connect_timeout_ms
                == 5000)
            &&& (a.idle_timeout_s matches Some(t) ==> s.config.idle_timeout_s == t)
            &&& (a.idle_timeout_s is None ==> (fc.idle_timeout_s matches Some(t) ==> s.config.idle_timeout_s == t))
            &&& (a.idle_timeout_s is None && fc.idle_timeout_s is None ==> s.config.idle_timeout_s == 300)
            &&& (fc.sub_path matches Some(p) ==> s.config.sub_path == Some(normalize(p)))
            &&& (fc.sub_path is None ==> s.config.sub_path is None)
            &&& s.config.sub_token == fc.sub_token
            &&& (fc.public_port matches Some(p) ==> s.config.public_port == p)
            &&& (fc.public_port is None ==> s.config.public_port == port_of(s.listen))
            &&& (fc.public_host matches Some(h) ==> s.config.public_host == h)
            &&& (fc.public_host is None ==> exists|i: int|
                0 <= i < hosts.len() && hosts[i] == s.config.public_host && hosts[i].len() > 0 && forall|j: int|
                    0 <= j < i ==> (#[trigger] hosts[j]).len() == 0)
            &&& forall|x: Seq<u8>| s.config.users.contains(x) <==> exists|i: int|
                0 <= i < parsed.len() && #[trigger] parsed[i] == Some(x)
        },
{
    let fc = file_or_empty(f);
    lemma_collect_users_facts(fc.uuids + a.uuids, parsed);
    lemma_first_nonempty_facts(fc.hosts + a.hosts);
}

/// What every successful merge guarantees: the accepted hosts are exactly
/// the given hosts in lower case, each once; the user ids occur once each;
/// the paths start with `/`.
pub proof fn lemma_settings_well_formed(f: Option<FileConfigView>, a: CliView, parsed: Seq<Option<Seq<u8>>>)
    requires
        spec_merge(f, a, parsed) is Ok,
    ensures
        ({
            let c = spec_merge(f, a, parsed)->Ok_0.config;
            let given = file_or_empty(f).hosts + a.hosts;
            &&& no_dups(c.hosts)
            &&& forall|h: Seq<char>| c.hosts.contains(h) <==> exists|i: int|
                0 <= i < given.len() && ascii_lower(given[i]) == h
            &&& forall|h: Seq<char>| c.hosts.contains(h) ==> ascii_lower(h) == h
            &&& no_dups(c.users)
            &&& c.path.len() > 0 && c.path[0] == '/'
            &&& c.sub_path matches Some(p) ==> p.len() > 0 && p[0] == '/'
        }),
{
    let fc = file_or_empty(f);
    let given = fc.hosts + a.hosts;
    let lowered = given.map_values(|h: Seq<char>| ascii_lower(h));
    lemma_dedup(lowered);
    lemma_collect_users_no_dups(fc.uuids + a.uuids, parsed);
    let c = spec_merge(f, a, parsed)->Ok_0.config;
    assert forall|h: Seq<char>| c.hosts.contains(h) <==> exists|i: int|
        0 <= i < given.len() && ascii_lower(given[i]) == h by {
        if lowered.contains(h) {
            let i = choose|i: int| 0 <= i < lowered.len() && lowered[i] == h;
            assert(ascii_lower(given[i]) == h);
        }
        if exists|i: int| 0 <= i < given.len() && ascii_lower(given[i]) == h {
            let i = choose|i: int| 0 <= i < given.len() && ascii_lower(given[i]) == h;
            assert(lowered[i] == h);
        }
    }
    assert forall|h: Seq<char>| c.hosts.contains(h) implies ascii_lower(h) == h by {
        let i = choose|i: int| 0 <= i < lowered.len() && lowered[i] == h;
        lemma_lower_idempotent(given[i]);
    }
}

} // verus!
