//! The `KEY=VALUE` configuration file.

use vstd::prelude::*;

use crate::settings::or_else;
use crate::net::{digit_of, parse_socket_addr, parse_socket_spec, SockView, SocketAddress};
use crate::text::{
    ascii_lower, chars_of, find_char, find_in, lemma_split_on_len, lemma_split_on_prefix, split_on,
    substring, to_ascii_lowercase, trim, range_eq_lower, trim_bounds, lemma_split_step_sep,
    lemma_split_step_other, lemma_split_end, lemma_split_on_pieces, lemma_trim_idempotent,
    lemma_trim_within, is_whitespace, trim_start, trim_end, lemma_find_char_first,
    lemma_split_on_no_sep,
};

verus! {

/// Settings read from a configuration file; every field is optional.
#[derive(Debug, Clone)]
pub struct FileConfig {
    pub listen: Option<SocketAddress>,
    pub cert: Option<String>,
    pub key: Option<String>,
    pub hosts: Vec<String>,
    pub path: Option<String>,
    pub uuids: Vec<String>,
    pub connect_timeout_ms: Option<u64>,
    pub idle_timeout_s: Option<u64>,
    pub sub_path: Option<String>,
    pub sub_token: Option<String>,
    pub public_host: Option<String>,
    pub public_port: Option<u16>,
}

/// Mathematical view of a `FileConfig`.
pub struct FileConfigView {
    pub listen: Option<SockView>,
    pub cert: Option<Seq<char>>,
    pub key: Option<Seq<char>>,
    pub hosts: Seq<Seq<char>>,
    pub path: Option<Seq<char>>,
    pub uuids: Seq<Seq<char>>,
    pub connect_timeout_ms: Option<u64>,
    pub idle_timeout_s: Option<u64>,
    pub sub_path: Option<Seq<char>>,
    pub sub_token: Option<Seq<char>>,
    pub public_host: Option<Seq<char>>,
    pub public_port: Option<u16>,
}

/// Why an integer did not parse (`core::num::IntErrorKind`).
#[derive(Clone, Copy, Debug, PartialEq, Eq)]
pub enum IntErrorKind {
    /// The text is empty.
    Empty,
    /// A character is not a decimal digit.
    InvalidDigit,
    /// The value is too large for the type.
    PosOverflow,
}

/// The numeric keys.
#[derive(Clone, Copy, Debug, PartialEq, Eq)]
pub enum NumberKey {
    ConnectTimeoutMs,
    IdleTimeoutS,
    PublicPort,
}

/// Why a configuration file was refused. Lines are numbered from 1.
#[derive(Clone, Debug, PartialEq, Eq)]
pub enum ConfigFileError {
    /// A line that is neither blank, nor a comment, nor `KEY=VALUE`.
    MissingEquals { line: usize },
    /// The value of `listen` is not a socket address.
    InvalidListen { line: usize },
    /// The value of a numeric key is not a number of its type.
    InvalidNumber { key: NumberKey, line: usize, kind: IntErrorKind },
    /// A key that the file format does not have (given in lower case).
    UnknownKey { name: String, line: usize },
}

/// Mathematical view of a `ConfigFileError`.
pub enum ConfigErrorView {
    MissingEquals(nat),
    InvalidListen(nat),
    InvalidNumber(NumberKey, nat, IntErrorKind),
    UnknownKey(Seq<char>, nat),
}

pub open spec fn opt_view(o: Option<String>) -> Option<Seq<char>> {
    match o {
        Some(s) => Some(s@),
        None => None,
    }
}

pub open spec fn strs_view(v: Vec<String>) -> Seq<Seq<char>> {
    v@.map_values(|s: String| s@)
}

pub open spec fn sock_opt_view(o: Option<SocketAddress>) -> Option<SockView> {
    match o {
        Some(a) => Some(a.view_sock()),
        None => None,
    }
}

impl View for FileConfig {
    type V = FileConfigView;

    open spec fn view(&self) -> FileConfigView {
        FileConfigView {
            listen: sock_opt_view(self.listen),
            cert: opt_view(self.cert),
            key: opt_view(self.key),
            hosts: strs_view(self.hosts),
            path: opt_view(self.path),
            uuids: strs_view(self.uuids),
            connect_timeout_ms: self.connect_timeout_ms,
            idle_timeout_s: self.idle_timeout_s,
            sub_path: opt_view(self.sub_path),
            sub_token: opt_view(self.sub_token),
            public_host: opt_view(self.public_host),
            public_port: self.public_port,
        }
    }
}

impl View for ConfigFileError {
    type V = ConfigErrorView;

    open spec fn view(&self) -> ConfigErrorView {
        match *self {
            ConfigFileError::MissingEquals { line } => ConfigErrorView::MissingEquals(line as nat),
            ConfigFileError::InvalidListen { line } => ConfigErrorView::InvalidListen(line as nat),
            ConfigFileError::InvalidNumber { key, line, kind } => ConfigErrorView::InvalidNumber(
                key,
                line as nat,
                kind,
            ),
            ConfigFileError::UnknownKey { name, line } => ConfigErrorView::UnknownKey(name@, line as nat),
        }
    }
}

/// The configuration with nothing set.
pub open spec fn empty_config() -> FileConfigView {
    FileConfigView {
        listen: None,
        cert: None,
        key: None,
        hosts: Seq::empty(),
        path: None,
        uuids: Seq::empty(),
        connect_timeout_ms: None,
        idle_timeout_s: None,
        sub_path: None,
        sub_token: None,
        public_host: None,
        public_port: None,
    }
}

impl Default for FileConfig {
    fn default() -> (r: FileConfig)
        ensures
            r@ == empty_config(),
    {
        let r = FileConfig {
            listen: None,
            cert: None,
            key: None,
            hosts: Vec::new(),
            path: None,
            uuids: Vec::new(),
            connect_timeout_ms: None,
            idle_timeout_s: None,
            sub_path: None,
            sub_token: None,
            public_host: None,
            public_port: None,
        };
        assert(strs_view(r.hosts) =~= Seq::<Seq<char>>::empty());
        assert(strs_view(r.uuids) =~= Seq::<Seq<char>>::empty());
        r
    }
}

/// The items of a comma-separated list: the pieces between commas, trimmed,
/// with empty ones left out.
pub open spec fn list_items(pieces: Seq<Seq<char>>) -> Seq<Seq<char>>
    decreases pieces.len(),
{
    if pieces.len() == 0 {
        Seq::empty()
    } else {
        let r = list_items(pieces.drop_last());
        let t = trim(pieces.last());
        if t.len() == 0 {
            r
        } else {
            r.push(t)
        }
    }
}

/// What `split_list` makes of `s`.
pub open spec fn spec_split_list(s: Seq<char>) -> Seq<Seq<char>> {
    list_items(split_on(s, ','))
}

/// `list_items` of a concatenation is the concatenation of the items.
pub proof fn lemma_list_items_concat(p: Seq<Seq<char>>, q: Seq<Seq<char>>)
    ensures
        list_items(p + q) == list_items(p) + list_items(q),
    decreases q.len(),
{
    if q.len() == 0 {
        assert(p + q =~= p);
        assert(list_items(p) + list_items(q) =~= list_items(p));
    } else {
        lemma_list_items_concat(p, q.drop_last());
        assert((p + q).drop_last() =~= p + q.drop_last());
        assert((p + q).last() == q.last());
        let r = list_items(p) + list_items(q.drop_last());
        assert(r.push(trim(q.last())) =~= list_items(p) + list_items(q.drop_last()).push(trim(q.last())));
    }
}

/// The pieces of `a`, a separator and `b` are those of `a` followed by those of `b`.
pub proof fn lemma_split_on_concat(a: Seq<char>, sep: char, b: Seq<char>)
    ensures
        split_on(a + seq![sep] + b, sep) == split_on(a, sep) + split_on(b, sep),
    decreases b.len(),
{
    lemma_split_on_len(a, sep);
    if b.len() == 0 {
        let s = a + seq![sep] + b;
        assert(s.drop_last() =~= a);
        assert(split_on(a, sep) + split_on(b, sep) =~= split_on(a, sep).push(Seq::<char>::empty()));
    } else {
        let s = a + seq![sep] + b;
        lemma_split_on_concat(a, sep, b.drop_last());
        assert(s.drop_last() =~= a + seq![sep] + b.drop_last());
        assert(s.last() == b.last());
        lemma_split_on_len(b.drop_last(), sep);
        let pa = split_on(a, sep);
        let pb = split_on(b.drop_last(), sep);
        if b.last() == sep {
            assert(split_on(s, sep) =~= pa + pb.push(Seq::<char>::empty()));
        } else {
            assert(split_on(s, sep) =~= pa + pb.update(pb.len() - 1, pb.last().push(b.last())));
        }
    }
}

/// A list written as one value with a comma, or as two values, gives the same
/// items: `host=a,b` means the same as `host=a` followed by `host=b`.
pub proof fn lemma_split_list_concat(a: Seq<char>, b: Seq<char>)
    ensures
        spec_split_list(a + seq![','] + b) == spec_split_list(a) + spec_split_list(b),
{
    lemma_split_on_concat(a, ',', b);
    lemma_list_items_concat(split_on(a, ','), split_on(b, ','));
}

proof fn lemma_list_items_clean(pieces: Seq<Seq<char>>)
    requires
        forall|i: int| 0 <= i < pieces.len() ==> !(#[trigger] pieces[i]).contains(','),
    ensures
        forall|i: int|
            0 <= i < list_items(pieces).len() ==> {
                let e = #[trigger] list_items(pieces)[i];
                &&& e.len() > 0
                &&& trim(e) == e
                &&& !e.contains(',')
            },
    decreases pieces.len(),
{
    if pieces.len() > 0 {
        let rest = pieces.drop_last();
        assert forall|i: int| 0 <= i < rest.len() implies !(#[trigger] rest[i]).contains(',') by {
            assert(rest[i] == pieces[i]);
        }
        lemma_list_items_clean(rest);
        let t = trim(pieces.last());
        lemma_trim_idempotent(pieces.last());
        lemma_trim_within(pieces.last(), ',');
        assert(!pieces[pieces.len() - 1].contains(','));
        let r = list_items(rest);
        let out = list_items(pieces);
        assert forall|i: int| 0 <= i < out.len() implies {
            let e = #[trigger] out[i];
            &&& e.len() > 0
            &&& trim(e) == e
            &&& !e.contains(',')
        } by {
            if i < r.len() {
                assert(out[i] == r[i]);
            } else {
                assert(out[i] == t);
            }
        }
    }
}

/// Every item of a list is non-empty, already trimmed and free of commas.
pub proof fn lemma_split_list_items(s: Seq<char>)
    ensures
        forall|i: int|
            0 <= i < spec_split_list(s).len() ==> {
                let e = #[trigger] spec_split_list(s)[i];
                &&& e.len() > 0
                &&& trim(e) == e
                &&& !e.contains(',')
            },
{
    lemma_split_on_pieces(s, ',');
    lemma_list_items_clean(split_on(s, ','));
}

/// Items of the pieces of `v@[a..b]` between commas.
fn split_list_range(s: &str, v: &Vec<char>, a: usize, b: usize) -> (r: Vec<String>)
    requires
        v@ == s@,
        a <= b <= v@.len(),
    ensures
        strs_view(r) == spec_split_list(v@.subrange(a as int, b as int)),
{
    let ghost t = v@.subrange(a as int, b as int);
    let mut out: Vec<String> = Vec::new();
    let mut start = a;
    let mut k = a;
    while k < b
        invariant
            a <= start <= k <= b <= v@.len(),
            v@ == s@,
            t == v@.subrange(a as int, b as int),
            split_on(t.take(k - a), ',').last() == v@.subrange(start as int, k as int),
            strs_view(out) == list_items(split_on(t.take(k - a), ',').drop_last()),
        decreases b - k,
    {
        assert(t[k - a] == v@[k as int]);
        assert(t.subrange(start - a, k - a) =~= v@.subrange(start as int, k as int));
        if v[k] == ',' {
            proof {
                lemma_split_step_sep(t, ',', k - a);
                lemma_split_end(t.take(k - a), ',');
            }
            let (x, y) = trim_bounds(v, start, k);
            if x < y {
                out.push(substring(s, x, y));
            }
            assert(strs_view(out) =~= list_items(split_on(t.take(k - a), ',')));
            start = k + 1;
            assert(v@.subrange(start as int, (k + 1) as int) =~= Seq::<char>::empty());
        } else {
            proof {
                lemma_split_step_other(t, ',', k - a, start - a);
                assert(t.subrange(start - a, k + 1 - a) =~= v@.subrange(start as int, k + 1));
            }
        }
        k = k + 1;
    }
    proof {
        lemma_split_end(t, ',');
        assert(t.take(k - a) =~= t);
    }
    let (x, y) = trim_bounds(v, start, b);
    if x < y {
        out.push(substring(s, x, y));
    }
    assert(strs_view(out) =~= list_items(split_on(t, ',')));
    out
}

/// Splits a comma-separated list into its trimmed, non-empty items.
pub fn split_list(s: &str) -> (r: Vec<String>)
    ensures
        strs_view(r) == spec_split_list(s@),
{
    let v = chars_of(s);
    let r = split_list_range(s, &v, 0, v.len());
    assert(v@.subrange(0, v@.len() as int) =~= s@);
    r
}

/// Unsigned integer syntax of `FromStr`: an optional `+`, then at least one
/// decimal digit; the value must not exceed `max`.
pub open spec fn parse_uint(s: Seq<char>, max: nat) -> Result<nat, IntErrorKind> {
    if s.len() == 0 {
        Err(IntErrorKind::Empty)
    } else if s.len() == 1 && (s[0] == '+' || s[0] == '-') {
        Err(IntErrorKind::InvalidDigit)
    } else if s[0] == '+' {
        uint_digits(s.drop_first(), max)
    } else {
        uint_digits(s, max)
    }
}

/// Value of a string of decimal digits, read from the left; the first
/// non-digit, or the first digit that takes the value above `max`, is the
/// error.
pub open spec fn uint_digits(d: Seq<char>, max: nat) -> Result<nat, IntErrorKind>
    decreases d.len(),
{
    if d.len() == 0 {
        Ok(0)
    } else {
        match uint_digits(d.drop_last(), max) {
            Err(e) => Err(e),
            Ok(v) => match digit_of(d.last(), 10) {
                None => Err(IntErrorKind::InvalidDigit),
                Some(x) => if v * 10 + x > max {
                    Err(IntErrorKind::PosOverflow)
                } else {
                    Ok(v * 10 + x)
                },
            },
        }
    }
}

proof fn lemma_uint_digits_err_stays(d: Seq<char>, k: int, max: nat)
    requires
        0 <= k <= d.len(),
        uint_digits(d.take(k), max) is Err,
    ensures
        uint_digits(d, max) == uint_digits(d.take(k), max),
    decreases d.len() - k,
{
    if k < d.len() {
        assert(d.take(k + 1).drop_last() =~= d.take(k));
        lemma_uint_digits_err_stays(d, k + 1, max);
    } else {
        assert(d.take(k) =~= d);
    }
}

/// `parse_uint` of `v@[a..b]`.
fn parse_uint_range(v: &Vec<char>, a: usize, b: usize, max: u64) -> (r: Result<u64, IntErrorKind>)
    requires
        a <= b <= v@.len(),
        max >= 9,
    ensures
        match r {
            Ok(x) => parse_uint(v@.subrange(a as int, b as int), max as nat) == Ok::<nat, IntErrorKind>(x as nat),
            Err(e) => parse_uint(v@.subrange(a as int, b as int), max as nat) == Err::<nat, IntErrorKind>(e),
        },
{
    let ghost t = v@.subrange(a as int, b as int);
    if a == b {
        return Err(IntErrorKind::Empty);
    }
    if b - a == 1 && (v[a] == '+' || v[a] == '-') {
        return Err(IntErrorKind::InvalidDigit);
    }
    let start = if v[a] == '+' { a + 1 } else { a };
    let ghost d = v@.subrange(start as int, b as int);
    assert(v[a as int] == '+' ==> d =~= t.drop_first());
    assert(v[a as int] != '+' ==> d =~= t);
    assert(t[0] == v@[a as int]);
    assert(parse_uint(t, max as nat) == uint_digits(d, max as nat));
    let mut val: u64 = 0;
    let mut k = start;
    while k < b
        invariant
            start <= k <= b <= v@.len(),
            d == v@.subrange(start as int, b as int),
            uint_digits(d.take(k - start), max as nat) == Ok::<nat, IntErrorKind>(val as nat),
            val <= max,
            max >= 9,
            t == v@.subrange(a as int, b as int),
            parse_uint(t, max as nat) == uint_digits(d, max as nat),
        decreases b - k,
    {
        let c = v[k];
        assert(d.take(k + 1 - start).drop_last() =~= d.take(k - start));
        assert(d.take(k + 1 - start).last() == c);
        if !('0' <= c && c <= '9') {
            proof {
                lemma_uint_digits_err_stays(d, k + 1 - start, max as nat);
            }
            return Err(IntErrorKind::InvalidDigit);
        }
        let x = (c as u32 - '0' as u32) as u64;
        if val > (max - x) / 10 {
            proof {
                assert(val * 10 + x > max) by (nonlinear_arith)
                    requires
                        val > (max - x) / 10,
                        x <= max || x > max,
                ;
                lemma_uint_digits_err_stays(d, k + 1 - start, max as nat);
            }
            return Err(IntErrorKind::PosOverflow);
        }
        proof {
            assert(val * 10 + x <= max) by (nonlinear_arith)
                requires
                    val <= (max - x) / 10,
                    x <= max,
            ;
        }
        val = val * 10 + x;
        k = k + 1;
    }
    assert(d.take(b - start) =~= d);
    Ok(val)
}

pub const KEY_LISTEN: [char; 6] = ['l', 'i', 's', 't', 'e', 'n'];
pub const KEY_CERT: [char; 4] = ['c', 'e', 'r', 't'];
pub const KEY_KEY: [char; 3] = ['k', 'e', 'y'];
pub const KEY_HOST: [char; 4] = ['h', 'o', 's', 't'];
pub const KEY_HOSTS: [char; 5] = ['h', 'o', 's', 't', 's'];
pub const KEY_PATH: [char; 4] = ['p', 'a', 't', 'h'];
pub const KEY_UUID: [char; 4] = ['u', 'u', 'i', 'd'];
pub const KEY_UUIDS: [char; 5] = ['u', 'u', 'i', 'd', 's'];
pub const KEY_CONNECT_TIMEOUT_MS: [char; 18] = [
    'c', 'o', 'n', 'n', 'e', 'c', 't', '_', 't', 'i', 'm', 'e', 'o', 'u', 't', '_', 'm', 's',
];
pub const KEY_IDLE_TIMEOUT_S: [char; 14] = [
    'i', 'd', 'l', 'e', '_', 't', 'i', 'm', 'e', 'o', 'u', 't', '_', 's',
];
pub const KEY_SUB_PATH: [char; 8] = ['s', 'u', 'b', '_', 'p', 'a', 't', 'h'];
pub const KEY_SUB_TOKEN: [char; 9] = ['s', 'u', 'b', '_', 't', 'o', 'k', 'e', 'n'];
pub const KEY_PUBLIC_HOST: [char; 11] = ['p', 'u', 'b', 'l', 'i', 'c', '_', 'h', 'o', 's', 't'];
pub const KEY_PUBLIC_PORT: [char; 11] = ['p', 'u', 'b', 'l', 'i', 'c', '_', 'p', 'o', 'r', 't'];

/// `v` without one pair of surrounding `q` characters, if it has them.
pub open spec fn strip_quotes(v: Seq<char>, q: char) -> Seq<char> {
    if v.len() >= 2 && v[0] == q && v.last() == q {
        v.subrange(1, v.len() - 1)
    } else {
        v
    }
}

/// A value without surrounding double quotes, then without surrounding
/// single quotes.
pub open spec fn unquote(v: Seq<char>) -> Seq<char> {
    strip_quotes(strip_quotes(v, '"'), '\'')
}

/// The effect of `key = val` on line `line`.
pub open spec fn apply_key(c: FileConfigView, key: Seq<char>, val: Seq<char>, line: nat) -> Result<
    FileConfigView,
    ConfigErrorView,
> {
    if key == KEY_LISTEN@ {
        match parse_socket_spec(val) {
            Some(a) => Ok(FileConfigView { listen: Some(a), ..c }),
            None => Err(ConfigErrorView::InvalidListen(line)),
        }
    } else if key == KEY_CERT@ {
        Ok(FileConfigView { cert: Some(val), ..c })
    } else if key == KEY_KEY@ {
        Ok(FileConfigView { key: Some(val), ..c })
    } else if key == KEY_HOST@ || key == KEY_HOSTS@ {
        Ok(FileConfigView { hosts: c.hosts + spec_split_list(val), ..c })
    } else if key == KEY_PATH@ {
        Ok(FileConfigView { path: Some(val), ..c })
    } else if key == KEY_UUID@ || key == KEY_UUIDS@ {
        Ok(FileConfigView { uuids: c.uuids + spec_split_list(val), ..c })
    } else if key == KEY_CONNECT_TIMEOUT_MS@ {
        match parse_uint(val, u64::MAX as nat) {
            Ok(n) => Ok(FileConfigView { connect_timeout_ms: Some(n as u64), ..c }),
            Err(k) => Err(ConfigErrorView::InvalidNumber(NumberKey::ConnectTimeoutMs, line, k)),
        }
    } else if key == KEY_IDLE_TIMEOUT_S@ {
        match parse_uint(val, u64::MAX as nat) {
            Ok(n) => Ok(FileConfigView { idle_timeout_s: Some(n as u64), ..c }),
            Err(k) => Err(ConfigErrorView::InvalidNumber(NumberKey::IdleTimeoutS, line, k)),
        }
    } else if key == KEY_SUB_PATH@ {
        Ok(FileConfigView { sub_path: Some(val), ..c })
    } else if key == KEY_SUB_TOKEN@ {
        Ok(FileConfigView { sub_token: Some(val), ..c })
    } else if key == KEY_PUBLIC_HOST@ {
        Ok(FileConfigView { public_host: Some(val), ..c })
    } else if key == KEY_PUBLIC_PORT@ {
        match parse_uint(val, u16::MAX as nat) {
            Ok(n) => Ok(FileConfigView { public_port: Some(n as u16), ..c }),
            Err(k) => Err(ConfigErrorView::InvalidNumber(NumberKey::PublicPort, line, k)),
        }
    } else {
        Err(ConfigErrorView::UnknownKey(key, line))
    }
}

/// The effect of one raw line, numbered `line`: blank lines and lines whose
/// first non-blank character is `#` change nothing; otherwise the line is
/// split at its first `=` into a key (trimmed, in ASCII lower case) and a
/// value (trimmed, then unquoted).
pub open spec fn apply_line(c: FileConfigView, raw: Seq<char>, line: nat) -> Result<
    FileConfigView,
    ConfigErrorView,
> {
    let l = trim(raw);
    if l.len() == 0 || l[0] == '#' {
        Ok(c)
    } else {
        match find_char(l, '=') {
            None => Err(ConfigErrorView::MissingEquals(line)),
            Some(i) => apply_key(c, ascii_lower(trim(l.take(i))), unquote(trim(l.skip(i + 1))), line),
        }
    }
}

/// The configuration after the given lines, applied in order from the empty
/// one; the first failing line decides the error.
pub open spec fn fold_lines(lines: Seq<Seq<char>>) -> Result<FileConfigView, ConfigErrorView>
    decreases lines.len(),
{
    if lines.len() == 0 {
        Ok(empty_config())
    } else {
        match fold_lines(lines.drop_last()) {
            Err(e) => Err(e),
            Ok(c) => apply_line(c, lines.last(), lines.len()),
        }
    }
}

/// What `parse_str` makes of a file's text: its lines (pieces between `\n`)
/// applied in order.
pub open spec fn spec_parse_config(s: Seq<char>) -> Result<FileConfigView, ConfigErrorView> {
    fold_lines(split_on(s, '\n'))
}

proof fn lemma_fold_err_stays(lines: Seq<Seq<char>>, k: int)
    requires
        0 <= k <= lines.len(),
        fold_lines(lines.take(k)) is Err,
    ensures
        fold_lines(lines) == fold_lines(lines.take(k)),
    decreases lines.len() - k,
{
    if k < lines.len() {
        assert(lines.take(k + 1).drop_last() =~= lines.take(k));
        lemma_fold_err_stays(lines, k + 1);
    } else {
        assert(lines.take(k) =~= lines);
    }
}

/// An error on the line ending at `k` is the error of the whole text.
proof fn lemma_fold_err_at(t: Seq<char>, k: int, line: int)
    requires
        0 <= k < t.len(),
        t[k] == '\n',
        split_on(t.take(k), '\n').len() == line,
        fold_lines(split_on(t.take(k), '\n')) is Err,
    ensures
        fold_lines(split_on(t, '\n')) == fold_lines(split_on(t.take(k), '\n')),
{
    lemma_split_step_sep(t, '\n', k);
    lemma_split_on_prefix(t, '\n', k + 1);
    let all = split_on(t, '\n');
    assert(all.take(line) == split_on(t.take(k), '\n'));
    lemma_fold_err_stays(all, line);
}

/// What the lines of a text make of the configuration that earlier lines
/// made: each setting they give wins, the lists are joined.
pub open spec fn config_after(earlier: FileConfigView, later: FileConfigView) -> FileConfigView {
    FileConfigView {
        listen: or_else(later.listen, earlier.listen),
        cert: or_else(later.cert, earlier.cert),
        key: or_else(later.key, earlier.key),
        hosts: earlier.hosts + later.hosts,
        path: or_else(later.path, earlier.path),
        uuids: earlier.uuids + later.uuids,
        connect_timeout_ms: or_else(later.connect_timeout_ms, earlier.connect_timeout_ms),
        idle_timeout_s: or_else(later.idle_timeout_s, earlier.idle_timeout_s),
        sub_path: or_else(later.sub_path, earlier.sub_path),
        sub_token: or_else(later.sub_token, earlier.sub_token),
        public_host: or_else(later.public_host, earlier.public_host),
        public_port: or_else(later.public_port, earlier.public_port),
    }
}

/// A setting does to a configuration that follows `x` what it does to the
/// later part alone; whether it fails does not depend on what came before.
#[verifier::rlimit(40)]
proof fn lemma_apply_key_after(
    x: FileConfigView,
    y: FileConfigView,
    key: Seq<char>,
    val: Seq<char>,
    n1: nat,
    n2: nat,
)
    ensures
        (apply_key(config_after(x, y), key, val, n1) is Err) == (apply_key(y, key, val, n2) is Err),
        apply_key(y, key, val, n2) matches Ok(d) ==> apply_key(config_after(x, y), key, val, n1)
            == Ok::<FileConfigView, ConfigErrorView>(config_after(x, d)),
{
    let c = config_after(x, y);
    let items = spec_split_list(val);
    if key == KEY_LISTEN@ {
        if let Some(a) = parse_socket_spec(val) {
            assert(config_after(x, FileConfigView { listen: Some(a), ..y }) == FileConfigView {
                listen: Some(a),
                ..c
            });
        }
    } else if key == KEY_CERT@ {
        assert(config_after(x, FileConfigView { cert: Some(val), ..y }) == FileConfigView { cert: Some(val), ..c });
    } else if key == KEY_KEY@ {
        assert(config_after(x, FileConfigView { key: Some(val), ..y }) == FileConfigView { key: Some(val), ..c });
    } else if key == KEY_HOST@ || key == KEY_HOSTS@ {
        assert(x.hosts + (y.hosts + items) =~= (x.hosts + y.hosts) + items);
        assert(config_after(x, FileConfigView { hosts: y.hosts + items, ..y }) == FileConfigView {
            hosts: c.hosts + items,
            ..c
        });
    } else if key == KEY_PATH@ {
        assert(config_after(x, FileConfigView { path: Some(val), ..y }) == FileConfigView { path: Some(val), ..c });
    } else if key == KEY_UUID@ || key == KEY_UUIDS@ {
        assert(x.uuids + (y.uuids + items) =~= (x.uuids + y.uuids) + items);
        assert(config_after(x, FileConfigView { uuids: y.uuids + items, ..y }) == FileConfigView {
            uuids: c.uuids + items,
            ..c
        });
    } else if key == KEY_CONNECT_TIMEOUT_MS@ {
        if let Ok(n) = parse_uint(val, u64::MAX as nat) {
            let m = Some(n as u64);
            assert(config_after(x, FileConfigView { connect_timeout_ms: m, ..y }) == FileConfigView {
                connect_timeout_ms: m,
                ..c
            });
        }
    } else if key == KEY_IDLE_TIMEOUT_S@ {
        if let Ok(n) = parse_uint(val, u64::MAX as nat) {
            let m = Some(n as u64);
            assert(config_after(x, FileConfigView { idle_timeout_s: m, ..y }) == FileConfigView {
                idle_timeout_s: m,
                ..c
            });
        }
    } else if key == KEY_SUB_PATH@ {
        assert(config_after(x, FileConfigView { sub_path: Some(val), ..y }) == FileConfigView {
            sub_path: Some(val),
            ..c
        });
    } else if key == KEY_SUB_TOKEN@ {
        assert(config_after(x, FileConfigView { sub_token: Some(val), ..y }) == FileConfigView {
            sub_token: Some(val),
            ..c
        });
    } else if key == KEY_PUBLIC_HOST@ {
        assert(config_after(x, FileConfigView { public_host: Some(val), ..y }) == FileConfigView {
            public_host: Some(val),
            ..c
        });
    } else if key == KEY_PUBLIC_PORT@ {
        if let Ok(n) = parse_uint(val, u16::MAX as nat) {
            let m = Some(n as u16);
            assert(config_after(x, FileConfigView { public_port: m, ..y }) == FileConfigView {
                public_port: m,
                ..c
            });
        }
    }
}

proof fn lemma_apply_line_after(x: FileConfigView, y: FileConfigView, raw: Seq<char>, n1: nat, n2: nat)
    ensures
        (apply_line(config_after(x, y), raw, n1) is Err) == (apply_line(y, raw, n2) is Err),
        apply_line(y, raw, n2) matches Ok(d) ==> apply_line(config_after(x, y), raw, n1) == Ok::<
            FileConfigView,
            ConfigErrorView,
        >(config_after(x, d)),
{
    let l = trim(raw);
    if !(l.len() == 0 || l[0] == '#') {
        if let Some(i) = find_char(l, '=') {
            lemma_apply_key_after(x, y, ascii_lower(trim(l.take(i))), unquote(trim(l.skip(i + 1))), n1, n2);
        }
    }
}

proof fn lemma_fold_concat(p: Seq<Seq<char>>, q: Seq<Seq<char>>)
    requires
        fold_lines(p) is Ok,
    ensures
        (fold_lines(p + q) is Err) == (fold_lines(q) is Err),
        fold_lines(q) matches Ok(cq) ==> fold_lines(p + q) == Ok::<FileConfigView, ConfigErrorView>(
            config_after(fold_lines(p)->Ok_0, cq),
        ),
    decreases q.len(),
{
    let cp = fold_lines(p)->Ok_0;
    if q.len() == 0 {
        assert(p + q =~= p);
        assert(cp.hosts + Seq::<Seq<char>>::empty() =~= cp.hosts);
        assert(cp.uuids + Seq::<Seq<char>>::empty() =~= cp.uuids);
        assert(config_after(cp, empty_config()) == cp);
    } else {
        let q0 = q.drop_last();
        lemma_fold_concat(p, q0);
        assert((p + q).drop_last() =~= p + q0);
        assert((p + q).last() == q.last());
        if let Ok(c0) = fold_lines(q0) {
            lemma_apply_line_after(cp, c0, q.last(), (p + q).len(), q.len());
        }
    }
}

/// Two texts joined by a line break: the whole fails exactly when one of
/// them fails, with the first text's error where that one fails; otherwise
/// the second text's settings win and its lists follow the first's.
pub proof fn lemma_parse_concat(a: Seq<char>, b: Seq<char>)
    ensures
        spec_parse_config(a) is Err ==> spec_parse_config(a + seq!['\n'] + b) == spec_parse_config(a),
        (spec_parse_config(a + seq!['\n'] + b) is Err) == (spec_parse_config(a) is Err
            || spec_parse_config(b) is Err),
        spec_parse_config(a) matches Ok(ca) ==> (spec_parse_config(b) matches Ok(cb)
            ==> spec_parse_config(a + seq!['\n'] + b) == Ok::<FileConfigView, ConfigErrorView>(
            config_after(ca, cb),
        )),
{
    lemma_split_on_concat(a, '\n', b);
    let p = split_on(a, '\n');
    let q = split_on(b, '\n');
    if fold_lines(p) is Err {
        assert((p + q).take(p.len() as int) =~= p);
        lemma_fold_err_stays(p + q, p.len() as int);
    } else {
        lemma_fold_concat(p, q);
        assert(spec_parse_config(a + seq!['\n'] + b) == fold_lines(p + q));
    }
}

/// Whether a setting is refused: its key is unknown, or its value does not
/// read as what the key takes (an address for `listen`, a number for the
/// timeouts and for the public port).
pub open spec fn setting_refused(key: Seq<char>, val: Seq<char>) -> bool {
    if key == KEY_LISTEN@ {
        parse_socket_spec(val) is None
    } else if key == KEY_CONNECT_TIMEOUT_MS@ || key == KEY_IDLE_TIMEOUT_S@ {
        parse_uint(val, u64::MAX as nat) is Err
    } else if key == KEY_PUBLIC_PORT@ {
        parse_uint(val, u16::MAX as nat) is Err
    } else {
        !(key == KEY_CERT@ || key == KEY_KEY@ || key == KEY_HOST@ || key == KEY_HOSTS@ || key
            == KEY_PATH@ || key == KEY_UUID@ || key == KEY_UUIDS@ || key == KEY_SUB_PATH@ || key
            == KEY_SUB_TOKEN@ || key == KEY_PUBLIC_HOST@)
    }
}

/// Whether a line is refused: it is neither blank nor a comment, and it has
/// no `=` or the setting it writes is refused.
pub open spec fn line_refused(raw: Seq<char>) -> bool {
    let l = trim(raw);
    &&& l.len() > 0
    &&& l[0] != '#'
    &&& match find_char(l, '=') {
        None => true,
        Some(i) => setting_refused(ascii_lower(trim(l.take(i))), unquote(trim(l.skip(i + 1)))),
    }
}

proof fn lemma_apply_line_refused(c: FileConfigView, raw: Seq<char>, n: nat)
    ensures
        (apply_line(c, raw, n) is Err) == line_refused(raw),
{
}

proof fn lemma_fold_refused(lines: Seq<Seq<char>>)
    ensures
        (fold_lines(lines) is Err) == exists|i: int| 0 <= i < lines.len() && line_refused(#[trigger] lines[i]),
    decreases lines.len(),
{
    if lines.len() > 0 {
        let rest = lines.drop_last();
        lemma_fold_refused(rest);
        if let Ok(c) = fold_lines(rest) {
            lemma_apply_line_refused(c, lines.last(), lines.len());
        }
        if exists|i: int| 0 <= i < rest.len() && line_refused(#[trigger] rest[i]) {
            let i = choose|i: int| 0 <= i < rest.len() && line_refused(#[trigger] rest[i]);
            assert(lines[i] == rest[i]);
        }
        if exists|i: int| 0 <= i < lines.len() && line_refused(#[trigger] lines[i]) {
            let i = choose|i: int| 0 <= i < lines.len() && line_refused(#[trigger] lines[i]);
            if i < rest.len() {
                assert(rest[i] == lines[i]);
            }
        }
    }
}

/// A text fails to parse exactly when one of its lines is refused.
pub proof fn lemma_parse_fails_iff_line_refused(s: Seq<char>)
    ensures
        (spec_parse_config(s) is Err) == exists|i: int|
            0 <= i < split_on(s, '\n').len() && line_refused(#[trigger] split_on(s, '\n')[i]),
{
    lemma_fold_refused(split_on(s, '\n'));
}

/// Bounds of `strip_quotes(v@[a..b], q)`.
fn strip_quotes_bounds(v: &Vec<char>, a: usize, b: usize, q: char) -> (r: (usize, usize))
    requires
        a <= b <= v@.len(),
    ensures
        a <= r.0 <= r.1 <= b,
        v@.subrange(r.0 as int, r.1 as int) == strip_quotes(v@.subrange(a as int, b as int), q),
{
    if b - a >= 2 && v[a] == q && v[b - 1] == q {
        assert(v@.subrange(a + 1, b - 1) =~= v@.subrange(a as int, b as int).subrange(1, (b - a) - 1));
        (a + 1, b - 1)
    } else {
        (a, b)
    }
}

proof fn lemma_map_concat(x: Vec<String>, y: Vec<String>, z: Vec<String>)
    requires
        z@ == x@ + y@,
    ensures
        strs_view(z) == strs_view(x) + strs_view(y),
{
    assert(strs_view(z) =~= strs_view(x) + strs_view(y));
}

/// The effect of `key = val` where the key is the lower-cased `v@[ka..kb]`
/// and the value `v@[va..vb]`.
fn apply_key_exec(
    c: FileConfig,
    s: &str,
    v: &Vec<char>,
    ka: usize,
    kb: usize,
    va: usize,
    vb: usize,
    line: usize,
) -> (r: Result<FileConfig, ConfigFileError>)
    requires
        v@ == s@,
        ka <= kb <= v@.len(),
        va <= vb <= v@.len(),
    ensures
        match apply_key(
            c@,
            ascii_lower(v@.subrange(ka as int, kb as int)),
            v@.subrange(va as int, vb as int),
            line as nat,
        ) {
            Ok(n) => r matches Ok(x) && x@ == n,
            Err(e) => r matches Err(x) && x@ == e,
        },
{
    let mut c = c;
    if range_eq_lower(v, ka, kb, &KEY_LISTEN) {
        let vals = substring_chars(v, va, vb);
        match parse_socket_addr(&vals) {
            Some(a) => {
                c.listen = Some(a);
                Ok(c)
            },
            None => Err(ConfigFileError::InvalidListen { line }),
        }
    } else if range_eq_lower(v, ka, kb, &KEY_CERT) {
        c.cert = Some(substring(s, va, vb));
        Ok(c)
    } else if range_eq_lower(v, ka, kb, &KEY_KEY) {
        c.key = Some(substring(s, va, vb));
        Ok(c)
    } else if range_eq_lower(v, ka, kb, &KEY_HOST) || range_eq_lower(v, ka, kb, &KEY_HOSTS) {
        let mut items = split_list_range(s, v, va, vb);
        let ghost old_hosts = c.hosts;
        let ghost its = items;
        c.hosts.append(&mut items);
        proof {
            lemma_map_concat(old_hosts, its, c.hosts);
        }
        Ok(c)
    } else if range_eq_lower(v, ka, kb, &KEY_PATH) {
        c.path = Some(substring(s, va, vb));
        Ok(c)
    } else if range_eq_lower(v, ka, kb, &KEY_UUID) || range_eq_lower(v, ka, kb, &KEY_UUIDS) {
        let mut items = split_list_range(s, v, va, vb);
        let ghost old_uuids = c.uuids;
        let ghost its = items;
        c.uuids.append(&mut items);
        proof {
            lemma_map_concat(old_uuids, its, c.uuids);
        }
        Ok(c)
    } else if range_eq_lower(v, ka, kb, &KEY_CONNECT_TIMEOUT_MS) {
        match parse_uint_range(v, va, vb, u64::MAX) {
            Ok(n) => {
                c.connect_timeout_ms = Some(n);
                Ok(c)
            },
            Err(k) => Err(
                ConfigFileError::InvalidNumber { key: NumberKey::ConnectTimeoutMs, line, kind: k },
            ),
        }
    } else if range_eq_lower(v, ka, kb, &KEY_IDLE_TIMEOUT_S) {
        match parse_uint_range(v, va, vb, u64::MAX) {
            Ok(n) => {
                c.idle_timeout_s = Some(n);
                Ok(c)
            },
            Err(k) => Err(
                ConfigFileError::InvalidNumber { key: NumberKey::IdleTimeoutS, line, kind: k },
            ),
        }
    } else if range_eq_lower(v, ka, kb, &KEY_SUB_PATH) {
        c.sub_path = Some(substring(s, va, vb));
        Ok(c)
    } else if range_eq_lower(v, ka, kb, &KEY_SUB_TOKEN) {
        c.sub_token = Some(substring(s, va, vb));
        Ok(c)
    } else if range_eq_lower(v, ka, kb, &KEY_PUBLIC_HOST) {
        c.public_host = Some(substring(s, va, vb));
        Ok(c)
    } else if range_eq_lower(v, ka, kb, &KEY_PUBLIC_PORT) {
        match parse_uint_range(v, va, vb, u16::MAX as u64) {
            Ok(n) => {
                c.public_port = Some(n as u16);
                Ok(c)
            },
            Err(k) => Err(
                ConfigFileError::InvalidNumber { key: NumberKey::PublicPort, line, kind: k },
            ),
        }
    } else {
        let raw_key = substring(s, ka, kb);
        let name = to_ascii_lowercase(raw_key.as_str());
        Err(ConfigFileError::UnknownKey { name, line })
    }
}

/// A copy of the characters `v@[a..b]`.
fn substring_chars(v: &Vec<char>, a: usize, b: usize) -> (r: Vec<char>)
    requires
        a <= b <= v@.len(),
    ensures
        r@ == v@.subrange(a as int, b as int),
{
    let mut r: Vec<char> = Vec::new();
    let mut k = a;
    while k < b
        invariant
            a <= k <= b <= v@.len(),
            r@ == v@.subrange(a as int, k as int),
        decreases b - k,
    {
        r.push(v[k]);
        assert(r@ =~= v@.subrange(a as int, k + 1));
        k = k + 1;
    }
    r
}

/// The effect of the raw line `v@[a..b]`, numbered `line`.
fn apply_line_exec(c: FileConfig, s: &str, v: &Vec<char>, a: usize, b: usize, line: usize) -> (r:
    Result<FileConfig, ConfigFileError>)
    requires
        v@ == s@,
        a <= b <= v@.len(),
    ensures
        match apply_line(c@, v@.subrange(a as int, b as int), line as nat) {
            Ok(n) => r matches Ok(x) && x@ == n,
            Err(e) => r matches Err(x) && x@ == e,
        },
{
    let (la, lb) = trim_bounds(v, a, b);
    let ghost l = v@.subrange(la as int, lb as int);
    if la == lb || v[la] == '#' {
        return Ok(c);
    }
    match find_in(v, la, lb, '=') {
        None => Err(ConfigFileError::MissingEquals { line }),
        Some(p) => {
            let (ka, kb) = trim_bounds(v, la, p);
            let (xa, xb) = trim_bounds(v, p + 1, lb);
            let (ya, yb) = strip_quotes_bounds(v, xa, xb, '"');
            let (va, vb) = strip_quotes_bounds(v, ya, yb, '\'');
            proof {
                let i = p - la;
                assert(l.take(i) =~= v@.subrange(la as int, p as int));
                assert(l.skip(i + 1) =~= v@.subrange(p + 1, lb as int));
            }
            apply_key_exec(c, s, v, ka, kb, va, vb, line)
        },
    }
}

/// Parses the text of a configuration file.
pub fn parse_str(s: &str) -> (r: Result<FileConfig, ConfigFileError>)
    ensures
        match spec_parse_config(s@) {
            Ok(n) => r matches Ok(x) && x@ == n,
            Err(e) => r matches Err(x) && x@ == e,
        },
{
    let v = chars_of(s);
    let len = v.len();
    let ghost t = v@;
    let mut cfg = FileConfig::default();
    let mut start: usize = 0;
    // the number of line breaks before position `k`
    let mut breaks: usize = 0;
    let mut k: usize = 0;
    while k < len
        invariant
            start <= k <= len,
            len == v@.len(),
            t == v@,
            v@ == s@,
            split_on(t.take(k as int), '\n').last() == t.subrange(start as int, k as int),
            split_on(t.take(k as int), '\n').len() == breaks + 1,
            breaks <= k,
            breaks == k ==> start == k,
            fold_lines(split_on(t.take(k as int), '\n').drop_last()) == Ok::<
                FileConfigView,
                ConfigErrorView,
            >(cfg@),
        decreases len - k,
    {
        if v[k] == '\n' {
            proof {
                lemma_split_step_sep(t, '\n', k as int);
                lemma_split_end(t.take(k as int), '\n');
            }
            match apply_line_exec(cfg, s, &v, start, k, breaks + 1) {
                Ok(c) => {
                    cfg = c;
                },
                Err(e) => {
                    proof {
                        lemma_fold_err_at(t, k as int, breaks + 1);
                    }
                    return Err(e);
                },
            }
            start = k + 1;
            breaks = breaks + 1;
            assert(t.subrange(start as int, (k + 1) as int) =~= Seq::<char>::empty());
        } else {
            proof {
                lemma_split_step_other(t, '\n', k as int, start as int);
            }
        }
        k = k + 1;
    }
    proof {
        lemma_split_end(t, '\n');
    }
    if breaks == usize::MAX {
        // every character is a line break, so the last line is empty
        assert(t.subrange(start as int, len as int) =~= Seq::<char>::empty());
        return Ok(cfg);
    }
    apply_line_exec(cfg, s, &v, start, len, breaks + 1)
}

/// Blank lines and comment lines change nothing: appending one to a file
/// leaves what the file means unchanged.
pub proof fn lemma_comment_line_ignored(s: Seq<char>, c: Seq<char>)
    requires
        forall|k: int| 0 <= k < c.len() ==> c[k] != '\n',
        trim(c).len() == 0 || trim(c)[0] == '#',
    ensures
        spec_parse_config(s + seq!['\n'] + c) == spec_parse_config(s),
{
    lemma_split_on_concat(s, '\n', c);
    crate::text::lemma_split_on_no_sep(c, '\n');
    let p = split_on(s, '\n');
    let q = p + seq![c];
    assert(q.drop_last() =~= p);
    assert(q.last() == c);
}

/// A value that reads as itself: no line break, nothing to trim, no
/// surrounding quotes.
pub open spec fn plain_value(v: Seq<char>) -> bool {
    &&& forall|k: int| 0 <= k < v.len() ==> v[k] != '\n'
    &&& trim(v) == v
    &&& unquote(v) == v
}

proof fn lemma_trim_unchanged(s: Seq<char>)
    requires
        s.len() > 0,
        !is_whitespace(s[0]),
        !is_whitespace(s.last()),
    ensures
        trim(s) == s,
{
    assert(trim_start(s) == s);
    assert(trim_end(s) == s);
}

/// A file of the one line `key=v`, for a known key written in lower case
/// and a plain value, does what that setting does to the empty
/// configuration.
proof fn lemma_one_line(key: Seq<char>, v: Seq<char>)
    requires
        key.len() > 0,
        forall|k: int| 0 <= k < key.len() ==> 'a' <= #[trigger] key[k] <= 'z' || key[k] == '_',
        plain_value(v),
    ensures
        spec_parse_config(key + seq!['='] + v) == apply_key(empty_config(), key, v, 1),
{
    let line = key + seq!['='] + v;
    assert forall|k: int| 0 <= k < line.len() implies line[k] != '\n' by {
        if k < key.len() {
            assert(line[k] == key[k]);
        } else if k > key.len() {
            assert(line[k] == v[k - key.len() - 1]);
        }
    }
    lemma_split_on_no_sep(line, '\n');
    assert(seq![line].drop_last() =~= Seq::<Seq<char>>::empty());
    assert(line[0] == key[0]);
    if v.len() > 0 {
        assert(trim(v) == v);
        crate::text::lemma_trim_end_facts(trim_start(v));
        crate::text::lemma_trim_start_facts(v);
        assert(line.last() == v.last());
    }
    lemma_trim_unchanged(line);
    assert forall|k: int| 0 <= k < key.len() implies line[k] != '=' by {
        assert(line[k] == key[k]);
    }
    lemma_find_char_first(line, '=', key.len() as int);
    assert(line.take(key.len() as int) =~= key);
    assert(line.skip(key.len() as int + 1) =~= v);
    assert(key.last() == key[key.len() - 1]);
    lemma_trim_unchanged(key);
    assert(ascii_lower(key) =~= key);
    assert(trim(line) == line);
    assert(line[0] != '#');
    assert(apply_line(empty_config(), line, 1) == apply_key(empty_config(), key, v, 1));
    assert(fold_lines(Seq::<Seq<char>>::empty()) == Ok::<FileConfigView, ConfigErrorView>(empty_config()));
    assert(fold_lines(seq![line]) == apply_line(empty_config(), line, 1));
    assert(split_on(line, '\n') == seq![line]);
}

/// A file of one line `name=v`, with a plain value, sets only that
/// setting, to the value as it is, for the certificate, key, path,
/// subscription path and token and public host.
#[verifier::rlimit(50)]
pub proof fn lemma_file_text_settings(v: Seq<char>)
    requires
        plain_value(v),
    ensures
        spec_parse_config("cert="@ + v) == Ok::<FileConfigView, ConfigErrorView>(
            FileConfigView { cert: Some(v), ..empty_config() },
        ),
        spec_parse_config("key="@ + v) == Ok::<FileConfigView, ConfigErrorView>(
            FileConfigView { key: Some(v), ..empty_config() },
        ),
        spec_parse_config("path="@ + v) == Ok::<FileConfigView, ConfigErrorView>(
            FileConfigView { path: Some(v), ..empty_config() },
        ),
        spec_parse_config("sub_path="@ + v) == Ok::<FileConfigView, ConfigErrorView>(
            FileConfigView { sub_path: Some(v), ..empty_config() },
        ),
        spec_parse_config("sub_token="@ + v) == Ok::<FileConfigView, ConfigErrorView>(
            FileConfigView { sub_token: Some(v), ..empty_config() },
        ),
        spec_parse_config("public_host="@ + v) == Ok::<FileConfigView, ConfigErrorView>(
            FileConfigView { public_host: Some(v), ..empty_config() },
        ),
{
    reveal_strlit("cert=");
    assert("cert="@ =~= KEY_CERT@ + seq!['=']);
    lemma_one_line(KEY_CERT@, v);
    reveal_strlit("key=");
    assert("key="@ =~= KEY_KEY@ + seq!['=']);
    lemma_one_line(KEY_KEY@, v);
    reveal_strlit("path=");
    assert("path="@ =~= KEY_PATH@ + seq!['=']);
    lemma_one_line(KEY_PATH@, v);
    reveal_strlit("sub_path=");
    assert("sub_path="@ =~= KEY_SUB_PATH@ + seq!['=']);
    lemma_one_line(KEY_SUB_PATH@, v);
    reveal_strlit("sub_token=");
    assert("sub_token="@ =~= KEY_SUB_TOKEN@ + seq!['=']);
    lemma_one_line(KEY_SUB_TOKEN@, v);
    reveal_strlit("public_host=");
    assert("public_host="@ =~= KEY_PUBLIC_HOST@ + seq!['=']);
    lemma_one_line(KEY_PUBLIC_HOST@, v);
}

/// A file of one line `host=v` or `hosts=v` (`uuid=v` or `uuids=v`), with
/// a plain value, sets only the hosts (user ids), to the comma-separated
/// items of the value.
pub proof fn lemma_file_list_settings(v: Seq<char>)
    requires
        plain_value(v),
    ensures
        spec_parse_config("host="@ + v) == Ok::<FileConfigView, ConfigErrorView>(
            FileConfigView { hosts: spec_split_list(v), ..empty_config() },
        ),
        spec_parse_config("hosts="@ + v) == Ok::<FileConfigView, ConfigErrorView>(
            FileConfigView { hosts: spec_split_list(v), ..empty_config() },
        ),
        spec_parse_config("uuid="@ + v) == Ok::<FileConfigView, ConfigErrorView>(
            FileConfigView { uuids: spec_split_list(v), ..empty_config() },
        ),
        spec_parse_config("uuids="@ + v) == Ok::<FileConfigView, ConfigErrorView>(
            FileConfigView { uuids: spec_split_list(v), ..empty_config() },
        ),
{
    reveal_strlit("host=");
    assert("host="@ =~= KEY_HOST@ + seq!['=']);
    lemma_one_line(KEY_HOST@, v);
    reveal_strlit("hosts=");
    assert("hosts="@ =~= KEY_HOSTS@ + seq!['=']);
    lemma_one_line(KEY_HOSTS@, v);
    reveal_strlit("uuid=");
    assert("uuid="@ =~= KEY_UUID@ + seq!['=']);
    lemma_one_line(KEY_UUID@, v);
    reveal_strlit("uuids=");
    assert("uuids="@ =~= KEY_UUIDS@ + seq!['=']);
    lemma_one_line(KEY_UUIDS@, v);
    assert(Seq::<Seq<char>>::empty() + spec_split_list(v) =~= spec_split_list(v));
}

/// A file of one line `listen=v`, with a plain value, sets only the
/// listening address, to the address that the value reads as; a value that
/// is no address refuses line 1.
pub proof fn lemma_file_listen_setting(v: Seq<char>)
    requires
        plain_value(v),
    ensures
        spec_parse_config("listen="@ + v) == match parse_socket_spec(v) {
            Some(l) => Ok::<FileConfigView, ConfigErrorView>(FileConfigView { listen: Some(l), ..empty_config() }),
            None => Err(ConfigErrorView::InvalidListen(1)),
        },
{
    reveal_strlit("listen=");
    assert("listen="@ =~= KEY_LISTEN@ + seq!['=']);
    lemma_one_line(KEY_LISTEN@, v);
}

/// A file of one line `connect_timeout_ms=v`, `idle_timeout_s=v` or
/// `public_port=v`, with a plain value, sets only that number, to the value
/// it reads as; a value that is no number in range refuses line 1 with the
/// reason.
pub proof fn lemma_file_number_settings(v: Seq<char>)
    requires
        plain_value(v),
    ensures
        spec_parse_config("connect_timeout_ms="@ + v) == match parse_uint(v, u64::MAX as nat) {
            Ok(n) => Ok::<FileConfigView, ConfigErrorView>(
                FileConfigView { connect_timeout_ms: Some(n as u64), ..empty_config() },
            ),
            Err(k) => Err(ConfigErrorView::InvalidNumber(NumberKey::ConnectTimeoutMs, 1, k)),
        },
        spec_parse_config("idle_timeout_s="@ + v) == match parse_uint(v, u64::MAX as nat) {
            Ok(n) => Ok::<FileConfigView, ConfigErrorView>(
                FileConfigView { idle_timeout_s: Some(n as u64), ..empty_config() },
            ),
            Err(k) => Err(ConfigErrorView::InvalidNumber(NumberKey::IdleTimeoutS, 1, k)),
        },
        spec_parse_config("public_port="@ + v) == match parse_uint(v, u16::MAX as nat) {
            Ok(n) => Ok::<FileConfigView, ConfigErrorView>(
                FileConfigView { public_port: Some(n as u16), ..empty_config() },
            ),
            Err(k) => Err(ConfigErrorView::InvalidNumber(NumberKey::PublicPort, 1, k)),
        },
{
    reveal_strlit("connect_timeout_ms=");
    assert("connect_timeout_ms="@ =~= KEY_CONNECT_TIMEOUT_MS@ + seq!['=']);
    lemma_one_line(KEY_CONNECT_TIMEOUT_MS@, v);
    reveal_strlit("idle_timeout_s=");
    assert("idle_timeout_s="@ =~= KEY_IDLE_TIMEOUT_S@ + seq!['=']);
    lemma_one_line(KEY_IDLE_TIMEOUT_S@, v);
    reveal_strlit("public_port=");
    assert("public_port="@ =~= KEY_PUBLIC_PORT@ + seq!['=']);
    lemma_one_line(KEY_PUBLIC_PORT@, v);
}

} // verus!
