//! Character-level text handling: whitespace, trimming, splitting, ASCII
//! case folding and the building of owned strings from pieces of others.

use vstd::prelude::*;

verus! {

broadcast use vstd::string::group_string_axioms;

/// The characters of `s`, in order.
pub fn chars_of(s: &str) -> (v: Vec<char>)
    ensures
        v@ == s@,
{
    let mut v: Vec<char> = Vec::new();
    for c in it: s.chars()
        invariant
            v@ == it.seq().take(it.index() as int),
            it.seq() == s@,
    {
        v.push(c);
    }
    v
}

/// Unicode `White_Space`, as `char::is_whitespace` decides it.
pub open spec fn is_whitespace(c: char) -> bool {
    ||| c == ' '
    ||| ('\u{9}' <= c && c <= '\u{d}')
    ||| c == '\u{85}'
    ||| c == '\u{a0}'
    ||| c == '\u{1680}'
    ||| ('\u{2000}' <= c && c <= '\u{200a}')
    ||| c == '\u{2028}'
    ||| c == '\u{2029}'
    ||| c == '\u{202f}'
    ||| c == '\u{205f}'
    ||| c == '\u{3000}'
}

/// `char::is_whitespace`.
pub fn char_is_whitespace(c: char) -> (r: bool)
    ensures
        r == is_whitespace(c),
{
    c == ' ' || ('\u{9}' <= c && c <= '\u{d}') || c == '\u{85}' || c == '\u{a0}' || c == '\u{1680}'
        || ('\u{2000}' <= c && c <= '\u{200a}') || c == '\u{2028}' || c == '\u{2029}'
        || c == '\u{202f}' || c == '\u{205f}' || c == '\u{3000}'
}

/// `s` without its leading whitespace.
pub open spec fn trim_start(s: Seq<char>) -> Seq<char>
    decreases s.len(),
{
    if s.len() > 0 && is_whitespace(s[0]) {
        trim_start(s.drop_first())
    } else {
        s
    }
}

/// `s` without its trailing whitespace.
pub open spec fn trim_end(s: Seq<char>) -> Seq<char>
    decreases s.len(),
{
    if s.len() > 0 && is_whitespace(s.last()) {
        trim_end(s.drop_last())
    } else {
        s
    }
}

/// `str::trim`: `s` without leading and trailing whitespace.
pub open spec fn trim(s: Seq<char>) -> Seq<char> {
    trim_end(trim_start(s))
}

/// The ASCII lower-case form of one character; other characters are kept.
pub open spec fn lower_char(c: char) -> char {
    if 'A' <= c && c <= 'Z' {
        ((c as u32) + 32) as char
    } else {
        c
    }
}

/// `str::to_ascii_lowercase`.
pub open spec fn ascii_lower(s: Seq<char>) -> Seq<char> {
    s.map_values(|c: char| lower_char(c))
}

/// Index of the first occurrence of `c` in `s`.
pub open spec fn find_char(s: Seq<char>, c: char) -> Option<int>
    decreases s.len(),
{
    if s.len() == 0 {
        None
    } else {
        match find_char(s.drop_last(), c) {
            Some(i) => Some(i),
            None => if s.last() == c {
                Some(s.len() - 1)
            } else {
                None
            },
        }
    }
}

/// `str::split`: the pieces of `s` between occurrences of `sep`; there is
/// always one more piece than there are separators.
pub open spec fn split_on(s: Seq<char>, sep: char) -> Seq<Seq<char>>
    decreases s.len(),
{
    if s.len() == 0 {
        seq![Seq::<char>::empty()]
    } else {
        let r = split_on(s.drop_last(), sep);
        if s.last() == sep {
            r.push(Seq::<char>::empty())
        } else {
            r.update(r.len() - 1, r.last().push(s.last()))
        }
    }
}

pub proof fn lemma_find_char_facts(s: Seq<char>, c: char)
    ensures
        find_char(s, c) matches Some(i) ==> 0 <= i < s.len() && s[i] == c && forall|k: int|
            0 <= k < i ==> s[k] != c,
        find_char(s, c) is None ==> forall|k: int| 0 <= k < s.len() ==> s[k] != c,
    decreases s.len(),
{
    if s.len() > 0 {
        let t = s.drop_last();
        lemma_find_char_facts(t, c);
        assert(forall|k: int| 0 <= k < t.len() ==> t[k] == s[k]);
    }
}

pub proof fn lemma_split_on_len(s: Seq<char>, sep: char)
    ensures
        split_on(s, sep).len() >= 1,
    decreases s.len(),
{
    if s.len() > 0 {
        lemma_split_on_len(s.drop_last(), sep);
    }
}

/// Splitting at the first separator: the first piece runs up to it, and the
/// rest are the pieces of what follows it.
pub proof fn lemma_split_on_first(s: Seq<char>, sep: char, i: int)
    requires
        0 <= i < s.len(),
        s[i] == sep,
        forall|k: int| 0 <= k < i ==> s[k] != sep,
    ensures
        split_on(s, sep) == seq![s.take(i)] + split_on(s.skip(i + 1), sep),
    decreases s.len(),
{
    lemma_split_on_len(s.skip(i + 1), sep);
    if s.len() == i + 1 {
        lemma_split_on_no_sep(s.take(i), sep);
        assert(s.drop_last() =~= s.take(i));
        assert(s.skip(i + 1) =~= Seq::<char>::empty());
        assert(split_on(s, sep) =~= seq![s.take(i)] + split_on(s.skip(i + 1), sep));
    } else {
        lemma_split_on_first(s.drop_last(), sep, i);
        assert(s.drop_last().take(i) =~= s.take(i));
        assert(s.drop_last().skip(i + 1) =~= s.skip(i + 1).drop_last());
        let t = s.skip(i + 1);
        assert(t.last() == s.last());
        lemma_split_on_len(t.drop_last(), sep);
        assert(split_on(s, sep) =~= seq![s.take(i)] + split_on(s.skip(i + 1), sep));
    }
}

/// Without separators there is one piece, the whole.
pub proof fn lemma_split_on_no_sep(s: Seq<char>, sep: char)
    requires
        forall|k: int| 0 <= k < s.len() ==> s[k] != sep,
    ensures
        split_on(s, sep) == seq![s],
    decreases s.len(),
{
    if s.len() > 0 {
        let t = s.drop_last();
        assert(forall|k: int| 0 <= k < t.len() ==> t[k] == s[k]);
        lemma_split_on_no_sep(t, sep);
        assert(s.last() == s[s.len() - 1]);
        assert(t.push(s.last()) =~= s);
        assert(split_on(s, sep) =~= seq![s]);
    } else {
        assert(s =~= Seq::<char>::empty());
    }
}

/// The pieces of a prefix: all but the last are pieces of the whole, and the
/// last runs from the previous separator to the cut.
pub proof fn lemma_split_on_prefix(s: Seq<char>, sep: char, k: int)
    requires
        0 <= k <= s.len(),
    ensures
        split_on(s.take(k), sep).len() <= split_on(s, sep).len(),
        split_on(s.take(k), sep).drop_last() == split_on(s, sep).take(
            split_on(s.take(k), sep).len() - 1,
        ),
    decreases s.len() - k,
{
    lemma_split_on_len(s.take(k), sep);
    lemma_split_on_len(s, sep);
    if k == s.len() {
        assert(s.take(k) =~= s);
    } else {
        lemma_split_on_prefix(s, sep, k + 1);
        let p = s.take(k + 1);
        assert(p.drop_last() =~= s.take(k));
        lemma_split_on_len(p.drop_last(), sep);
        let r = split_on(s.take(k), sep);
        let q = split_on(p, sep);
        if p.last() == sep {
            assert(q.drop_last() =~= r);
        } else {
            assert(q.drop_last() =~= r.drop_last());
        }
        assert(r.drop_last() =~= split_on(s, sep).take(r.len() - 1));
    }
}

/// Whether `v@[a..b]` equals the characters of `lit`, read at runtime.
pub(crate) fn range_eq(v: &Vec<char>, a: usize, b: usize, lit: &[char]) -> (r: bool)
    requires
        a <= b <= v@.len(),
    ensures
        r == (v@.subrange(a as int, b as int) == lit@),
{
    if b - a != lit.len() {
        assert(v@.subrange(a as int, b as int).len() != lit@.len());
        return false;
    }
    let mut k: usize = 0;
    while k < lit.len()
        invariant
            a <= b <= v@.len(),
            b - a == lit@.len(),
            k <= lit@.len(),
            forall|m: int| 0 <= m < k ==> v@[a + m] == lit@[m],
        decreases lit@.len() - k,
    {
        if v[a + k] != lit[k] {
            assert(v@.subrange(a as int, b as int)[k as int] != lit@[k as int]);
            return false;
        }
        k = k + 1;
    }
    assert(v@.subrange(a as int, b as int) =~= lit@);
    true
}

/// Bounds of `trim(v@[a..b])` inside `v`.
pub(crate) fn trim_bounds(v: &Vec<char>, a: usize, b: usize) -> (r: (usize, usize))
    requires
        a <= b <= v@.len(),
    ensures
        a <= r.0 <= r.1 <= b,
        v@.subrange(r.0 as int, r.1 as int) == trim(v@.subrange(a as int, b as int)),
{
    let mut i = a;
    while i < b && char_is_whitespace(v[i])
        invariant
            a <= i <= b <= v@.len(),
            trim_start(v@.subrange(a as int, b as int)) == trim_start(v@.subrange(i as int, b as int)),
        decreases b - i,
    {
        assert(v@.subrange(i as int, b as int).drop_first() =~= v@.subrange(i + 1, b as int));
        i = i + 1;
    }
    assert(trim_start(v@.subrange(i as int, b as int)) == v@.subrange(i as int, b as int));
    let mut j = b;
    while j > i && char_is_whitespace(v[j - 1])
        invariant
            a <= i <= j <= b <= v@.len(),
            trim(v@.subrange(a as int, b as int)) == trim_end(v@.subrange(i as int, j as int)),
        decreases j - i,
    {
        assert(v@.subrange(i as int, j as int).drop_last() =~= v@.subrange(i as int, j - 1));
        j = j - 1;
    }
    (i, j)
}

/// Position of the first `c` in `v@[a..b]`, counted from the start of `v`.
pub(crate) fn find_in(v: &Vec<char>, a: usize, b: usize, c: char) -> (r: Option<usize>)
    requires
        a <= b <= v@.len(),
    ensures
        match r {
            Some(p) => a <= p < b && find_char(v@.subrange(a as int, b as int), c) == Some(p - a),
            None => find_char(v@.subrange(a as int, b as int), c) is None,
        },
{
    let mut k = a;
    while k < b
        invariant
            a <= k <= b <= v@.len(),
            forall|m: int| a <= m < k ==> v@[m] != c,
        decreases b - k,
    {
        if v[k] == c {
            proof {
                let s = v@.subrange(a as int, b as int);
                lemma_find_char_facts(s, c);
                lemma_find_char_first(s, c, k - a);
            }
            return Some(k);
        }
        k = k + 1;
    }
    proof {
        let s = v@.subrange(a as int, b as int);
        lemma_find_char_facts(s, c);
        if find_char(s, c) is Some {
            let i = find_char(s, c)->0;
            assert(s[i] == v@[a + i]);
        }
    }
    None
}

/// The first occurrence is the one with no earlier occurrence.
pub proof fn lemma_find_char_first(s: Seq<char>, c: char, i: int)
    requires
        0 <= i < s.len(),
        s[i] == c,
        forall|k: int| 0 <= k < i ==> s[k] != c,
    ensures
        find_char(s, c) == Some(i),
{
    lemma_find_char_facts(s, c);
    if find_char(s, c) is Some {
        let j = find_char(s, c)->0;
        if j < i {
            assert(s[j] != c);
        }
        if j > i {
            assert(s[i] != c);
        }
    }
}

/// An owned copy of the characters `a..b` of `s`.
pub(crate) fn substring(s: &str, a: usize, b: usize) -> (r: String)
    requires
        a <= b <= s@.len(),
    ensures
        r@ == s@.subrange(a as int, b as int),
{
    s.substring_char(a, b).to_owned()
}

/// `str::to_ascii_lowercase`.
pub fn to_ascii_lowercase(s: &str) -> (r: String)
    ensures
        r@ == ascii_lower(s@),
{
    let n = s.unicode_len();
    let alphabet = "abcdefghijklmnopqrstuvwxyz";
    proof {
        reveal_strlit("abcdefghijklmnopqrstuvwxyz");
    }
    let mut out = String::new();
    let mut i: usize = 0;
    while i < n
        invariant
            n == s@.len(),
            i <= n,
            alphabet@ == "abcdefghijklmnopqrstuvwxyz"@,
            alphabet@.len() == 26,
            forall|k: int| 0 <= k < 26 ==> alphabet@[k] == (('a' as u32) + k) as char,
            out@ == ascii_lower(s@.take(i as int)),
        decreases n - i,
    {
        let c = s.get_char(i);
        let piece: &str = if 'A' <= c && c <= 'Z' {
            let k = (c as u32 - 'A' as u32) as usize;
            alphabet.substring_char(k, k + 1)
        } else {
            s.substring_char(i, i + 1)
        };
        assert(piece@ == seq![lower_char(c)]) by {
            assert(piece@.len() == 1);
        }
        out.append(piece);
        assert(ascii_lower(s@.take(i + 1)) =~= ascii_lower(s@.take(i as int)).push(lower_char(c)));
        i = i + 1;
    }
    assert(s@.take(n as int) =~= s@);
    out
}

/// The digit character of `d` in base sixteen, lower case (`0`-`9`, `a`-`f`).
pub open spec fn digit_char(d: nat) -> char {
    if d < 10 {
        (('0' as u32) + d) as char
    } else {
        (('a' as u32) + (d - 10)) as char
    }
}

/// Decimal notation of `n`, without leading zeros.
pub open spec fn decimal(n: nat) -> Seq<char>
    decreases n,
{
    if n < 10 {
        seq![digit_char(n)]
    } else {
        decimal(n / 10).push(digit_char(n % 10))
    }
}

/// Lower-case hexadecimal notation of `n`, without leading zeros.
pub open spec fn hex_lower(n: nat) -> Seq<char>
    decreases n,
{
    if n < 16 {
        seq![digit_char(n)]
    } else {
        hex_lower(n / 16).push(digit_char(n % 16))
    }
}

/// A one-character string holding the digit `d`.
fn digit_str(d: u64) -> (r: &'static str)
    requires
        d < 16,
    ensures
        r@ == seq![digit_char(d as nat)],
{
    let digits = "0123456789abcdef";
    proof {
        reveal_strlit("0123456789abcdef");
    }
    let r = digits.substring_char(d as usize, d as usize + 1);
    assert(r@.len() == 1);
    assert(r@ =~= seq![digit_char(d as nat)]);
    r
}

/// Decimal notation of `n` (`u64`'s `Display`).
pub fn decimal_string(n: u64) -> (r: String)
    ensures
        r@ == decimal(n as nat),
    decreases n,
{
    if n < 10 {
        digit_str(n).to_owned()
    } else {
        let mut s = decimal_string(n / 10);
        s.append(digit_str(n % 10));
        s
    }
}

/// Lower-case hexadecimal notation of `n` (`{:x}`).
pub fn hex_string(n: u64) -> (r: String)
    ensures
        r@ == hex_lower(n as nat),
    decreases n,
{
    if n < 16 {
        digit_str(n).to_owned()
    } else {
        let mut s = hex_string(n / 16);
        s.append(digit_str(n % 16));
        s
    }
}

/// Whether the ASCII lower-case form of `v@[a..b]` equals `lit`.
pub(crate) fn range_eq_lower(v: &Vec<char>, a: usize, b: usize, lit: &[char]) -> (r: bool)
    requires
        a <= b <= v@.len(),
    ensures
        r == (ascii_lower(v@.subrange(a as int, b as int)) == lit@),
{
    if b - a != lit.len() {
        assert(ascii_lower(v@.subrange(a as int, b as int)).len() != lit@.len());
        return false;
    }
    let mut k: usize = 0;
    while k < lit.len()
        invariant
            a <= b <= v@.len(),
            b - a == lit@.len(),
            k <= lit@.len(),
            forall|m: int| 0 <= m < k ==> lower_char(v@[a + m]) == lit@[m],
        decreases lit@.len() - k,
    {
        let c = v[a + k];
        let lc = if 'A' <= c && c <= 'Z' {
            ((c as u8) + 32) as char
        } else {
            c
        };
        if lc != lit[k] {
            assert(ascii_lower(v@.subrange(a as int, b as int))[k as int] != lit@[k as int]);
            return false;
        }
        k = k + 1;
    }
    assert(ascii_lower(v@.subrange(a as int, b as int)) =~= lit@);
    true
}

/// Reading one more character that is the separator closes the current piece.
pub proof fn lemma_split_step_sep(t: Seq<char>, sep: char, k: int)
    requires
        0 <= k < t.len(),
        t[k] == sep,
    ensures
        split_on(t.take(k + 1), sep).drop_last() == split_on(t.take(k), sep),
        split_on(t.take(k + 1), sep).last() == Seq::<char>::empty(),
        split_on(t.take(k + 1), sep).len() == split_on(t.take(k), sep).len() + 1,
{
    assert(t.take(k + 1).drop_last() =~= t.take(k));
    assert(t.take(k + 1).last() == t[k]);
}

/// Reading one more character that is not the separator extends the current piece.
pub proof fn lemma_split_step_other(t: Seq<char>, sep: char, k: int, start: int)
    requires
        0 <= start <= k < t.len(),
        t[k] != sep,
        split_on(t.take(k), sep).last() == t.subrange(start, k),
    ensures
        split_on(t.take(k + 1), sep).drop_last() == split_on(t.take(k), sep).drop_last(),
        split_on(t.take(k + 1), sep).last() == t.subrange(start, k + 1),
        split_on(t.take(k + 1), sep).len() == split_on(t.take(k), sep).len(),
{
    lemma_split_on_len(t.take(k), sep);
    assert(t.take(k + 1).drop_last() =~= t.take(k));
    assert(t.take(k + 1).last() == t[k]);
    assert(t.subrange(start, k + 1) =~= t.subrange(start, k).push(t[k]));
    let ps = split_on(t.take(k), sep);
    assert(split_on(t.take(k + 1), sep).drop_last() =~= ps.drop_last());
}

/// At the end, the pieces of the whole are those read so far and the current one.
pub proof fn lemma_split_end(t: Seq<char>, sep: char)
    ensures
        t.take(t.len() as int) == t,
        split_on(t, sep) == split_on(t, sep).drop_last().push(split_on(t, sep).last()),
{
    assert(t.take(t.len() as int) =~= t);
    lemma_split_on_len(t, sep);
    let ps = split_on(t, sep);
    assert(ps.drop_last().push(ps.last()) =~= ps);
}


/// What `trim_start` keeps is a suffix of `s` that does not start with
/// whitespace.
pub proof fn lemma_trim_start_facts(s: Seq<char>)
    ensures
        trim_start(s).len() <= s.len(),
        trim_start(s).len() == 0 || !is_whitespace(trim_start(s)[0]),
        forall|i: int|
            0 <= i < trim_start(s).len() ==> trim_start(s)[i] == s[i + s.len() - trim_start(s).len()],
    decreases s.len(),
{
    if s.len() > 0 && is_whitespace(s[0]) {
        lemma_trim_start_facts(s.drop_first());
    }
}

/// What `trim_end` keeps is a prefix of `s` that does not end with
/// whitespace.
pub proof fn lemma_trim_end_facts(s: Seq<char>)
    ensures
        trim_end(s).len() <= s.len(),
        trim_end(s).len() == 0 || !is_whitespace(trim_end(s).last()),
        forall|i: int| 0 <= i < trim_end(s).len() ==> trim_end(s)[i] == s[i],
    decreases s.len(),
{
    if s.len() > 0 && is_whitespace(s.last()) {
        let t = s.drop_last();
        lemma_trim_end_facts(t);
        assert forall|i: int| 0 <= i < trim_end(s).len() implies trim_end(s)[i] == s[i] by {
            assert(trim_end(s)[i] == t[i]);
        }
    }
}

/// Every character of `trim(s)` is one of `s`.
pub proof fn lemma_trim_within(s: Seq<char>, c: char)
    ensures
        trim(s).contains(c) ==> s.contains(c),
{
    lemma_trim_start_facts(s);
    lemma_trim_end_facts(trim_start(s));
    if trim(s).contains(c) {
        let a = trim_start(s);
        let i = choose|i: int| 0 <= i < trim(s).len() && trim(s)[i] == c;
        assert(a[i] == c);
        assert(s[i + s.len() - a.len()] == c);
    }
}

/// Trimming twice is trimming once.
pub proof fn lemma_trim_idempotent(s: Seq<char>)
    ensures
        trim(trim(s)) == trim(s),
{
    let a = trim_start(s);
    let b = trim_end(a);
    lemma_trim_start_facts(s);
    lemma_trim_end_facts(a);
    if b.len() > 0 {
        assert(b[0] == a[0]);
    }
    assert(trim_start(b) == b);
    lemma_trim_end_facts(b);
    if b.len() > 0 {
        assert(trim_end(b) == b);
    }
}

/// No piece of a split holds the separator.
pub proof fn lemma_split_on_pieces(s: Seq<char>, sep: char)
    ensures
        forall|i: int| 0 <= i < split_on(s, sep).len() ==> !(#[trigger] split_on(s, sep)[i]).contains(sep),
    decreases s.len(),
{
    lemma_split_on_len(s, sep);
    if s.len() > 0 {
        let r = split_on(s.drop_last(), sep);
        lemma_split_on_pieces(s.drop_last(), sep);
        lemma_split_on_len(s.drop_last(), sep);
        if s.last() != sep {
            let p = r.last().push(s.last());
            assert(!r[r.len() - 1].contains(sep));
            assert forall|k: int| 0 <= k < p.len() implies p[k] != sep by {
                if k < p.len() - 1 {
                    assert(p[k] == r[r.len() - 1][k]);
                }
            }
        }
    }
}

} // verus!
