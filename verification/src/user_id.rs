//! User ids (UUIDs) as text, through the `uuid` crate.

use vstd::prelude::*;

use crate::net::digit_of;
use crate::text::{ascii_lower, digit_char};

verus! {

/// The sixteen bytes spelled by 32 hexadecimal digits of either case, two
/// digits per byte, the high one first; `None` unless all are hex digits.
pub open spec fn hex32_bytes(h: Seq<char>) -> Option<Seq<u8>> {
    if h.len() == 32 && forall|i: int| 0 <= i < 32 ==> (#[trigger] digit_of(h[i], 16)) is Some {
        Some(
            Seq::new(
                16,
                |j: int| (16 * digit_of(h[2 * j], 16)->0 + digit_of(h[2 * j + 1], 16)->0) as u8,
            ),
        )
    } else {
        None
    }
}

/// The bytes of the hyphenated form: 36 characters, `-` at positions 8,
/// 13, 18 and 23, hex digits elsewhere.
pub open spec fn hyphenated_bytes(s: Seq<char>) -> Option<Seq<u8>> {
    if s.len() == 36 && s[8] == '-' && s[13] == '-' && s[18] == '-' && s[23] == '-' {
        hex32_bytes(
            s.subrange(0, 8) + s.subrange(9, 13) + s.subrange(14, 18) + s.subrange(19, 23) + s.subrange(
                24,
                36,
            ),
        )
    } else {
        None
    }
}

/// What `uuid::Uuid::parse_str` gives for the text `s`: the sixteen bytes of
/// the UUID written as 32 hex digits, or in the hyphenated form, bare, in
/// braces or after `urn:uuid:` (in any ASCII case); `None` for any other
/// text.
pub open spec fn uuid_parse(s: Seq<char>) -> Option<Seq<u8>> {
    if s.len() == 32 {
        hex32_bytes(s)
    } else if s.len() == 36 {
        hyphenated_bytes(s)
    } else if s.len() == 38 && s[0] == '{' && s[37] == '}' {
        hyphenated_bytes(s.subrange(1, 37))
    } else if s.len() == 45 && ascii_lower(s.take(9)) == seq!['u', 'r', 'n', ':', 'u', 'u', 'i', 'd', ':'] {
        hyphenated_bytes(s.skip(9))
    } else {
        None
    }
}

/// `uuid::Uuid::parse_str`, then `Uuid::into_bytes`: the bytes of the UUID
/// that the text writes, in one of the forms that `uuid_parse` lists, or
/// `None` when the text is none of them.
#[verifier::external_body]
pub(crate) fn parse_uuid(s: &str) -> (r: Option<[u8; 16]>)
    ensures
        match r {
            Some(b) => uuid_parse(s@) == Some(b@),
            None => uuid_parse(s@) is None,
        },
{
    match uuid::Uuid::parse_str(s) {
        Ok(u) => Some(u.into_bytes()),
        Err(_) => None,
    }
}

/// Two lower-case hexadecimal digits of a byte.
pub open spec fn hex_byte(b: u8) -> Seq<char> {
    seq![digit_char((b / 16) as nat), digit_char((b % 16) as nat)]
}

/// Hex digits of the bytes `b@[i..j]`.
pub open spec fn hex_bytes(b: Seq<u8>, i: int, j: int) -> Seq<char>
    decreases j - i,
{
    if j <= i {
        Seq::empty()
    } else {
        hex_bytes(b, i, j - 1) + hex_byte(b[j - 1])
    }
}

/// The hyphenated lower-case form of a UUID, `xxxxxxxx-xxxx-xxxx-xxxx-xxxxxxxxxxxx`:
/// bytes 0..4, 4..6, 6..8, 8..10 and 10..16 in hex, joined by `-`.
pub open spec fn hyphenated(b: Seq<u8>) -> Seq<char> {
    hex_bytes(b, 0, 4) + seq!['-'] + hex_bytes(b, 4, 6) + seq!['-'] + hex_bytes(b, 6, 8) + seq!['-']
        + hex_bytes(b, 8, 10) + seq!['-'] + hex_bytes(b, 10, 16)
}

/// `uuid::Uuid::from_bytes(b).to_string()`: the hyphenated lower-case form,
/// as the crate's `Display` writes it.
#[verifier::external_body]
pub(crate) fn uuid_to_string(b: &[u8; 16]) -> (r: String)
    ensures
        r@ == hyphenated(b@),
{
    uuid::Uuid::from_bytes(*b).to_string()
}

} // verus!
