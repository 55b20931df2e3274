//! Peer identifiers.
//!
//! A peer is named by a UUID. The library holds it as the `u128` whose
//! big-endian bytes are the UUID's bytes, so that `<` on the integer is the
//! order in which UUIDs (and the peer ids built on them) compare.

use vstd::prelude::*;

verus! {

/// A peer's identifier: the UUID's 128 bits, most significant byte first.
pub type PeerId = u128;

/// `16` to the power `k`.
pub open spec fn pow16(k: nat) -> int
    decreases k,
{
    if k == 0 {
        1
    } else {
        16 * pow16((k - 1) as nat)
    }
}

/// The `j`th hexadecimal digit of `id`, counted from the most significant
/// of its 32 digits.
pub open spec fn nibble(id: u128, j: int) -> int {
    (id as int / pow16((31 - j) as nat)) % 16
}

/// The lowercase character of a hexadecimal digit.
pub open spec fn hex_char(n: int) -> char {
    if n < 10 {
        (48 + n) as char
    } else {
        (87 + n) as char
    }
}

/// Which of the 32 digits the character at `i` of the hyphenated form
/// shows (the hyphens stand at 8, 13, 18 and 23).
pub open spec fn digit_slot(i: int) -> int {
    if i < 8 {
        i
    } else if i < 13 {
        i - 1
    } else if i < 18 {
        i - 2
    } else if i < 23 {
        i - 3
    } else {
        i - 4
    }
}

/// The text of a UUID in its hyphenated form, as `uuid` writes it: its 32
/// hexadecimal digits in lowercase, most significant first, in groups of
/// 8, 4, 4, 4 and 12 separated by hyphens.
pub open spec fn uuid_text(id: u128) -> Seq<char> {
    Seq::new(
        36,
        |i: int|
            if i == 8 || i == 13 || i == 18 || i == 23 {
                '-'
            } else {
                hex_char(nibble(id, digit_slot(i)))
            },
    )
}

/// The UUID that `uuid` reads from a text, if the text is one.
pub uninterp spec fn uuid_parse(text: Seq<char>) -> Option<u128>;

/// Writes a peer id as `uuid::Uuid`'s `Display` does.
///
/// Trusted: the text is `uuid_text(id)`, the hyphenated form that
/// `Display` writes, and `uuid::Uuid::parse_str` reads it back to `id`.
#[verifier::external_body]
pub(crate) fn peer_id_to_string(id: PeerId) -> (s: String)
    ensures
        s@ == uuid_text(id),
        uuid_parse(s@) == Some(id),
{
    uuid::Uuid::from_u128(id).to_string()
}

/// Reads a peer id with `uuid::Uuid::parse_str`.
///
/// Trusted: the result is `uuid_parse(text)`, `None` where the text is not a
/// UUID; the hyphenated form of an id reads back as that id.
#[verifier::external_body]
pub(crate) fn parse_peer_id(text: &str) -> (r: Option<PeerId>)
    ensures
        r == uuid_parse(text@),
        forall|id: PeerId| text@ == uuid_text(id) ==> r == Some(id),
{
    match uuid::Uuid::parse_str(text) {
        Ok(u) => Some(u.as_u128()),
        Err(_) => None,
    }
}

} // verus!
