//! Textual forms of identifiers and numbers.

use vstd::prelude::*;
use crate::text::{decimal, push_decimal, push_str, string_from_chars};

verus! {

/// The lowercase hexadecimal digit for `d` (`0` to `15`).
pub open spec fn hex_digit(d: nat) -> char {
    if d < 10 {
        if d == 0 { '0' } else if d == 1 { '1' } else if d == 2 { '2' } else if d == 3 { '3' }
        else if d == 4 { '4' } else if d == 5 { '5' } else if d == 6 { '6' } else if d == 7 { '7' }
        else if d == 8 { '8' } else { '9' }
    } else if d == 10 { 'a' } else if d == 11 { 'b' } else if d == 12 { 'c' } else if d == 13 { 'd' }
    else if d == 14 { 'e' } else { 'f' }
}

/// The `k`-th hexadecimal digit (0 the most significant) of a 128-bit value.
pub open spec fn nibble(id: u128, k: nat) -> nat {
    ((id >> (((31 - k) * 4) as u128)) & 0xf) as nat
}

/// How many hyphens stand before position `p` of a hyphenated UUID.
pub open spec fn hyphens_before(p: int) -> int {
    if p <= 8 { 0 } else if p <= 13 { 1 } else if p <= 18 { 2 } else if p <= 23 { 3 } else { 4 }
}

/// The hyphenated lowercase form of a UUID given as a 128-bit big-endian value:
/// 32 hexadecimal digits in groups of 8, 4, 4, 4 and 12, separated by `-`.
pub open spec fn uuid_hyphenated(id: u128) -> Seq<char> {
    Seq::new(
        36,
        |p: int|
            if p == 8 || p == 13 || p == 18 || p == 23 {
                '-'
            } else {
                hex_digit(nibble(id, (p - hyphens_before(p)) as nat))
            },
    )
}

/// Calls `uuid::Uuid::from_u128(id).to_string()`. The uuid crate builds the UUID
/// from the big-endian bytes of `id` and displays it hyphenated in lowercase
/// hexadecimal; the contract states exactly that form.
#[verifier::external_body]
pub fn uuid_text(id: u128) -> (s: String)
    ensures
        s@ == uuid_hyphenated(id),
{
    uuid::Uuid::from_u128(id).to_string()
}

/// The decimal form of a signed number, with a leading `-` when it is negative.
pub open spec fn signed_decimal(n: int) -> Seq<char> {
    if n < 0 {
        seq!['-'] + decimal((-n) as nat)
    } else {
        decimal(n as nat)
    }
}

/// Append the decimal form of `n` to `v`.
pub fn push_i32(v: &mut Vec<char>, n: i32)
    ensures
        final(v)@ == old(v)@ + signed_decimal(n as int),
{
    if n < 0 {
        v.push('-');
        let m: u32 = if n == i32::MIN {
            2147483648u32
        } else {
            (-n) as u32
        };
        let ghost mid = v@;
        push_decimal(v, m);
        assert(v@ =~= old(v)@ + signed_decimal(n as int));
    } else {
        push_decimal(v, n as u32);
    }
}

} // verus!

verus! {

/// What `uuid::Uuid::parse_str` makes of a text, as a number: the UUID's
/// bytes read big-endian, or nothing when the text is no UUID.
pub uninterp spec fn parsed_uuid(s: Seq<char>) -> Option<u128>;

/// Calls `uuid::Uuid::parse_str(s)` and reads the UUID as a number with
/// `as_u128`. The contract names the result, and states the fact the uuid
/// crate's parser and display show: the hyphenated lowercase text of an id
/// parses back to that id.
#[verifier::external_body]
pub fn parse_uuid(s: &str) -> (r: Option<u128>)
    ensures
        r == parsed_uuid(s@),
        forall|x: u128| s@ == #[trigger] uuid_hyphenated(x) ==> r == Some(x),
{
    match uuid::Uuid::parse_str(s) {
        Ok(u) => Some(u.as_u128()),
        Err(_) => None,
    }
}

} // verus!
