//! The snapshot that a master hands to a replica that asks to synchronise:
//! a fixed dump of an empty database, kept as hexadecimal text.

use crate::bytes::{ascii, text};
use vstd::prelude::*;

verus! {

#[verifier::external_type_specification]
#[verifier::external_body]
pub struct ExFromHexError(hex::FromHexError);

/// The number that a hexadecimal digit stands for.
pub open spec fn hex_value(c: u8) -> Option<u8> {
    if 48 <= c <= 57 {
        Some((c - 48) as u8)
    } else if 97 <= c <= 102 {
        Some((c - 87) as u8)
    } else if 65 <= c <= 70 {
        Some((c - 55) as u8)
    } else {
        None
    }
}

/// Whether `s` is hexadecimal text: digits of either letter case, an even
/// number of them.
pub open spec fn is_hex(s: Seq<u8>) -> bool {
    s.len() % 2 == 0 && forall|i: int| 0 <= i < s.len() ==> hex_value(#[trigger] s[i]) is Some
}

/// The bytes that hexadecimal text spells, two digits to the byte, the
/// high one first.
pub open spec fn spec_hex_decode(s: Seq<u8>) -> Seq<u8> {
    Seq::new(
        s.len() / 2,
        |i: int| (hex_value(s[2 * i]).unwrap() * 16 + hex_value(s[2 * i + 1]).unwrap()) as u8,
    )
}

/// The empty database dump, as hexadecimal text.
pub open spec fn spec_empty_hex() -> Seq<char> {
    "524544495330303131fa0972656469732d76657205372e322e30fa0a72656469732d62697473c040fa056374696d65c26d08bc65fa08757365642d6d656dc2b0c41000fa08616f662d62617365c000fff06e3bfec0ff5aa2"@
}

/// The empty database dump.
pub open spec fn spec_snapshot() -> Seq<u8> {
    spec_hex_decode(ascii(spec_empty_hex()))
}

/// Calls `hex::decode` of the `hex` crate. The contract claims of it: it
/// succeeds exactly on an even number of hexadecimal digits of either letter
/// case, and the bytes it then returns are those that the digits spell, two
/// to the byte, the high one first. Nothing is claimed of the error's value.
#[verifier::external_body]
fn hex_decode(data: &[u8]) -> (r: Result<Vec<u8>, hex::FromHexError>)
    ensures
        r is Ok <==> is_hex(data@),
        r matches Ok(bytes) ==> bytes@ == spec_hex_decode(data@),
{
    hex::decode(data)
}

/// The empty database dump that a master sends after `FULLRESYNC`.
pub fn snapshot() -> (r: Vec<u8>)
    ensures
        r@ == spec_snapshot(),
        r@.len() == 88,
{
    proof {
        reveal_strlit(
            "524544495330303131fa0972656469732d76657205372e322e30fa0a72656469732d62697473c040fa056374696d65c26d08bc65fa08757365642d6d656dc2b0c41000fa08616f662d62617365c000fff06e3bfec0ff5aa2",
        );
    }
    let data = text(
        "524544495330303131fa0972656469732d76657205372e322e30fa0a72656469732d62697473c040fa056374696d65c26d08bc65fa08757365642d6d656dc2b0c41000fa08616f662d62617365c000fff06e3bfec0ff5aa2",
    );
    assert(data@.len() == 176);
    assert(is_hex(data@));
    match hex_decode(data.as_slice()) {
        Ok(bytes) => bytes,
        Err(_) => Vec::new(),
    }
}

} // verus!
