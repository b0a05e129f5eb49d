//! Handler ids: fresh random identifiers in the textual form of a version 4
//! UUID.

use rand::rngs::SmallRng;
use rand::{FromEntropy, Rng};
use vstd::prelude::*;

verus! {

/// `rand::rngs::SmallRng`, a small fast generator. Nothing is stated of its
/// state.
#[verifier::external_type_specification]
#[verifier::external_body]
pub struct ExSmallRng(SmallRng);

/// The sixteen lower-case hexadecimal digits.
pub open spec fn hex_digits() -> Seq<char> {
    seq!['0', '1', '2', '3', '4', '5', '6', '7', '8', '9', 'a', 'b', 'c', 'd', 'e', 'f']
}

/// The bytes with the marks of a random UUID: version 4 in the high half of
/// byte 6, the RFC 4122 variant in the two high bits of byte 8.
pub open spec fn v4_bytes(bytes: Seq<u8>) -> Seq<u8> {
    bytes.update(6, (bytes[6] & 0x0f) | 0x40).update(8, (bytes[8] & 0x3f) | 0x80)
}

/// How many hyphens stand before the position `p` of the text.
pub open spec fn hyphens_before(p: int) -> int {
    if p < 8 {
        0
    } else if p < 13 {
        1
    } else if p < 18 {
        2
    } else if p < 23 {
        3
    } else {
        4
    }
}

/// The text of the random UUID made from sixteen bytes: 32 hexadecimal
/// digits, the high half of each byte first, in groups of 8, 4, 4, 4 and 12
/// with a hyphen between two groups.
pub open spec fn uuid_text(bytes: Seq<u8>) -> Seq<char> {
    Seq::new(
        36,
        |p: int|
            if p == 8 || p == 13 || p == 18 || p == 23 {
                '-'
            } else {
                let digit = p - hyphens_before(p);
                let byte = v4_bytes(bytes)[digit / 2];
                if digit % 2 == 0 {
                    hex_digits()[byte as int / 16]
                } else {
                    hex_digits()[byte as int % 16]
                }
            },
    )
}

/// A small generator seeded from the system's entropy.
///
/// Calls `SmallRng::from_entropy` of the rand crate. Nothing is stated of
/// the generator. The call fails only where the system has no entropy
/// source at all.
#[verifier::external_body]
fn entropy_rng() -> SmallRng {
    SmallRng::from_entropy()
}

/// Sixteen random bytes.
///
/// Calls `Rng::gen` of the rand crate on the generator. Nothing is stated
/// of the bytes.
#[verifier::external_body]
fn random_bytes(rng: &mut SmallRng) -> [u8; 16] {
    rng.gen()
}

/// The text of the random UUID made from the bytes.
///
/// Calls `Uuid::from_random_bytes` of the uuid crate, which sets the
/// version and variant marks, and formats the result, which writes the
/// hyphenated lower-case form.
#[verifier::external_body]
fn hyphenated(bytes: [u8; 16]) -> (res: String)
    ensures
        res@ == uuid_text(bytes@),
{
    #[allow(deprecated)]
    let id = uuid::Uuid::from_random_bytes(bytes);
    id.to_string()
}

/// The handler id that the given random bytes stand for.
pub fn uuid_from_bytes(bytes: [u8; 16]) -> (res: String)
    ensures
        res@ == uuid_text(bytes@),
{
    hyphenated(bytes)
}

/// A fresh handler id: the text of a random UUID.
pub fn uuid() -> (res: String)
    ensures
        exists|bytes: Seq<u8>| bytes.len() == 16 && res@ == uuid_text(bytes),
{
    let mut rng = entropy_rng();
    let bytes = random_bytes(&mut rng);
    let res = uuid_from_bytes(bytes);
    assert(bytes@.len() == 16 && res@ == uuid_text(bytes@));
    res
}

} // verus!
