//! The stored form of an address index: four bytes, the most significant first,
//! so that a store that orders its keys by their bytes orders them by index.

use vstd::prelude::*;

use crate::bytes::{precedes, precedes_total};

verus! {

/// The number that four bytes stand for, the most significant first.
pub open spec fn key_value(key: Seq<u8>) -> int {
    key[0] * 0x100_0000 + key[1] * 0x1_0000 + key[2] * 0x100 + key[3]
}

/// Calls `byteorder::BigEndian::read_u32`, which reads the first four bytes of
/// its argument as a number, the most significant byte first.
#[verifier::external_body]
fn read_u32(key: &[u8; 4]) -> (index: u32)
    ensures
        index == key_value(key@),
{
    <byteorder::BigEndian as byteorder::ByteOrder>::read_u32(key)
}

/// The index under which a stored key stands.
pub fn key_index(key: &[u8; 4]) -> (index: u32)
    ensures
        index == key_value(key@),
        index == ((key[0] * 256 + key[1]) * 256 + key[2]) * 256 + key[3],
{
    read_u32(key)
}

/// The key under which an index is stored.
pub fn index_key(index: u32) -> (key: [u8; 4])
    ensures
        key_value(key@) == index,
        ((key[0] * 256 + key[1]) * 256 + key[2]) * 256 + key[3] == index,
{
    let high: u8 = (index / 0x100_0000) as u8;
    let upper: u8 = (index / 0x1_0000 % 0x100) as u8;
    let lower: u8 = (index / 0x100 % 0x100) as u8;
    let low: u8 = (index % 0x100) as u8;
    [high, upper, lower, low]
}

/// Keys come in the order of their indices, so the last key of a store that
/// orders keys by their bytes is that of the greatest index.
pub proof fn key_order_is_index_order(a: [u8; 4], b: [u8; 4])
    ensures
        precedes(a@, b@) <==> key_value(a@) < key_value(b@),
{
    reveal_with_fuel(precedes, 5);
}

/// An index has one key only.
pub proof fn key_value_injective(a: [u8; 4], b: [u8; 4])
    ensures
        key_value(a@) == key_value(b@) ==> a == b,
{
    if key_value(a@) == key_value(b@) {
        key_order_is_index_order(a, b);
        key_order_is_index_order(b, a);
        precedes_total(a@, b@);
        assert forall|i: int| 0 <= i < 4 implies a[i] == b[i] by {
            assert(a@[i] == b@[i]);
        }
        assert(a =~= b);
    }
}

} // verus!
