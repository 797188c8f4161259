use vstd::prelude::*;

verus! {

use crate::entry::hex_of;

/// Whether the 128 bits carry the marks of a random (version 4) UUID: the
/// version nibble is 4 and the variant bits are `10`.
pub open spec fn is_v4(id: u128) -> bool {
    (id >> 76u128) & 0xfu128 == 4u128 && (id >> 62u128) & 0x3u128 == 2u128
}

/// A random UUID is never the nil UUID.
pub proof fn lemma_v4_not_nil(id: u128)
    requires
        is_v4(id),
    ensures
        id != 0,
{
    assert(((id >> 76u128) & 0xfu128 == 4u128) ==> id != 0u128) by (bit_vector);
}

/// Draws a random version-4 UUID with `uuid::Uuid::new_v4` and hands back its
/// 128 bits (`Uuid::as_u128`). The crate sets the version nibble to 4 and the
/// variant bits to `10` over random bits; which id comes out is not stated.
#[verifier::external_body]
pub(crate) fn new_v4() -> (id: u128)
    ensures
        is_v4(id),
{
    uuid::Uuid::new_v4().as_u128()
}

/// 256 to the power `n`.
pub open spec fn pow256(n: nat) -> int
    decreases n,
{
    if n == 0 {
        1
    } else {
        256 * pow256((n - 1) as nat)
    }
}

/// The sixteen bytes of a UUID, most significant first.
pub open spec fn uuid_bytes(id: u128) -> Seq<u8> {
    Seq::new(16, |i: int| ((id as int / pow256((15 - i) as nat)) % 256) as u8)
}

/// The hyphenated lowercase form `8-4-4-4-12` of a UUID.
pub open spec fn uuid_text(id: u128) -> Seq<char> {
    let h = hex_of(uuid_bytes(id));
    h.subrange(0, 8) + seq!['-'] + h.subrange(8, 12) + seq!['-'] + h.subrange(12, 16) + seq!['-']
        + h.subrange(16, 20) + seq!['-'] + h.subrange(20, 32)
}

/// Renders the UUID with these 128 bits through `Uuid::from_u128` and its
/// `Display`, which the uuid crate documents as the hyphenated lowercase form.
#[verifier::external_body]
pub(crate) fn uuid_to_string(id: u128) -> (s: String)
    ensures
        s@ == uuid_text(id),
{
    uuid::Uuid::from_u128(id).to_string()
}

} // verus!
