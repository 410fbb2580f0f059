use vstd::prelude::*;

verus! {

/// The key of a shred's `(slot, index, kind)`: the slot above bit 40, the
/// index in bits 8 to 39, the kind in the low byte.
pub open spec fn pack(slot: u64, index: u32, kind: u8) -> u128 {
    ((slot as u128) << 40u128) | ((index as u128) << 8u128) | (kind as u128)
}

/// An opaque identifier for one packet of the stream.
///
/// The engine only compares identifiers for equality; `raw` is the value that
/// the pending maps are keyed by.
#[derive(Clone, Copy, Debug, PartialEq, Eq, Structural, Hash)]
pub struct PacketId {
    pub raw: u128,
}

impl PacketId {
    /// Wraps an already computed key.
    pub fn from_raw(raw: u128) -> (r: PacketId)
        ensures
            r.raw == raw,
    {
        PacketId { raw }
    }
}

impl PacketId {
    /// The identifier of the shred at `index` of `slot`, of kind `kind`.
    pub fn from_shred_parts(slot: u64, index: u32, kind: u8) -> (r: PacketId)
        ensures
            r.raw == pack(slot, index, kind),
    {
        PacketId { raw: ((slot as u128) << 40u128) | ((index as u128) << 8u128) | (kind as u128) }
    }
}

/// Two shreds get the same identifier only if slot, index and kind agree.
pub proof fn lemma_pack_injective(s1: u64, i1: u32, k1: u8, s2: u64, i2: u32, k2: u8)
    ensures
        pack(s1, i1, k1) == pack(s2, i2, k2) ==> s1 == s2 && i1 == i2 && k1 == k2,
{
    let (a, b, c) = (s1 as u128, i1 as u128, k1 as u128);
    let (d, e, f) = (s2 as u128, i2 as u128, k2 as u128);
    assert(a < 0x1_0000_0000_0000_0000u128 && b < 0x1_0000_0000u128 && c < 0x100u128);
    assert(d < 0x1_0000_0000_0000_0000u128 && e < 0x1_0000_0000u128 && f < 0x100u128);
    assert((a << 40u128) | (b << 8u128) | c == (d << 40u128) | (e << 8u128) | f ==> a == d && b
        == e && c == f) by (bit_vector)
        requires
            a < 0x1_0000_0000_0000_0000u128 && b < 0x1_0000_0000u128 && c < 0x100u128,
            d < 0x1_0000_0000_0000_0000u128 && e < 0x1_0000_0000u128 && f < 0x100u128,
    ;
}

} // verus!
