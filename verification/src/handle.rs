use vstd::prelude::*;

use crate::error::HandleError;

verus! {

/// An opaque token referencing one value stored in one arena.
///
/// A handle is only ever produced by an arena's `insert`; its `version` is
/// always even. It packs into a `u64` with the layout (most significant to
/// least significant): 16-bit magic constant, 16-bit `map_id`, 16-bit `index`,
/// 16-bit `version`. The magic constant's top bit is clear, so the packed
/// value is non-negative when read as a signed 64-bit integer, and the value
/// zero never decodes.
#[derive(Copy, Clone, Debug, PartialEq, Eq, Structural)]
pub struct Handle {
    /// Instance id of the arena that issued this handle.
    pub map_id: u16,
    /// The slot's generation counter at the time of issue (always even).
    pub version: u16,
    /// Index of the slot within the arena.
    pub index: u16,
}

/// Stamped into the top 16 bits of every encoded handle. Its most significant
/// bit is clear, which keeps encoded handles non-negative as signed integers.
pub const HANDLE_MAGIC: u16 = 0x4153;

/// The `u64` a handle packs into: magic, map id, index, version, high to low.
pub open spec fn encoded(h: Handle) -> u64 {
    ((HANDLE_MAGIC as u64) << 48) | ((h.map_id as u64) << 32) | ((h.index as u64) << 16)
        | (h.version as u64)
}

/// Whether `v` is a bit pattern that could be an encoded handle: correct magic
/// in the top 16 bits, and an even version in the low 16 bits.
pub open spec fn valid_bits(v: u64) -> bool {
    (v >> 48) == (HANDLE_MAGIC as u64) && (v & 1) == 0
}

/// The handle whose fields are unpacked from `v`.
pub open spec fn decoded(v: u64) -> Handle {
    Handle { map_id: (v >> 32) as u16, version: v as u16, index: (v >> 16) as u16 }
}

impl Handle {
    /// Pack this handle into a `u64`.
    pub fn into_u64(self) -> (r: u64)
        ensures
            r == encoded(self),
    {
        let magic = HANDLE_MAGIC as u64;
        let map_id = self.map_id as u64;
        let index = self.index as u64;
        let version = self.version as u64;
        (magic << 48) | (map_id << 32) | (index << 16) | version
    }

    /// Whether `v` could be an encoded handle: the magic constant must sit in
    /// the top 16 bits and the version (low 16 bits) must be even, since every
    /// issued handle has an even version.
    pub fn is_valid(v: u64) -> (r: bool)
        ensures
            r == valid_bits(v),
    {
        (v >> 48) == (HANDLE_MAGIC as u64) && (v & 1) == 0
    }

    /// Unpack a `u64` into a handle; inverse of [`Handle::into_u64`].
    ///
    /// Rejects exactly the values whose bit pattern could not have been
    /// produced by encoding an issued handle.
    pub fn from_u64(v: u64) -> (r: Result<Handle, HandleError>)
        ensures
            r is Ok <==> valid_bits(v),
            r matches Ok(h) ==> h == decoded(v) && h.version % 2 == 0,
            r is Err ==> r == Err::<Handle, HandleError>(HandleError::InvalidHandle),
    {
        if !Handle::is_valid(v) {
            Err(HandleError::InvalidHandle)
        } else {
            let map_id = (v >> 32) as u16;
            let index = (v >> 16) as u16;
            let version = v as u16;
            proof {
                lemma_even_version_from_valid_bits(v);
            }
            Ok(Handle { map_id, version, index })
        }
    }
}

/// A valid bit pattern always carries an even version in its low 16 bits.
proof fn lemma_even_version_from_valid_bits(v: u64)
    requires
        valid_bits(v),
    ensures
        (v as u16) % 2 == 0,
{
    assert((v & 1) == 0 ==> (v as u16) % 2 == 0) by (bit_vector);
}

/// Law: decoding inverts encoding for every handle an arena can issue (issued
/// handles always have an even version).
pub proof fn lemma_encode_decode(h: Handle)
    requires
        h.version % 2 == 0,
    ensures
        valid_bits(encoded(h)),
        decoded(encoded(h)) == h,
{
    let m = h.map_id;
    let x = h.index;
    let w = h.version;
    assert(((0x4153u64 << 48) | ((m as u64) << 32) | ((x as u64) << 16) | (w as u64)) >> 48
        == 0x4153u64) by (bit_vector);
    assert(w % 2 == 0 ==> (((0x4153u64 << 48) | ((m as u64) << 32) | ((x as u64) << 16) | (
    w as u64)) & 1) == 0) by (bit_vector);
    assert((((0x4153u64 << 48) | ((m as u64) << 32) | ((x as u64) << 16) | (w as u64)) >> 32)
        as u16 == m) by (bit_vector);
    assert((((0x4153u64 << 48) | ((m as u64) << 32) | ((x as u64) << 16) | (w as u64)) >> 16)
        as u16 == x) by (bit_vector);
    assert(((0x4153u64 << 48) | ((m as u64) << 32) | ((x as u64) << 16) | (w as u64)) as u16
        == w) by (bit_vector);
}

/// Law: an encoded handle, read as a signed 64-bit integer, is non-negative:
/// the magic constant's top bit is clear, so the packed value stays below
/// `1 << 63`.
pub proof fn lemma_encode_non_negative(h: Handle)
    ensures
        encoded(h) < 0x8000_0000_0000_0000u64,
{
    let m = h.map_id;
    let x = h.index;
    let w = h.version;
    assert(((0x4153u64 << 48) | ((m as u64) << 32) | ((x as u64) << 16) | (w as u64))
        < 0x8000_0000_0000_0000u64) by (bit_vector);
}

/// Law: decoding rejects the value zero, any value whose top 16 bits are not
/// the magic constant, and any value whose lowest bit is set.
pub proof fn lemma_decode_rejects(v: u64)
    ensures
        !valid_bits(0u64),
        (v >> 48) != (HANDLE_MAGIC as u64) ==> !valid_bits(v),
        (v & 1) == 1 ==> !valid_bits(v),
{
    assert(0u64 >> 48 != 0x4153u64) by (bit_vector);
}

} // verus!
