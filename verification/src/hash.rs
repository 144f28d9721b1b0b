//! The call-site hash: a DJB2 variant over the bytes of a location string,
//! reduced to a slot of the anchor table.

use vstd::prelude::*;
use vstd::string::StringSliceAdditionalSpecFns;

verus! {

/// Number of slots in the anchor table.
pub const ARRAY_LEN: usize = 0xFFF;

/// Two to the power 32, the modulus of the running hash.
pub open spec fn hash_modulus() -> int {
    0x1_0000_0000
}

/// The running hash after all of `bytes`: start at 5381, and for each byte
/// multiply by 33 and add the byte, modulo 2^32.
pub open spec fn djb2(bytes: Seq<u8>) -> int
    decreases bytes.len(),
{
    if bytes.len() == 0 {
        5381
    } else {
        (djb2(bytes.drop_last()) * 33 + bytes.last() as int) % hash_modulus()
    }
}

/// The table slot for a 32-bit hash: its low 12 bits, with the one value that
/// falls outside the table moved to the last slot.
pub open spec fn slot_of(hash: u32) -> int {
    if hash & 0xFFF == 0xFFF {
        0xFFE
    } else {
        (hash & 0xFFF) as int
    }
}

/// The slot that a location string with the given bytes is assigned.
pub open spec fn hash_slot(bytes: Seq<u8>) -> int {
    slot_of(djb2(bytes) as u32)
}

/// Hashes the bytes of a location string to a 32-bit value.
pub fn hash_bytes(bytes: &[u8]) -> (hash: u32)
    ensures
        hash as int == djb2(bytes@),
{
    let mut hash: u32 = 5381;
    let mut i: usize = 0;
    while i < bytes.len()
        invariant
            i <= bytes.len(),
            hash as int == djb2(bytes@.take(i as int)),
        decreases bytes.len() - i,
    {
        proof {
            assert(bytes@.take(i + 1).drop_last() =~= bytes@.take(i as int));
        }
        hash = hash.wrapping_mul(33).wrapping_add(bytes[i] as u32);
        i += 1;
    }
    proof {
        assert(bytes@.take(i as int) =~= bytes@);
    }
    hash
}

/// Assigns a location string its slot of the anchor table. The result is
/// always a valid index.
#[must_use]
pub fn __peach_hash(s: &str) -> (index: usize)
    ensures
        index as int == hash_slot(s.spec_bytes()),
        index < ARRAY_LEN,
{
    let hash = hash_bytes(s.as_bytes());
    let masked: u32 = hash & 0xFFF;
    proof {
        assert(hash & 0xFFF <= 0xFFF) by (bit_vector);
    }
    if masked == 0xFFF {
        0xFFE
    } else {
        masked as usize
    }
}

} // verus!
