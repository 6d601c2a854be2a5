//! The FNV-1a hash, 32 bits wide.

use vstd::prelude::*;

verus! {

/// What the hash starts from.
pub const FNV_START: u32 = 2_166_136_261;

/// One byte hashed in.
pub open spec fn fnv_step(h: u32, b: u8) -> u32 {
    (h ^ (b as u32)).wrapping_mul(16_777_619u32)
}

/// Bytes hashed in, one after another.
pub open spec fn fnv_of(bytes: Seq<u8>) -> u32
    decreases bytes.len(),
{
    if bytes.len() == 0 {
        FNV_START
    } else {
        fnv_step(fnv_of(bytes.drop_last()), bytes.last())
    }
}

/// The hash of a run of bytes.
pub fn fnv_bytes(bytes: &[u8]) -> (r: u32)
    ensures
        r == fnv_of(bytes@),
{
    let mut h: u32 = FNV_START;
    let mut i: usize = 0;
    while i < bytes.len()
        invariant
            i <= bytes@.len(),
            h == fnv_of(bytes@.take(i as int)),
        decreases bytes@.len() - i,
    {
        assert(bytes@.take(i + 1).drop_last() =~= bytes@.take(i as int));
        h = (h ^ (bytes[i] as u32)).wrapping_mul(16_777_619u32);
        i += 1;
    }
    assert(bytes@.take(i as int) =~= bytes@);
    h
}

} // verus!
