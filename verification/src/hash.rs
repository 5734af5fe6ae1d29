//! The non-cryptographic digest used for blob addressing and body-equality
//! checks, with its hexadecimal rendering.

use vstd::prelude::*;

verus! {

/// The 64-bit FNV-1a offset basis.
pub const FNV_OFFSET: u64 = 0xcbf29ce484222325;

/// The 64-bit FNV-1a prime.
pub const FNV_PRIME: u64 = 0x100000001b3;

/// One FNV-1a round: fold a byte into the running digest.
pub open spec fn fnv64_step(h: u64, b: u8) -> u64 {
    vstd::wrapping::u64_specs::wrapping_mul(h ^ (b as u64), FNV_PRIME)
}

/// The FNV-1a digest of a byte sequence.
pub open spec fn fnv64(s: Seq<u8>) -> u64
    decreases s.len(),
{
    if s.len() == 0 {
        FNV_OFFSET
    } else {
        fnv64_step(fnv64(s.drop_last()), s.last())
    }
}

/// Digest of a byte slice; the same bytes always give the same digest.
pub fn hash_bytes(bytes: &[u8]) -> (r: u64)
    ensures
        r == fnv64(bytes@),
{
    let mut h: u64 = FNV_OFFSET;
    let mut i: usize = 0;
    while i < bytes.len()
        invariant
            i <= bytes@.len(),
            h == fnv64(bytes@.take(i as int)),
        decreases bytes@.len() - i,
    {
        proof {
            assert(bytes@.take(i + 1).drop_last() =~= bytes@.take(i as int));
            assert(bytes@.take(i + 1).last() == bytes@[i as int]);
        }
        h = (h ^ (bytes[i] as u64)).wrapping_mul(FNV_PRIME);
        i = i + 1;
    }
    proof {
        assert(bytes@.take(bytes@.len() as int) =~= bytes@);
    }
    h
}

/// The lower-case hexadecimal digit for a value below 16.
pub open spec fn hex_digit(v: u8) -> u8 {
    if v < 10 {
        (0x30 + v) as u8
    } else {
        (0x61 + (v - 10)) as u8
    }
}

/// The 16-digit lower-case hexadecimal rendering of a 64-bit value,
/// most significant digit first.
pub open spec fn hex64(h: u64) -> Seq<u8> {
    Seq::new(16, |i: int| hex_digit(((h >> ((15 - i) * 4)) & 0xf) as u8))
}

/// Render a digest as 16 lower-case hexadecimal digits.
pub fn hash_hex(h: u64) -> (r: Vec<u8>)
    ensures
        r@ == hex64(h),
{
    let mut out: Vec<u8> = Vec::new();
    let mut i: usize = 0;
    while i < 16
        invariant
            i <= 16,
            out@.len() == i,
            forall|j: int| 0 <= j < i ==> out@[j] == hex64(h)[j],
        decreases 16 - i,
    {
        let shift: u64 = (15 - i as u64) * 4;
        let nib: u8 = ((h >> shift) & 0xf) as u8;
        proof {
            assert((h >> shift) & 0xf < 16) by (bit_vector);
        }
        let d: u8 = if nib < 10 {
            0x30 + nib
        } else {
            0x61 + (nib - 10)
        };
        out.push(d);
        i = i + 1;
    }
    proof {
        assert(out@ =~= hex64(h));
    }
    out
}

} // verus!
