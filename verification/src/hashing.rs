//! Content hashing of encoded values: a 32-bit hash for hash indexes and a
//! seeded 64-bit variant, both stable functions of the content bytes past the
//! version header.

use vstd::prelude::*;
use std::collections::hash_map::DefaultHasher;
use std::hash::Hasher;
use vstd::std_specs::hash::DefaultHasherAdditionalSpecFns;
use crate::model::enc;
use crate::sexp::Sexp;

verus! {

/// The low 32 bits of a 64-bit hash, reinterpreted as a signed value.
pub open spec fn wrap_u64_to_i32(h: u64) -> i32 {
    let low = h % 0x1_0000_0000;
    if low <= i32::MAX {
        low as i32
    } else {
        (low - 0x1_0000_0000) as i32
    }
}

/// A 64-bit hash reinterpreted as a signed value.
pub open spec fn wrap_u64_to_i64(h: u64) -> i64 {
    if h <= i64::MAX {
        h as i64
    } else {
        ((h as int) - 0x1_0000_0000_0000_0000) as i64
    }
}

/// The little-endian bytes of the two's-complement representation of `v`.
pub open spec fn le_bytes_of_i64(v: i64) -> Seq<u8> {
    let u: u64 = if v >= 0 {
        v as u64
    } else {
        ((v as int) + 0x1_0000_0000_0000_0000) as u64
    };
    le_bytes_of_u64(u)
}

/// The 8 little-endian bytes of `u`.
pub open spec fn le_bytes_of_u64(u: u64) -> Seq<u8> {
    seq![
        (u % 0x100) as u8,
        ((u / 0x100) % 0x100) as u8,
        ((u / 0x1_0000) % 0x100) as u8,
        ((u / 0x100_0000) % 0x100) as u8,
        ((u / 0x1_0000_0000) % 0x100) as u8,
        ((u / 0x100_0000_0000) % 0x100) as u8,
        ((u / 0x1_0000_0000_0000) % 0x100) as u8,
        ((u / 0x100_0000_0000_0000) % 0x100) as u8,
    ]
}

/// The 64-bit content hash of one write of `content` to a fresh hasher.
pub open spec fn spec_hash64(content: Seq<u8>) -> u64 {
    DefaultHasher::spec_finish(seq![content])
}

/// The 64-bit hash of a seed followed by `content`.
pub open spec fn spec_hash64_seeded(seed: i64, content: Seq<u8>) -> u64 {
    DefaultHasher::spec_finish(seq![le_bytes_of_i64(seed), content])
}

/// The 32-bit hash backing the hash operator class.
pub open spec fn spec_sexp_hash(v: crate::model::Val) -> i32 {
    wrap_u64_to_i32(spec_hash64(enc(v)))
}

/// The little-endian bytes of `u`, as a buffer.
pub(crate) fn u64_le_bytes(u: u64) -> (r: Vec<u8>)
    ensures
        r@ == le_bytes_of_u64(u),
{
    let mut out: Vec<u8> = Vec::new();
    out.push((u % 0x100) as u8);
    out.push(((u / 0x100) % 0x100) as u8);
    out.push(((u / 0x1_0000) % 0x100) as u8);
    out.push(((u / 0x100_0000) % 0x100) as u8);
    out.push(((u / 0x1_0000_0000) % 0x100) as u8);
    out.push(((u / 0x100_0000_0000) % 0x100) as u8);
    out.push(((u / 0x1_0000_0000_0000) % 0x100) as u8);
    out.push(((u / 0x100_0000_0000_0000) % 0x100) as u8);
    proof {
        assert(out@ =~= le_bytes_of_u64(u));
    }
    out
}

/// The two's-complement bit pattern of a signed value, so that its
/// little-endian bytes can be produced by [`u64_le_bytes`].
pub(crate) fn i64_bits(v: i64) -> (r: u64)
    ensures
        le_bytes_of_i64(v) == le_bytes_of_u64(r),
{
    if v >= 0 {
        v as u64
    } else {
        let m: u64 = (-(v + 1)) as u64;
        u64::MAX - m
    }
}

/// Hashes one byte buffer with a fresh hasher.
pub(crate) fn hash64_of(content: &Vec<u8>) -> (r: u64)
    ensures
        r == spec_hash64(content@),
{
    let mut hasher = DefaultHasher::new();
    hasher.write(content.as_slice());
    proof {
        assert(hasher@ =~= seq![content@]);
    }
    hasher.finish()
}

/// Reinterprets the low 32 bits of a hash as a signed value.
pub(crate) fn low32_as_i32(h: u64) -> (r: i32)
    ensures
        r == wrap_u64_to_i32(h),
{
    let low: u64 = h % 0x1_0000_0000;
    if low <= 0x7FFF_FFFF {
        low as i32
    } else {
        let wide: i64 = (low as i64) - 0x1_0000_0000;
        wide as i32
    }
}

impl Sexp {
    /// A 32-bit hash of the content bytes past the version header: stable
    /// across runs, equal for equal values.
    pub fn compute_hash(&self) -> (r: i32)
        requires
            self.wf(),
        ensures
            r == spec_sexp_hash(self@),
    {
        let content = self.content_bytes();
        let h = hash64_of(&content);
        low32_as_i32(h)
    }
}

/// A seeded 64-bit hash of a value: the seed's little-endian bytes are hashed
/// ahead of the content bytes.
pub fn sexp_hash_extended(sexp: &Sexp, seed: i64) -> (r: i64)
    requires
        sexp.wf(),
    ensures
        r == wrap_u64_to_i64(spec_hash64_seeded(seed, enc(sexp@))),
{
    let ubits = i64_bits(seed);
    let seed_bytes = u64_le_bytes(ubits);
    let content = sexp.content_bytes();
    let mut hasher = DefaultHasher::new();
    hasher.write(seed_bytes.as_slice());
    hasher.write(content.as_slice());
    proof {
        assert(hasher@ =~= seq![le_bytes_of_i64(seed), enc(sexp@)]);
    }
    let h = hasher.finish();
    if h <= 0x7FFF_FFFF_FFFF_FFFF {
        h as i64
    } else {
        let d: u64 = u64::MAX - h;
        -(d as i64) - 1
    }
}

} // verus!
