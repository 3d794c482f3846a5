//! FNV-1a 64-bit hashing and fixed-width hexadecimal rendering, used for content-addressed
//! config and corpus identifiers.

use vstd::prelude::*;
use vstd::string::*;
use crate::framework::text::{hex_char, hex_digit_str};

verus! {

/// The FNV-1a 64-bit offset basis.
pub const FNV_OFFSET_BASIS: u64 = 0xcbf29ce484222325;

/// The FNV-1a 64-bit prime.
pub const FNV_PRIME: u64 = 0x100000001b3;

/// FNV-1a over the first `n` bytes: start from the offset basis, and for each byte xor it in
/// and multiply by the prime modulo `2^64`.
pub open spec fn fnv_prefix(bytes: Seq<u8>, n: int) -> u64
    decreases n,
{
    if n <= 0 {
        FNV_OFFSET_BASIS
    } else {
        vstd::wrapping::u64_specs::wrapping_mul(
            fnv_prefix(bytes, n - 1) ^ (bytes[n - 1] as u64),
            FNV_PRIME,
        )
    }
}

/// The FNV-1a 64-bit hash of `bytes`.
pub open spec fn spec_fnv1a64(bytes: Seq<u8>) -> u64 {
    fnv_prefix(bytes, bytes.len() as int)
}

/// Computes the FNV-1a 64-bit hash of `bytes`.
pub fn fnv1a64(bytes: &[u8]) -> (h: u64)
    ensures
        h == spec_fnv1a64(bytes@),
{
    let mut h: u64 = FNV_OFFSET_BASIS;
    let mut i: usize = 0;
    while i < bytes.len()
        invariant
            i <= bytes@.len(),
            h == fnv_prefix(bytes@, i as int),
        decreases bytes@.len() - i,
    {
        h = (h ^ (bytes[i] as u64)).wrapping_mul(FNV_PRIME);
        i = i + 1;
    }
    h
}

/// The last `k` hexadecimal digits of `x`, most significant first, padded with zeros.
pub open spec fn hex_fixed(x: nat, k: nat) -> Seq<char>
    decreases k,
{
    if k == 0 {
        seq![]
    } else {
        hex_fixed(x / 16, (k - 1) as nat) + seq![hex_char((x % 16) as int)]
    }
}

/// The last `k` hexadecimal digits of `x`, most significant first.
fn hex_fixed_string(x: u64, k: usize) -> (s: String)
    ensures
        s@ == hex_fixed(x as nat, k as nat),
    decreases k,
{
    if k == 0 {
        String::new()
    } else {
        let mut s = hex_fixed_string(x / 16, k - 1);
        s.append(hex_digit_str(x % 16));
        s
    }
}

/// Formats `x` as a zero-padded 16-digit lowercase hex string.
pub fn hex16(x: u64) -> (s: String)
    ensures
        s@ == hex_fixed(x as nat, 16),
        s@.len() == 16,
{
    let s = hex_fixed_string(x, 16);
    proof {
        lemma_hex_fixed_len(x as nat, 16);
    }
    s
}

/// A fixed-width rendering has exactly `k` characters.
pub proof fn lemma_hex_fixed_len(x: nat, k: nat)
    ensures
        hex_fixed(x, k).len() == k,
    decreases k,
{
    if k > 0 {
        lemma_hex_fixed_len(x / 16, (k - 1) as nat);
    }
}

/// The hex digest of `bytes`: `hex16(fnv1a64(bytes))`.
pub fn content_hash(bytes: &[u8]) -> (s: String)
    ensures
        s@ == hex_fixed(spec_fnv1a64(bytes@) as nat, 16),
{
    hex16(fnv1a64(bytes))
}

} // verus!
