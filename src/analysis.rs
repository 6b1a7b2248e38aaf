//! Comparison of a sent and a received byte stream.
use vstd::prelude::*;
use crate::bits::{bit_at, GetBitAt};

verus! {

/// Number of bit positions below `n` on which `a` and `b` differ.
pub open spec fn bits_differing(a: u8, b: u8, n: int) -> nat
    decreases n,
{
    if n <= 0 {
        0
    } else {
        bits_differing(a, b, n - 1) + if bit_at(a, n - 1) != bit_at(b, n - 1) { 1nat } else { 0nat }
    }
}

/// Hamming distance between the first `n` bytes of `l` and of `r`, in bits.
pub open spec fn hamming_upto(l: Seq<u8>, r: Seq<u8>, n: int) -> nat
    decreases n,
{
    if n <= 0 {
        0
    } else {
        hamming_upto(l, r, n - 1) + bits_differing(l[n - 1], r[n - 1], 8)
    }
}

/// Hamming distance between two byte strings of equal length, in bits.
pub open spec fn hamming(l: Seq<u8>, r: Seq<u8>) -> nat {
    hamming_upto(l, r, l.len() as int)
}

/// Number of positions below `n` at which `l` and `r` hold different bytes.
pub open spec fn bytes_differing_upto(l: Seq<u8>, r: Seq<u8>, n: int) -> nat
    decreases n,
{
    if n <= 0 {
        0
    } else {
        bytes_differing_upto(l, r, n - 1) + if l[n - 1] != r[n - 1] { 1nat } else { 0nat }
    }
}

/// Number of positions at which `l` and `r` hold different bytes.
pub open spec fn bytes_differing(l: Seq<u8>, r: Seq<u8>) -> nat {
    bytes_differing_upto(l, r, l.len() as int)
}

proof fn lemma_bits_differing_bound(a: u8, b: u8, n: int)
    requires
        0 <= n,
    ensures
        bits_differing(a, b, n) <= n,
        a == b ==> bits_differing(a, b, n) == 0,
    decreases n,
{
    if n > 0 {
        lemma_bits_differing_bound(a, b, n - 1);
    }
}

proof fn lemma_hamming_bound(l: Seq<u8>, r: Seq<u8>, n: int)
    requires
        0 <= n,
    ensures
        hamming_upto(l, r, n) <= 8 * n,
        bytes_differing_upto(l, r, n) <= n,
    decreases n,
{
    if n > 0 {
        lemma_hamming_bound(l, r, n - 1);
        lemma_bits_differing_bound(l[n - 1], r[n - 1], 8);
    }
}

/// Error counts between a sent and a received byte stream.
///
/// The bit error rate is `num_errs / num_bits`.
#[derive(Debug, PartialEq, Eq)]
pub struct Analysis {
    /// Number of bits that differ.
    pub num_errs: u32,
    /// Number of bytes that differ.
    pub num_block_errs: u32,
    /// Number of bits compared.
    pub num_bits: u64,
}

fn differing_bits(a: u8, b: u8) -> (r: u32)
    ensures
        r == bits_differing(a, b, 8),
{
    let mut count: u32 = 0;
    let mut k: u8 = 0;
    while k < 8
        invariant
            k <= 8,
            count == bits_differing(a, b, k as int),
            count <= k,
        decreases 8 - k,
    {
        if a.get_bit_at(k) != b.get_bit_at(k) {
            count = count + 1;
        }
        k = k + 1;
    }
    count
}

impl Analysis {
    /// Compares `left` with `right` bit by bit and byte by byte.
    pub fn new(left: &[u8], right: &[u8]) -> (a: Analysis)
        requires
            left@.len() == right@.len(),
            8 * left@.len() <= u32::MAX,
        ensures
            a.num_errs == hamming(left@, right@),
            a.num_block_errs == bytes_differing(left@, right@),
            a.num_bits == 8 * left@.len(),
    {
        let mut num_errs: u32 = 0;
        let mut num_block_errs: u32 = 0;
        let mut i: usize = 0;
        while i < left.len()
            invariant
                i <= left@.len(),
                left@.len() == right@.len(),
                8 * left@.len() <= u32::MAX,
                num_errs == hamming_upto(left@, right@, i as int),
                num_block_errs == bytes_differing_upto(left@, right@, i as int),
            decreases left@.len() - i,
        {
            proof {
                lemma_hamming_bound(left@, right@, i as int + 1);
            }
            let d = differing_bits(left[i], right[i]);
            num_errs = num_errs + d;
            if left[i] != right[i] {
                num_block_errs = num_block_errs + 1;
            }
            i = i + 1;
        }
        Analysis { num_errs, num_block_errs, num_bits: 8 * (left.len() as u64) }
    }
}

/// Two identical streams have no bit errors and no byte errors.
pub proof fn lemma_analysis_of_identical(s: Seq<u8>)
    ensures
        hamming(s, s) == 0,
        bytes_differing(s, s) == 0,
{
    lemma_identical_upto(s, s.len() as int);
}

proof fn lemma_identical_upto(s: Seq<u8>, n: int)
    ensures
        hamming_upto(s, s, n) == 0,
        bytes_differing_upto(s, s, n) == 0,
    decreases n,
{
    if n > 0 {
        lemma_identical_upto(s, n - 1);
        lemma_bits_differing_bound(s[n - 1], s[n - 1], 8);
    }
}

} // verus!
