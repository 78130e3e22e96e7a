use vstd::prelude::*;

use vstd::arithmetic::div_mod::{
    lemma_div_multiples_vanish, lemma_fundamental_div_mod, lemma_fundamental_div_mod_converse,
};
use vstd::slice::slice_index_get;

verus! {

/// The 32-bit value the four bytes spell in little-endian order.
pub open spec fn le_u32(b0: u8, b1: u8, b2: u8, b3: u8) -> u32 {
    (b0 as u32) | ((b1 as u32) << 8u32) | ((b2 as u32) << 16u32) | ((b3 as u32) << 24u32)
}

/// The `k`-th signed 32-bit integer held in the byte sequence,
/// little-endian.
pub open spec fn int_at(b: Seq<u8>, k: int) -> i32 {
    le_u32(b[4 * k], b[4 * k + 1], b[4 * k + 2], b[4 * k + 3]) as i32
}

/// The signed 32-bit integers a byte sequence holds, little-endian;
/// trailing bytes beyond the last whole group of four carry nothing.
pub open spec fn ints_of_bytes(b: Seq<u8>) -> Seq<i32> {
    Seq::new((b.len() / 4) as nat, |k: int| int_at(b, k))
}

/// Byte `k` (0 to 3) of the little-endian encoding of the value.
pub open spec fn byte_of(v: i32, k: int) -> u8 {
    (((v as u32) >> ((8 * k) as u32)) as u8)
}

/// The little-endian encoding of a sequence of signed 32-bit integers.
pub open spec fn bytes_of_ints(s: Seq<i32>) -> Seq<u8> {
    Seq::new(4 * s.len(), |k: int| byte_of(s[k / 4], k % 4))
}

/// Reassembling the four little-endian bytes of a value gives the value
/// back.
pub proof fn lemma_bytes_reassemble(v: i32)
    ensures
        le_u32(byte_of(v, 0), byte_of(v, 1), byte_of(v, 2), byte_of(v, 3)) as i32 == v,
{
    let u = v as u32;
    assert({
        let r0 = (u >> 0u32) as u8;
        let r1 = (u >> 8u32) as u8;
        let r2 = (u >> 16u32) as u8;
        let r3 = (u >> 24u32) as u8;
        let w = (r0 as u32) | ((r1 as u32) << 8u32) | ((r2 as u32) << 16u32) | ((r3 as u32)
            << 24u32);
        w == u
    }) by (bit_vector);
    assert((v as u32) as i32 == v) by (bit_vector);
}

/// Decoding the little-endian encoding of a sequence of integers gives
/// the sequence back.
pub proof fn lemma_codec_roundtrip(s: Seq<i32>)
    ensures
        ints_of_bytes(bytes_of_ints(s)) == s,
{
    let b = bytes_of_ints(s);
    assert(b.len() == 4 * s.len());
    lemma_div_multiples_vanish(s.len() as int, 4);
    assert(b.len() as int / 4 == s.len());
    assert forall|k: int| 0 <= k < s.len() implies int_at(b, k) == s[k] by {
        lemma_fundamental_div_mod_converse(4 * k, 4, k, 0);
        lemma_fundamental_div_mod_converse(4 * k + 1, 4, k, 1);
        lemma_fundamental_div_mod_converse(4 * k + 2, 4, k, 2);
        lemma_fundamental_div_mod_converse(4 * k + 3, 4, k, 3);
        assert(b[4 * k] == byte_of(s[k], 0));
        assert(b[4 * k + 1] == byte_of(s[k], 1));
        assert(b[4 * k + 2] == byte_of(s[k], 2));
        assert(b[4 * k + 3] == byte_of(s[k], 3));
        lemma_bytes_reassemble(s[k]);
    }
    assert(ints_of_bytes(b) =~= s);
}

/// Serialize integers to bytes, little-endian, four bytes per value.
pub fn ints_to_bytes(v: &Vec<i32>) -> (r: Vec<u8>)
    requires
        4 * v@.len() <= usize::MAX,
    ensures
        r@ == bytes_of_ints(v@),
{
    let mut r: Vec<u8> = Vec::new();
    let mut i: usize = 0;
    while i < v.len()
        invariant
            i <= v@.len(),
            4 * v@.len() <= usize::MAX,
            r@.len() == 4 * i,
            forall|k: int| 0 <= k < 4 * i ==> r@[k] == byte_of(v@[k / 4], k % 4),
        decreases v@.len() - i,
    {
        let u: u32 = #[verifier::truncate] (v[i] as u32);
        r.push(#[verifier::truncate] ((u >> 0u32) as u8));
        r.push(#[verifier::truncate] ((u >> 8u32) as u8));
        r.push(#[verifier::truncate] ((u >> 16u32) as u8));
        r.push(#[verifier::truncate] ((u >> 24u32) as u8));
        proof {
            lemma_fundamental_div_mod_converse(4 * i, 4, i as int, 0);
            lemma_fundamental_div_mod_converse(4 * i + 1, 4, i as int, 1);
            lemma_fundamental_div_mod_converse(4 * i + 2, 4, i as int, 2);
            lemma_fundamental_div_mod_converse(4 * i + 3, 4, i as int, 3);
        }
        i = i + 1;
    }
    proof {
        assert(r@ =~= bytes_of_ints(v@));
    }
    r
}

/// Parse bytes as integers, little-endian, four bytes per value; trailing
/// bytes beyond the last whole group of four are dropped.
pub fn bytes_to_ints(b: &[u8]) -> (r: Vec<i32>)
    ensures
        r@ == ints_of_bytes(b@),
{
    let n = b.len() / 4;
    proof {
        lemma_fundamental_div_mod(b@.len() as int, 4);
    }
    let mut r: Vec<i32> = Vec::new();
    let mut k: usize = 0;
    while k < n
        invariant
            k <= n,
            n == b@.len() / 4,
            4 * n <= b@.len() <= usize::MAX,
            r@.len() == k,
            forall|t: int| 0 <= t < k ==> r@[t] == int_at(b@, t),
        decreases n - k,
    {
        let base = 4 * k;
        let b0 = *slice_index_get(b, base);
        let b1 = *slice_index_get(b, base + 1);
        let b2 = *slice_index_get(b, base + 2);
        let b3 = *slice_index_get(b, base + 3);
        let u: u32 = (b0 as u32) | ((b1 as u32) << 8u32) | ((b2 as u32) << 16u32) | ((b3 as u32)
            << 24u32);
        r.push(#[verifier::truncate] (u as i32));
        k = k + 1;
    }
    proof {
        assert(r@ =~= ints_of_bytes(b@));
    }
    r
}

} // verus!
