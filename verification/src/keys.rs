use vstd::prelude::*;
use vstd::utf8::is_scalar;

pub mod public;
pub mod secret;

verus! {

/// Largest Unicode code point; every encrypted character value lies in
/// `[0, MAX_CHR]`.
pub const MAX_CHR: i32 = 1114111;

/// Smallest modulus a secret key may carry (inclusive).
pub const MOD_LO: i32 = 11120640;

/// Bound above every modulus a secret key may carry (exclusive).
pub const MOD_HI: i32 = 111206400;

/// Secret-vector entries and public coefficients are drawn from
/// `[-KEY_BOUND, KEY_BOUND)`.
pub const KEY_BOUND: i32 = 4096;

/// A public key holds `ROW_FACTOR * dimension` rows.
pub const ROW_FACTOR: usize = 10;

/// Largest accepted dimension. With coefficients bounded by `KEY_BOUND`,
/// a dot product of a secret vector with arbitrary 32-bit record entries
/// stays below `DIM_MAX * KEY_BOUND * 2^31 < 2^55`, so 64-bit
/// accumulation cannot overflow.
pub const DIM_MAX: usize = 4096;

/// The noise drawn into each public row is bounded by `scale / FUZZ_DIV`.
pub const FUZZ_DIV: i32 = 10;

/// Substituted for a decrypted value that is no Unicode scalar value.
pub const PLACEHOLDER: char = '\u{1F4A9}';

/// Error of key generation.
#[derive(Debug, PartialEq, Eq, Structural)]
pub enum KeyError {
    /// The requested dimension was zero.
    InvalidDimension,
}

/// Error of decryption.
#[derive(Debug, PartialEq, Eq, Structural)]
pub enum DecryptError {
    /// The ciphertext length is not a whole number of records.
    MalformedCiphertext,
}

/// Sum of `a[j] * b[j]` over `j < n`.
pub open spec fn dot_prefix(a: Seq<i32>, b: Seq<i32>, n: int) -> int
    decreases n,
{
    if n <= 0 {
        0
    } else {
        dot_prefix(a, b, n - 1) + a[n - 1] * b[n - 1]
    }
}

/// The dot product is linear in its second argument: if `c` is the
/// element-wise sum of `a` and `b`, the products split.
pub proof fn lemma_dot_prefix_linear(k: Seq<i32>, a: Seq<i32>, b: Seq<i32>, c: Seq<i32>, n: int)
    requires
        forall|j: int| 0 <= j < n ==> c[j] == a[j] + b[j],
    ensures
        dot_prefix(k, c, n) == dot_prefix(k, a, n) + dot_prefix(k, b, n),
    decreases n,
{
    if n > 0 {
        lemma_dot_prefix_linear(k, a, b, c, n - 1);
        assert(k[n - 1] * c[n - 1] == k[n - 1] * a[n - 1] + k[n - 1] * b[n - 1]) by (nonlinear_arith)
            requires c[n - 1] == a[n - 1] + b[n - 1];
    }
}

/// Two sequences that agree below `n` have the same dot product there.
pub proof fn lemma_dot_prefix_agree(k: Seq<i32>, a: Seq<i32>, b: Seq<i32>, n: int)
    requires
        forall|j: int| 0 <= j < n ==> a[j] == b[j],
    ensures
        dot_prefix(k, a, n) == dot_prefix(k, b, n),
    decreases n,
{
    if n > 0 {
        lemma_dot_prefix_agree(k, a, b, n - 1);
    }
}

/// A dot product of `n` terms, each factor bounded in magnitude, is
/// bounded by `n` times the product of the bounds.
pub proof fn lemma_dot_prefix_bound(a: Seq<i32>, b: Seq<i32>, n: int, ba: int, bb: int)
    requires
        0 <= n,
        0 <= ba,
        0 <= bb,
        forall|j: int| 0 <= j < n ==> -ba <= #[trigger] a[j] <= ba,
        forall|j: int| 0 <= j < n ==> -bb <= #[trigger] b[j] <= bb,
    ensures
        -(n * (ba * bb)) <= dot_prefix(a, b, n) <= n * (ba * bb),
    decreases n,
{
    if n > 0 {
        lemma_dot_prefix_bound(a, b, n - 1, ba, bb);
        assert(-(ba * bb) <= a[n - 1] * b[n - 1] <= ba * bb) by (nonlinear_arith)
            requires
                -ba <= a[n - 1] <= ba,
                -bb <= b[n - 1] <= bb,
                0 <= ba,
                0 <= bb,
        ;
        assert((n - 1) * (ba * bb) + ba * bb == n * (ba * bb)) by (nonlinear_arith);
    }
}

/// The value a residual decodes to: `residual / add`, rounded to the
/// nearest integer, halves rounded up.
pub open spec fn decoded_value(residual: int, add: int) -> int {
    (2 * residual + add) / (2 * add)
}

/// The character a decoded value stands for: the Unicode scalar value of
/// that number, or `PLACEHOLDER` where there is none.
pub open spec fn char_of(v: int) -> char {
    if 0 <= v < 0x1_0000_0000 && is_scalar(v as u32) {
        (v as u32) as char
    } else {
        PLACEHOLDER
    }
}

} // verus!
