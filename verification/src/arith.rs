use vstd::prelude::*;

verus! {

/// Canonical non-negative remainder: folds any signed value into `[0, modulo)`,
/// also for negative inputs, where Rust's truncating `%` alone would not.
pub fn reduce(value: i64, modulo: i64) -> (r: i64)
    requires
        1 <= modulo,
    ensures
        0 <= r < modulo,
        r == value as int % modulo as int,
{
    value.checked_rem_euclid(modulo).unwrap()
}

/// Quotient of two non-negative integers (Euclidean, equal to Rust's
/// truncating division on this domain).
pub fn div_pos(a: i64, b: i64) -> (r: i64)
    requires
        0 <= a,
        1 <= b,
    ensures
        r == a as int / b as int,
{
    let q: u64 = (a as u64) / (b as u64);
    q as i64
}

} // verus!
