use vstd::prelude::*;

use vstd::arithmetic::div_mod::{
    lemma_add_mod_noop, lemma_div_is_ordered, lemma_div_multiples_vanish,
    lemma_div_multiples_vanish_fancy, lemma_div_pos_is_pos, lemma_fundamental_div_mod,
    lemma_mod_twice, lemma_multiply_divide_lt, lemma_small_mod, lemma_sub_mod_noop,
};
use vstd::arithmetic::mul::lemma_mul_inequality;
use vstd::slice::{slice_index_get, slice_subrange};
use vstd::utf8::{char_is_scalar, char_u32_cast};

use crate::arith::{div_pos, reduce};
use crate::codec::{bytes_to_ints, ints_of_bytes};
use crate::keys::public::{row_eq, row_of, row_ok, Public};
use crate::keys::{
    char_of, decoded_value, dot_prefix, lemma_dot_prefix_agree, lemma_dot_prefix_bound,
    lemma_dot_prefix_linear, DecryptError, KeyError, DIM_MAX, FUZZ_DIV, KEY_BOUND, MAX_CHR,
    MOD_HI, MOD_LO, PLACEHOLDER, ROW_FACTOR,
};
use crate::random::{fresh_rng, random_in};
use crate::text::{char_from_u32, push_char};

verus! {

/// A secret key: the vector that can cancel the linear part of a record,
/// with the modulus all arithmetic is folded into and the scale with
/// which a character value is embedded.
#[derive(Debug)]
pub struct Secret {
    /// The secret vector; its length is the dimension.
    pub key: Vec<i32>,
    /// The arithmetic field size.
    pub modulo: i32,
    /// The scale: `modulo / MAX_CHR`.
    pub add: i32,
}

impl Secret {
    /// The dimension: the length of the secret vector.
    pub open spec fn dim(self) -> int {
        self.key@.len() as int
    }

    /// Well-formedness: bounded dimension, modulus in its fixed range,
    /// the scale derived from the modulus, every entry bounded.
    pub open spec fn wf(self) -> bool {
        &&& 1 <= self.key@.len() <= DIM_MAX
        &&& MOD_LO <= self.modulo < MOD_HI
        &&& self.add == self.modulo as int / MAX_CHR as int
        &&& forall|j: int|
            0 <= j < self.key@.len() ==> -(KEY_BOUND as int) <= #[trigger] self.key@[j] < KEY_BOUND as int
    }

    /// Generate a fresh secret key of the given dimension: a modulus drawn
    /// from `[MOD_LO, MOD_HI)`, the scale derived from it, and `dimension`
    /// vector entries drawn from `[-KEY_BOUND, KEY_BOUND)`.
    ///
    /// A dimension of zero is degenerate and rejected.
    pub fn new(dimension: usize) -> (r: Result<Secret, KeyError>)
        requires
            dimension <= DIM_MAX,
        ensures
            r is Err <==> dimension == 0,
            r is Err ==> r->Err_0 == KeyError::InvalidDimension,
            r is Ok ==> r->Ok_0.wf() && r->Ok_0.key@.len() == dimension,
    {
        if dimension == 0 {
            return Err(KeyError::InvalidDimension);
        }
        let mut rng = fresh_rng();
        let modulo_wide = random_in(&mut rng, MOD_LO as i64, MOD_HI as i64);
        let modulo: i32 = modulo_wide as i32;
        let add: i32 = div_pos(modulo as i64, MAX_CHR as i64) as i32;
        assert(MOD_LO as int / MAX_CHR as int <= modulo as int / MAX_CHR as int
            <= (MOD_HI - 1) as int / MAX_CHR as int) by {
            vstd::arithmetic::div_mod::lemma_div_is_ordered(
                MOD_LO as int,
                modulo as int,
                MAX_CHR as int,
            );
            vstd::arithmetic::div_mod::lemma_div_is_ordered(
                modulo as int,
                (MOD_HI - 1) as int,
                MAX_CHR as int,
            );
        }
        let mut key: Vec<i32> = Vec::new();
        let mut i: usize = 0;
        while i < dimension
            invariant
                i <= dimension,
                key@.len() == i,
                forall|j: int| 0 <= j < i ==> -(KEY_BOUND as int) <= #[trigger] key@[j] < KEY_BOUND as int,
            decreases dimension - i,
        {
            let entry = random_in(&mut rng, -(KEY_BOUND as i64), KEY_BOUND as i64);
            key.push(entry as i32);
            i = i + 1;
        }
        Ok(Secret { key, modulo, add })
    }

    /// Derive the public key: `ROW_FACTOR * dim` rows, each holding `dim`
    /// coefficients drawn from `[-KEY_BOUND, KEY_BOUND)` and a target that
    /// is the reduced dot product of the coefficients with the secret
    /// vector, perturbed by a noise term bounded by `add / FUZZ_DIV`.
    pub fn generate_public_key(&self) -> (p: Public)
        requires
            self.wf(),
        ensures
            p.wf(),
            p.derived_from(*self),
    {
        let dim = self.key.len();
        let width = dim + 1;
        let rows = ROW_FACTOR * dim;
        proof {
            lemma_scale_bounds(*self);
            lemma_div_is_ordered(0, self.add as int, FUZZ_DIV as int);
            lemma_div_is_ordered(self.add as int, 99, FUZZ_DIV as int);
        }
        let max_fuzz = div_pos(self.add as i64, FUZZ_DIV as i64);
        let mut rng = fresh_rng();
        let mut key: Vec<i32> = Vec::new();
        let mut i: usize = 0;
        while i < rows
            invariant
                self.wf(),
                dim == self.key@.len(),
                width == dim + 1,
                rows == ROW_FACTOR * dim,
                0 <= max_fuzz <= 9,
                max_fuzz == self.add as int / FUZZ_DIV as int,
                i <= rows,
                key@.len() == i * width,
                forall|t: int|
                    0 <= t < i ==> row_ok(
                        #[trigger] row_of(key@, width as int, t),
                        dim as int,
                        self.modulo as int,
                    ),
                forall|t: int|
                    0 <= t < i ==> row_eq(
                        #[trigger] row_of(key@, width as int, t),
                        self.key@,
                        dim as int,
                        self.modulo as int,
                        max_fuzz as int,
                    ),
            decreases rows - i,
        {
            let ghost key0 = key@;
            let mut row: Vec<i32> = Vec::new();
            let mut acc: i64 = 0;
            let mut j: usize = 0;
            while j < dim
                invariant
                    self.wf(),
                    dim == self.key@.len(),
                    j <= dim,
                    row@.len() == j,
                    forall|t: int|
                        0 <= t < j ==> -(KEY_BOUND as int) <= #[trigger] row@[t] < KEY_BOUND as int,
                    acc == dot_prefix(self.key@, row@, j as int),
                decreases dim - j,
            {
                let c64 = random_in(&mut rng, -(KEY_BOUND as i64), KEY_BOUND as i64);
                let c = c64 as i32;
                proof {
                    lemma_dot_prefix_bound(
                        self.key@,
                        row@,
                        j as int,
                        KEY_BOUND as int,
                        KEY_BOUND as int,
                    );
                    lemma_mul_inequality(
                        j as int,
                        DIM_MAX as int,
                        (KEY_BOUND as int) * (KEY_BOUND as int),
                    );
                    assert(-(KEY_BOUND as int) * (KEY_BOUND as int) <= (self.key@[j as int] as int)
                        * (c as int) <= (KEY_BOUND as int) * (KEY_BOUND as int))
                        by (nonlinear_arith)
                        requires
                            -(KEY_BOUND as int) <= self.key@[j as int] <= KEY_BOUND as int,
                            -(KEY_BOUND as int) <= c as int <= KEY_BOUND as int,
                    ;
                }
                let ghost row0 = row@;
                let prod = (self.key[j] as i64) * (c as i64);
                acc = acc + prod;
                row.push(c);
                proof {
                    lemma_dot_prefix_agree(self.key@, row0, row@, j as int);
                }
                j = j + 1;
            }
            let fuzz: i64 = if max_fuzz > 0 {
                random_in(&mut rng, -max_fuzz, max_fuzz)
            } else {
                0
            };
            proof {
                lemma_dot_prefix_bound(
                    self.key@,
                    row@,
                    dim as int,
                    KEY_BOUND as int,
                    KEY_BOUND as int,
                );
                lemma_mul_inequality(
                    dim as int,
                    DIM_MAX as int,
                    (KEY_BOUND as int) * (KEY_BOUND as int),
                );
            }
            let target_w = reduce(acc + fuzz, self.modulo as i64);
            let target = target_w as i32;
            let ghost rowc = row@;
            row.push(target);
            proof {
                lemma_dot_prefix_agree(self.key@, rowc, row@, dim as int);
            }
            let ghost rowfull = row@;
            key.append(&mut row);
            proof {
                assert(key@.len() == (i + 1) * width) by (nonlinear_arith)
                    requires
                        key@.len() == key0.len() + rowfull.len(),
                        key0.len() == i * width,
                        rowfull.len() == width as int,
                ;
                assert(0 <= (i as int) * (width as int)) by (nonlinear_arith)
                    requires
                        0 <= i as int,
                        0 < width as int,
                ;
                assert(row_of(key@, width as int, i as int) =~= rowfull);
                assert forall|t: int| 0 <= t < i implies row_of(key@, width as int, t) =~= row_of(
                    key0,
                    width as int,
                    t,
                ) by {
                    assert(0 <= t * width) by (nonlinear_arith)
                        requires
                            0 <= t,
                            0 < width as int,
                    ;
                    lemma_mul_inequality(t + 1, i as int, width as int);
                    assert((t + 1) * (width as int) == t * (width as int) + width as int)
                        by (nonlinear_arith);
                }
                assert(rowfull[dim as int] == (dot_prefix(self.key@, rowfull, dim as int)
                    + fuzz as int) % (self.modulo as int));
                assert(row_ok(rowfull, dim as int, self.modulo as int));
                assert(row_eq(
                    row_of(key@, width as int, i as int),
                    self.key@,
                    dim as int,
                    self.modulo as int,
                    max_fuzz as int,
                ));
                assert forall|t: int| 0 <= t < i + 1 implies row_ok(
                    #[trigger] row_of(key@, width as int, t),
                    dim as int,
                    self.modulo as int,
                ) && row_eq(
                    row_of(key@, width as int, t),
                    self.key@,
                    dim as int,
                    self.modulo as int,
                    max_fuzz as int,
                ) by {
                    if t < i {
                        assert(row_of(key@, width as int, t) == row_of(key0, width as int, t));
                        assert(row_ok(row_of(key0, width as int, t), dim as int, self.modulo as int));
                        assert(row_eq(
                            row_of(key0, width as int, t),
                            self.key@,
                            dim as int,
                            self.modulo as int,
                            max_fuzz as int,
                        ));
                    } else {
                        assert(row_of(key@, width as int, t) == rowfull);
                    }
                }
            }
            i = i + 1;
        }
        Public::new(self.modulo, key, self.add, dim)
    }

    /// The character one ciphertext record decodes to under this key: the
    /// dot product of the secret vector with the record's coefficients is
    /// cancelled from the record's last entry, the residual is reduced
    /// into `[0, modulo)` and divided by the scale with rounding to the
    /// nearest integer, and the result is read as a Unicode scalar value
    /// (or `PLACEHOLDER` where it is none).
    pub open spec fn record_char(self, rec: Seq<i32>) -> char {
        let dim = self.dim();
        let residual = (rec[dim] - dot_prefix(self.key@, rec, dim)) % (self.modulo as int);
        char_of(decoded_value(residual, self.add as int))
    }

    /// The text a sequence of record integers decrypts to under this key:
    /// one character per whole record of `dim + 1` integers.
    pub open spec fn plaintext_of(self, ints: Seq<i32>) -> Seq<char> {
        let width = self.dim() + 1;
        Seq::new(
            (ints.len() as int / width) as nat,
            |k: int| self.record_char(ints.subrange(k * width, (k + 1) * width)),
        )
    }

    /// Decode one ciphertext record of `dim + 1` integers into the
    /// character it stands for.
    pub fn decode_record(&self, record: &[i32]) -> (c: char)
        requires
            self.wf(),
            record@.len() == self.key@.len() + 1,
        ensures
            c == self.record_char(record@),
    {
        let dim = self.key.len();
        let mut linear: i64 = 0;
        let mut j: usize = 0;
        while j < dim
            invariant
                self.wf(),
                dim == self.key@.len(),
                record@.len() == dim + 1,
                j <= dim,
                linear == dot_prefix(self.key@, record@, j as int),
            decreases dim - j,
        {
            proof {
                lemma_dot_prefix_bound(
                    self.key@,
                    record@,
                    j as int,
                    KEY_BOUND as int,
                    0x8000_0000,
                );
                lemma_mul_inequality(j as int, DIM_MAX as int, (KEY_BOUND as int) * 0x8000_0000);
                assert(-((KEY_BOUND as int) * 0x8000_0000) <= (self.key@[j as int] as int) * (
                record@[j as int] as int) <= (KEY_BOUND as int) * 0x8000_0000) by (nonlinear_arith)
                    requires
                        -(KEY_BOUND as int) <= self.key@[j as int] <= KEY_BOUND as int,
                        -0x8000_0000 <= record@[j as int] <= 0x8000_0000,
                ;
            }
            let prod = (self.key[j] as i64) * (*slice_index_get(record, j) as i64);
            linear = linear + prod;
            j = j + 1;
        }
        proof {
            lemma_dot_prefix_bound(self.key@, record@, dim as int, KEY_BOUND as int, 0x8000_0000);
            lemma_mul_inequality(dim as int, DIM_MAX as int, (KEY_BOUND as int) * 0x8000_0000);
            lemma_scale_bounds(*self);
        }
        let last = *slice_index_get(record, dim);
        let residual = reduce(last as i64 - linear, self.modulo as i64);
        let add_w = self.add as i64;
        let q = div_pos(2 * residual + add_w, 2 * add_w);
        proof {
            lemma_div_pos_is_pos(2 * (residual as int) + (add_w as int), 2 * (add_w as int));
            assert(2 * (residual as int) + (add_w as int) < (2 * (add_w as int)) * 0x1_0000_0000)
                by (nonlinear_arith)
                requires
                    0 <= residual < MOD_HI as int,
                    9 <= add_w <= 99,
            ;
            lemma_multiply_divide_lt(
                2 * (residual as int) + (add_w as int),
                2 * (add_w as int),
                0x1_0000_0000,
            );
        }
        let v = q as u32;
        match char_from_u32(v) {
            Some(c) => {
                proof {
                    char_u32_cast(c, v);
                }
                c
            },
            None => PLACEHOLDER,
        }
    }

    /// Decrypt a ciphertext: reject a byte sequence that is not a whole
    /// number of records, then decode each record independently.
    pub fn decrypt(&self, message: &[u8]) -> (r: Result<String, DecryptError>)
        requires
            self.wf(),
        ensures
            r is Ok <==> message@.len() % (4 * (self.key@.len() + 1)) == 0,
            r is Err ==> r->Err_0 == DecryptError::MalformedCiphertext,
            r is Ok ==> r->Ok_0@ == self.plaintext_of(ints_of_bytes(message@)),
    {
        let dim = self.key.len();
        let width = dim + 1;
        let record_bytes = 4 * width;
        if message.len() % record_bytes != 0 {
            return Err(DecryptError::MalformedCiphertext);
        }
        let ints = bytes_to_ints(message);
        let n = ints.len() / width;
        proof {
            lemma_fundamental_div_mod(ints@.len() as int, width as int);
            assert((ints@.len() as int / width as int) * (width as int) == (width as int) * (
            ints@.len() as int / width as int)) by (nonlinear_arith);
        }
        let mut out = String::new();
        let mut k: usize = 0;
        while k < n
            invariant
                self.wf(),
                dim == self.key@.len(),
                width == dim + 1,
                ints@ == ints_of_bytes(message@),
                n == ints@.len() as int / width as int,
                n * width <= ints@.len() <= usize::MAX,
                k <= n,
                out@.len() == k,
                forall|t: int|
                    0 <= t < k ==> out@[t] == self.record_char(
                        #[trigger] ints@.subrange(t * width, (t + 1) * width),
                    ),
            decreases n - k,
        {
            proof {
                lemma_mul_inequality(k + 1 as int, n as int, width as int);
                assert((k + 1) * (width as int) == k * (width as int) + width as int)
                    by (nonlinear_arith);
                assert(0 <= (k as int) * (width as int)) by (nonlinear_arith)
                    requires
                        0 <= k as int,
                        0 < width as int,
                ;
            }
            let base = k * width;
            let rec = slice_subrange(ints.as_slice(), base, base + width);
            let c = self.decode_record(rec);
            push_char(&mut out, c);
            k = k + 1;
        }
        proof {
            assert(out@ =~= self.plaintext_of(ints@));
        }
        Ok(out)
    }
}

/// The scale a well-formed secret key carries lies in `[9, 99]`.
pub proof fn lemma_scale_bounds(s: Secret)
    requires
        s.wf(),
    ensures
        9 <= s.add <= 99,
{
    lemma_div_is_ordered(MOD_LO as int, s.modulo as int, MAX_CHR as int);
    lemma_div_is_ordered(s.modulo as int, (MOD_HI - 1) as int, MAX_CHR as int);
}

/// Round-trip law, one record: a record that encrypts a character under a
/// public key derived from this secret key decodes back to that
/// character. The combined noise of the two summed rows stays strictly
/// under half the scale, so the rounding division lands on the character
/// value exactly. The two boundary characters are left out: for the
/// character of value zero a negative combined noise would wrap past the
/// modulus, and for the largest code point a positive one could reach it.
pub proof fn lemma_record_roundtrip(secret: Secret, p: Public, c: char, rec: Seq<i32>)
    requires
        secret.wf(),
        p.wf(),
        p.derived_from(secret),
        p.record_encrypts(c, rec),
        rec.len() == p.dim + 1,
        1 <= c as u32 <= (MAX_CHR - 1) as u32,
    ensures
        secret.record_char(rec) == c,
{
    let dim = p.dim as int;
    let m = p.modulo as int;
    let a = p.add as int;
    let fb = p.fuzz_bound();
    let skey = secret.key@;
    let cv = (c as u32) as int;
    lemma_scale_bounds(secret);
    lemma_fundamental_div_mod(a, FUZZ_DIV as int);
    let (i1, i2) = choose|i1: int, i2: int|
        #![trigger p.row_seq(i1), p.row_seq(i2)]
        {
            &&& 0 <= i1 < p.rows()
            &&& 0 <= i2 < p.rows()
            &&& forall|j: int|
                0 <= j < p.dim ==> #[trigger] rec[j] == p.row_seq(i1)[j] + p.row_seq(i2)[j]
            &&& rec[dim] == (p.row_seq(i1)[dim] + p.row_seq(i2)[dim] + (c as u32) * p.add) % m
        };
    let row1 = p.row_seq(i1);
    let row2 = p.row_seq(i2);
    assert(p.row_derived(secret, i1));
    assert(p.row_derived(secret, i2));
    let d1 = dot_prefix(skey, row1, dim);
    let d2 = dot_prefix(skey, row2, dim);
    let f1 = choose|f: int|
        #![trigger (dot_prefix(skey, row1, dim) + f)]
        -fb <= f <= fb && row1[dim] == (dot_prefix(skey, row1, dim) + f) % m;
    let f2 = choose|f: int|
        #![trigger (dot_prefix(skey, row2, dim) + f)]
        -fb <= f <= fb && row2[dim] == (dot_prefix(skey, row2, dim) + f) % m;
    // The linear part of the record is the sum of the two rows' dot
    // products.
    lemma_dot_prefix_linear(skey, row1, row2, rec, dim);
    let linear = dot_prefix(skey, rec, dim);
    assert(linear == d1 + d2);
    // The record's last entry is the whole sum, reduced once.
    let x = d1 + f1;
    let y = d2 + f2;
    let s = x + y + cv * a;
    assert(rec[dim] == (x % m + y % m + cv * a) % m);
    let aa = x % m + y % m;
    let bb = cv * a;
    lemma_add_mod_noop(x, y, m);
    assert(aa % m == (x + y) % m);
    lemma_add_mod_noop(aa, bb, m);
    assert((aa + bb) % m == (aa % m + bb % m) % m);
    lemma_add_mod_noop(x + y, bb, m);
    assert((x + y + bb) % m == ((x + y) % m + bb % m) % m);
    assert(rec[dim] == (aa + bb) % m);
    assert(rec[dim] as int == s % m);
    // Cancelling the linear part leaves the noise and the scaled
    // character value.
    let residual = (rec[dim] - linear) % m;
    lemma_sub_mod_noop(s % m, linear, m);
    assert((s % m - linear) % m == ((s % m) % m - linear % m) % m);
    lemma_sub_mod_noop(s, linear, m);
    assert((s - linear) % m == (s % m - linear % m) % m);
    lemma_mod_twice(s, m);
    assert((s % m) % m == s % m);
    assert(residual == (s - linear) % m);
    assert(s - linear == f1 + f2 + cv * a);
    // The remaining value lies in `[0, m)`, so the reduction keeps it.
    let ff = f1 + f2;
    assert(a <= cv * a && cv * a <= (MAX_CHR - 1) * a) by (nonlinear_arith)
        requires
            1 <= cv <= MAX_CHR - 1,
            0 <= a,
    ;
    lemma_fundamental_div_mod(m, MAX_CHR as int);
    assert((MAX_CHR as int) * a <= m);
    assert((MAX_CHR - 1) * a == (MAX_CHR as int) * a - a) by (nonlinear_arith);
    assert(0 <= ff + cv * a < m);
    lemma_small_mod((ff + cv * a) as nat, m as nat);
    assert(residual == ff + cv * a);
    // The rounding division by the scale recovers the character value.
    assert(2 * residual + a == (2 * a) * cv + (2 * ff + a)) by (nonlinear_arith)
        requires
            residual == ff + cv * a,
    ;
    assert(0 <= 2 * ff + a < 2 * a);
    lemma_div_multiples_vanish_fancy(cv, 2 * ff + a, 2 * a);
    assert(decoded_value(residual, a) == cv);
    // The value is the character's own code point, a Unicode scalar.
    char_is_scalar(c);
    char_u32_cast(c, c as u32);
    assert(char_of(cv) == c);
}

/// Round-trip law, whole message: a ciphertext that encrypts a message
/// under a public key derived from this secret key decrypts back to the
/// message, for every message whose characters keep away from the two
/// boundary code points (zero and the largest one).
pub proof fn lemma_round_trip(secret: Secret, p: Public, msg: Seq<char>, ints: Seq<i32>)
    requires
        secret.wf(),
        p.wf(),
        p.derived_from(secret),
        p.encryption_of(msg, ints),
        forall|k: int| 0 <= k < msg.len() ==> 1 <= (#[trigger] msg[k]) as u32 <= (MAX_CHR - 1) as u32,
    ensures
        secret.plaintext_of(ints) == msg,
{
    let width = p.dim as int + 1;
    assert(ints.len() == msg.len() * width);
    assert(ints.len() as int / width == msg.len()) by {
        lemma_div_multiples_vanish(msg.len() as int, width);
        assert(msg.len() * width == width * msg.len()) by (nonlinear_arith);
    }
    assert forall|k: int| 0 <= k < msg.len() implies secret.record_char(
        #[trigger] ints.subrange(k * width, (k + 1) * width),
    ) == msg[k] by {
        assert(0 <= k * width) by (nonlinear_arith)
            requires
                0 <= k,
                0 < width,
        ;
        assert(k * width + width == (k + 1) * width) by (nonlinear_arith);
        lemma_mul_inequality(k + 1, msg.len() as int, width);
        let rec = ints.subrange(k * width, (k + 1) * width);
        assert(p.record_encrypts(msg[k], rec));
        lemma_record_roundtrip(secret, p, msg[k], rec);
    }
    assert(secret.plaintext_of(ints) =~= msg);
}

} // verus!
