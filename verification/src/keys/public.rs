use vstd::prelude::*;

use vstd::arithmetic::div_mod::{lemma_mod_multiples_vanish, lemma_small_mod};
use vstd::arithmetic::mul::lemma_mul_inequality;
use vstd::string::StrSliceExecFns;
use vstd::utf8::char_is_scalar;

use crate::arith::reduce;
use crate::codec::{ints_of_bytes, ints_to_bytes, lemma_codec_roundtrip};
use crate::keys::secret::Secret;
use crate::keys::{dot_prefix, DIM_MAX, FUZZ_DIV, KEY_BOUND, MAX_CHR, MOD_HI, MOD_LO, ROW_FACTOR};
use crate::random::{fresh_rng, random_in};

verus! {

/// A public key: `ROW_FACTOR * dim` noisy linear equations derived from a
/// secret key, stored flat, each row `dim` coefficients followed by its
/// noisy target.
#[derive(Debug)]
pub struct Public {
    /// The arithmetic field size, copied from the secret key.
    pub modulo: i32,
    /// The rows, flattened: row `i` occupies `key[i*(dim+1) .. (i+1)*(dim+1)]`.
    pub key: Vec<i32>,
    /// The scale, copied from the secret key.
    pub add: i32,
    /// The dimension: the number of coefficients per row.
    pub dim: usize,
}

/// Row `i` of a flat row store whose rows are `width` entries wide.
pub open spec fn row_of(key: Seq<i32>, width: int, i: int) -> Seq<i32> {
    key.subrange(i * width, i * width + width)
}

/// Entry bounds of one row: `dim` coefficients drawn from
/// `[-KEY_BOUND, KEY_BOUND)`, then a target already reduced into
/// `[0, modulo)`.
pub open spec fn row_ok(row: Seq<i32>, dim: int, modulo: int) -> bool {
    &&& row.len() == dim + 1
    &&& forall|j: int| 0 <= j < dim ==> -(KEY_BOUND as int) <= #[trigger] row[j] < KEY_BOUND as int
    &&& 0 <= row[dim] < modulo
}

/// One row satisfies the noisy-target equation for the given secret
/// vector: its target is the reduced dot product of its coefficients with
/// the secret vector, perturbed by a noise term bounded by `bound`.
pub open spec fn row_eq(row: Seq<i32>, skey: Seq<i32>, dim: int, modulo: int, bound: int) -> bool {
    exists|f: int|
        #![trigger (dot_prefix(skey, row, dim) + f)]
        -bound <= f <= bound && row[dim] == (dot_prefix(skey, row, dim) + f) % modulo
}

impl Public {
    /// Width of one row: the coefficients and the target.
    pub open spec fn width(self) -> int {
        self.dim + 1
    }

    /// Number of rows.
    pub open spec fn rows(self) -> int {
        ROW_FACTOR * self.dim
    }

    /// Row `i` as a sequence: `dim` coefficients, then the noisy target.
    pub open spec fn row_seq(self, i: int) -> Seq<i32> {
        row_of(self.key@, self.width(), i)
    }

    /// Entry bounds of row `i`.
    pub open spec fn row_wf(self, i: int) -> bool {
        row_ok(self.row_seq(i), self.dim as int, self.modulo as int)
    }

    /// Well-formedness: bounded dimension, the flat row storage of the
    /// right length, modulus in its fixed range, scale derived from the
    /// modulus, every row within bounds.
    pub open spec fn wf(self) -> bool {
        &&& 1 <= self.dim <= DIM_MAX
        &&& self.key@.len() == ROW_FACTOR * self.dim * (self.dim + 1)
        &&& MOD_LO <= self.modulo < MOD_HI
        &&& self.add == self.modulo as int / MAX_CHR as int
        &&& forall|i: int| 0 <= i < self.rows() ==> self.row_wf(i)
    }

    /// The noise bound of every row: `add / FUZZ_DIV`.
    pub open spec fn fuzz_bound(self) -> int {
        self.add as int / FUZZ_DIV as int
    }

    /// Row `i` satisfies the noisy-target equation for the given secret
    /// vector.
    pub open spec fn row_derived(self, secret: Secret, i: int) -> bool {
        row_eq(self.row_seq(i), secret.key@, self.dim as int, self.modulo as int, self.fuzz_bound())
    }

    /// The core algebraic invariant tying a public key to the secret key
    /// it was derived from: same dimension, modulus and scale, and every
    /// row's target satisfies the noisy-target equation.
    pub open spec fn derived_from(self, secret: Secret) -> bool {
        &&& self.dim == secret.key@.len()
        &&& self.modulo == secret.modulo
        &&& self.add == secret.add
        &&& forall|i: int| 0 <= i < self.rows() ==> self.row_derived(secret, i)
    }

    /// Assemble a public key from its parts.
    pub fn new(modulo: i32, key: Vec<i32>, add: i32, dim: usize) -> (p: Public)
        requires
            (Public { modulo, key, add, dim }).wf(),
        ensures
            p == (Public { modulo, key, add, dim }),
            p.wf(),
    {
        Public { modulo, key, add, dim }
    }

    /// One ciphertext record encrypts the character `c`: it is the
    /// element-wise sum of two rows of this key, with the character value
    /// scaled by `add` folded into the last entry and reduced.
    pub open spec fn record_encrypts(self, c: char, rec: Seq<i32>) -> bool {
        exists|i1: int, i2: int|
            #![trigger self.row_seq(i1), self.row_seq(i2)]
            {
                &&& 0 <= i1 < self.rows()
                &&& 0 <= i2 < self.rows()
                &&& forall|j: int|
                    0 <= j < self.dim ==> #[trigger] rec[j] == self.row_seq(i1)[j]
                        + self.row_seq(i2)[j]
                &&& rec[self.dim as int] == (self.row_seq(i1)[self.dim as int] + self.row_seq(
                    i2,
                )[self.dim as int] + (c as u32) * self.add) % (self.modulo as int)
            }
    }

    /// A sequence of record integers encrypts the message under this key:
    /// one record of `dim + 1` integers per character, in order.
    pub open spec fn encryption_of(self, msg: Seq<char>, ints: Seq<i32>) -> bool {
        &&& ints.len() == msg.len() * self.width()
        &&& forall|k: int|
            0 <= k < msg.len() ==> self.record_encrypts(
                msg[k],
                #[trigger] ints.subrange(k * self.width(), (k + 1) * self.width()),
            )
    }

    /// Encrypt a message: for each character, two rows drawn uniformly
    /// (with replacement) are summed element-wise, the character value
    /// scaled by `add` is folded into the last entry and reduced, and the
    /// record is appended; the records are serialized little-endian.
    pub fn encrypt(&self, message: &String) -> (r: Vec<u8>)
        requires
            self.wf(),
            message@.len() * (self.dim + 1) * 4 <= usize::MAX,
        ensures
            r@.len() == message@.len() * (self.dim + 1) * 4,
            r@.len() as int % (4 * (self.dim + 1) as int) == 0,
            self.encryption_of(message@, ints_of_bytes(r@)),
    {
        let dim = self.dim;
        let width = dim + 1;
        let rows = ROW_FACTOR * dim;
        proof {
            lemma_scale_bounds_public(*self);
            assert(message@.len() * (width as int) <= message@.len() * ((self.dim + 1) as int)
                * 4) by (nonlinear_arith)
                requires
                    width == self.dim + 1,
            ;
        }
        let key_len = self.key.len();
        let len = message.as_str().unicode_len();
        let mut rng = fresh_rng();
        let mut enc: Vec<i32> = Vec::new();
        let mut k: usize = 0;
        while k < len
            invariant
                self.wf(),
                9 <= self.add <= 99,
                dim == self.dim,
                width == dim + 1,
                rows == ROW_FACTOR * dim,
                len == message@.len(),
                key_len == self.key@.len(),
                message@.len() * (width as int) <= usize::MAX,
                k <= len,
                enc@.len() == k * width,
                forall|t: int|
                    0 <= t < k ==> self.record_encrypts(
                        message@[t],
                        #[trigger] enc@.subrange(t * (width as int), (t + 1) * (width as int)),
                    ),
            decreases len - k,
        {
            let c = message.as_str().get_char(k);
            let i1 = random_in(&mut rng, 0, rows as i64) as usize;
            let i2 = random_in(&mut rng, 0, rows as i64) as usize;
            proof {
                assert(self.key@.len() <= usize::MAX);
                assert(self.row_wf(i1 as int));
                assert(self.row_wf(i2 as int));
                lemma_mul_inequality(i1 + 1 as int, rows as int, width as int);
                lemma_mul_inequality(i2 + 1 as int, rows as int, width as int);
                assert((i1 + 1) * (width as int) == i1 * (width as int) + width as int)
                    by (nonlinear_arith);
                assert((i2 + 1) * (width as int) == i2 * (width as int) + width as int)
                    by (nonlinear_arith);
                assert(0 <= (i1 as int) * (width as int) && 0 <= (i2 as int) * (width as int))
                    by (nonlinear_arith)
                    requires
                        0 <= i1 as int,
                        0 <= i2 as int,
                        0 < width as int,
                ;
                assert((rows as int) * (width as int) == ROW_FACTOR * (self.dim as int) * ((
                self.dim + 1) as int)) by (nonlinear_arith)
                    requires
                        rows == ROW_FACTOR * (self.dim as int),
                        width == self.dim + 1,
                ;
                assert(k * (width as int) + (width as int) == (k + 1) * (width as int))
                    by (nonlinear_arith);
                lemma_mul_inequality(k + 1 as int, len as int, width as int);
            }
            let base1 = i1 * width;
            let base2 = i2 * width;
            let ghost enc0 = enc@;
            let mut j: usize = 0;
            while j < dim
                invariant
                    self.wf(),
                    dim == self.dim,
                    width == dim + 1,
                    rows == ROW_FACTOR * dim,
                    i1 < rows,
                    i2 < rows,
                    key_len == self.key@.len(),
                    base1 == i1 * width,
                    base2 == i2 * width,
                    base1 + width <= self.key@.len(),
                    base2 + width <= self.key@.len(),
                    self.row_wf(i1 as int),
                    self.row_wf(i2 as int),
                    j <= dim,
                    enc@.len() == enc0.len() + j,
                    forall|t: int| 0 <= t < enc0.len() ==> #[trigger] enc@[t] == enc0[t],
                    forall|t: int|
                        0 <= t < j ==> #[trigger] enc@[enc0.len() + t] == self.row_seq(i1 as int)[t]
                            + self.row_seq(i2 as int)[t],
                decreases dim - j,
            {
                let a = self.key[base1 + j];
                let b = self.key[base2 + j];
                proof {
                    assert(self.row_seq(i1 as int)[j as int] == self.key@[base1 + j]);
                    assert(self.row_seq(i2 as int)[j as int] == self.key@[base2 + j]);
                }
                enc.push(a + b);
                j = j + 1;
            }
            let t1 = self.key[base1 + dim];
            let t2 = self.key[base2 + dim];
            proof {
                assert(self.row_seq(i1 as int)[dim as int] == self.key@[base1 + dim]);
                assert(self.row_seq(i2 as int)[dim as int] == self.key@[base2 + dim]);
                char_is_scalar(c);
                assert(0 <= (c as u32) * (self.add as int) <= 1114111 * 99) by (nonlinear_arith)
                    requires
                        0 <= c as u32 <= 1114111,
                        9 <= self.add <= 99,
                ;
            }
            let charnum = (c as u32 as i64) * (self.add as i64);
            let last = reduce(t1 as i64 + t2 as i64 + charnum, self.modulo as i64) as i32;
            let ghost enc1 = enc@;
            enc.push(last);
            proof {
                let widthi = width as int;
                let rec = enc@.subrange(k * widthi, (k + 1) * widthi);
                assert(rec.len() == widthi);
                assert(forall|t: int| 0 <= t < enc1.len() ==> #[trigger] enc@[t] == enc1[t]);
                assert forall|j2: int| 0 <= j2 < dim implies #[trigger] rec[j2] == self.row_seq(
                    i1 as int,
                )[j2] + self.row_seq(i2 as int)[j2] by {
                    assert(rec[j2] == enc@[k * widthi + j2]);
                    assert(enc@[enc0.len() + j2] == self.row_seq(i1 as int)[j2] + self.row_seq(
                        i2 as int,
                    )[j2]);
                }
                assert(rec[dim as int] == last);
                assert(self.record_encrypts(message@[k as int], rec));
                assert forall|t: int| 0 <= t < k + 1 implies self.record_encrypts(
                    message@[t],
                    #[trigger] enc@.subrange(t * widthi, (t + 1) * widthi),
                ) by {
                    if t < k {
                        assert(0 <= t * widthi) by (nonlinear_arith)
                            requires
                                0 <= t,
                                0 < widthi,
                        ;
                        assert(t * widthi + widthi == (t + 1) * widthi) by (nonlinear_arith);
                        lemma_mul_inequality(t + 1, k as int, widthi);
                        assert(enc@.subrange(t * widthi, (t + 1) * widthi) =~= enc0.subrange(
                            t * widthi,
                            (t + 1) * widthi,
                        ));
                    }
                }
            }
            k = k + 1;
        }
        proof {
            assert(enc@.len() * 4 <= usize::MAX && 4 * enc@.len() == message@.len() * ((self.dim
                + 1) as int) * 4) by (nonlinear_arith)
                requires
                    enc@.len() == message@.len() * (width as int),
                    width == self.dim + 1,
                    message@.len() * (width as int) * 4 <= usize::MAX,
                    message@.len() * ((self.dim + 1) as int) * 4 <= usize::MAX,
            ;
        }
        let bytes = ints_to_bytes(&enc);
        proof {
            lemma_codec_roundtrip(enc@);
            assert(self.encryption_of(message@, ints_of_bytes(bytes@)));
            let rb = 4 * ((self.dim + 1) as int);
            assert(bytes@.len() == rb * message@.len()) by (nonlinear_arith)
                requires
                    bytes@.len() == message@.len() * ((self.dim + 1) as int) * 4,
                    rb == 4 * ((self.dim + 1) as int),
            ;
            lemma_mod_multiples_vanish(message@.len() as int, 0, rb);
            lemma_small_mod(0nat, rb as nat);
        }
        bytes
    }

    /// Derive the public key of a secret key; `secret.generate_public_key`
    /// under the name the conversion is usually called by.
    pub fn from(secret: &Secret) -> (p: Public)
        requires
            secret.wf(),
        ensures
            p.wf(),
            p.derived_from(*secret),
    {
        secret.generate_public_key()
    }
}

/// The scale a well-formed public key carries lies in `[9, 99]`.
pub proof fn lemma_scale_bounds_public(p: Public)
    requires
        p.wf(),
    ensures
        9 <= p.add <= 99,
{
    vstd::arithmetic::div_mod::lemma_div_is_ordered(MOD_LO as int, p.modulo as int, MAX_CHR as int);
    vstd::arithmetic::div_mod::lemma_div_is_ordered(
        p.modulo as int,
        (MOD_HI - 1) as int,
        MAX_CHR as int,
    );
}

} // verus!
