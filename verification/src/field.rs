//! A prime field of fixed modulus, the coefficient domain for every
//! polynomial in the crate. Elements are held as reduced `u64`
//! representatives; the mathematical meaning of each operation is given by
//! the spec functions `fadd`, `fsub`, `fmul` and `fpow` over `int`.

use vstd::prelude::*;
use vstd::arithmetic::div_mod::{
    lemma_add_mod_noop, lemma_add_mod_noop_right, lemma_mod_add_multiples_vanish,
    lemma_mod_bound, lemma_mul_mod_noop_general, lemma_small_mod,
};
use vstd::arithmetic::mul::lemma_mul_is_associative;
use vstd::arithmetic::power2::{lemma2_to64, lemma2_to64_rest, lemma_pow2_adds,
    lemma_pow2_strictly_increases, pow2};

verus! {

/// The prime modulus of the field (2^64 - 2^32 + 1).
pub const FIELD_MODULUS: u64 = 18446744069414584321;

/// The modulus as a mathematical integer.
pub open spec fn modulus() -> int {
    FIELD_MODULUS as int
}

/// Field addition on representatives.
pub open spec fn fadd(a: int, b: int) -> int {
    (a + b) % modulus()
}

/// Field subtraction on representatives.
pub open spec fn fsub(a: int, b: int) -> int {
    (a - b) % modulus()
}

/// Field multiplication on representatives.
pub open spec fn fmul(a: int, b: int) -> int {
    (a * b) % modulus()
}

/// Field exponentiation on representatives.
pub open spec fn fpow(b: int, e: nat) -> int
    decreases e,
{
    if e == 0 {
        1int
    } else {
        fmul(fpow(b, (e - 1) as nat), b)
    }
}

/// A field element: a reduced representative of the residue class.
#[derive(Clone, Copy, PartialEq, Eq, Structural, Debug)]
pub struct Fp {
    v: u64,
}

impl View for Fp {
    type V = int;

    closed spec fn view(&self) -> int {
        self.v as int
    }
}

impl Fp {
    #[verifier::type_invariant]
    pub closed spec fn type_inv(self) -> bool {
        self.v < FIELD_MODULUS
    }

    /// The additive identity.
    pub fn zero() -> (r: Fp)
        ensures
            r@ == 0,
    {
        Fp { v: 0 }
    }

    /// The multiplicative identity.
    pub fn one() -> (r: Fp)
        ensures
            r@ == 1,
    {
        Fp { v: 1 }
    }

    /// Construction from a small integer: reduces modulo the field order.
    pub fn from_u64(x: u64) -> (r: Fp)
        ensures
            r@ == (x as int) % modulus(),
    {
        Fp { v: x % FIELD_MODULUS }
    }

    /// Field addition.
    pub fn add(self, o: Fp) -> (r: Fp)
        ensures
            r@ == fadd(self@, o@),
    {
        let s: u128 = (self.v as u128) + (o.v as u128);
        Fp { v: (s % (FIELD_MODULUS as u128)) as u64 }
    }

    /// Field subtraction.
    pub fn sub(self, o: Fp) -> (r: Fp)
        ensures
            r@ == fsub(self@, o@),
    {
        proof {
            use_type_invariant(&self);
            use_type_invariant(&o);
            lemma_mod_add_multiples_vanish(self@ - o@, modulus());
        }
        let s: u128 = (self.v as u128) + (FIELD_MODULUS as u128) - (o.v as u128);
        Fp { v: (s % (FIELD_MODULUS as u128)) as u64 }
    }

    /// Field multiplication.
    pub fn mul(self, o: Fp) -> (r: Fp)
        ensures
            r@ == fmul(self@, o@),
    {
        let a: u128 = self.v as u128;
        let b: u128 = o.v as u128;
        proof {
            assert(a * b <= u128::MAX) by (nonlinear_arith)
                requires
                    a <= u64::MAX,
                    b <= u64::MAX,
            ;
        }
        let s: u128 = a * b;
        Fp { v: (s % (FIELD_MODULUS as u128)) as u64 }
    }

    /// Fallible construction from a fixed-width random byte string: the
    /// little-endian value of exactly 8 bytes, accepted only when it lies in
    /// the field's canonical range.
    pub fn from_random_bytes(bytes: &Vec<u8>) -> (r: Option<Fp>)
        ensures
            r is Some <==> (bytes@.len() == 8 && le_bytes(bytes@) < modulus()),
            r matches Some(f) ==> f@ == le_bytes(bytes@),
    {
        if bytes.len() != 8 {
            return None;
        }
        let v = le_u64_of_bytes(bytes);
        if v < FIELD_MODULUS {
            Some(Fp { v })
        } else {
            None
        }
    }

    /// Integer exponentiation by repeated multiplication.
    pub fn pow(self, e: usize) -> (r: Fp)
        ensures
            r@ == fpow(self@, e as nat),
    {
        let mut acc = Fp::one();
        proof {
            use_type_invariant(&self);
        }
        for k in 0..e
            invariant
                acc@ == fpow(self@, k as nat),
        {
            acc = acc.mul(self);
        }
        acc
    }
}

/// The integer value of a little-endian byte string.
pub open spec fn le_bytes(s: Seq<u8>) -> int
    decreases s.len(),
{
    if s.len() == 0 {
        0
    } else {
        s.first() + 256 * le_bytes(s.drop_first())
    }
}

/// The little-endian value of exactly 8 bytes, as a machine word.
pub fn le_u64_of_bytes(bytes: &Vec<u8>) -> (v: u64)
    requires
        bytes@.len() == 8,
    ensures
        v as int == le_bytes(bytes@),
{
    let mut val: u64 = 0;
    let mut k: usize = 8;
    proof {
        lemma2_to64();
        assert(bytes@.skip(8) =~= Seq::<u8>::empty());
    }
    while k > 0
        invariant
            bytes@.len() == 8,
            k <= 8,
            val as int == le_bytes(bytes@.skip(k as int)),
            (val as int) < pow2((8 * (8 - k)) as nat),
        decreases k,
    {
        k = k - 1;
        let b = bytes[k];
        proof {
            lemma2_to64();
            lemma2_to64_rest();
            if 8 * (7 - k) < 56 {
                lemma_pow2_strictly_increases((8 * (7 - k)) as nat, 56);
            }
            assert((val as int) < pow2(56));
            assert(bytes@.skip(k as int).drop_first() =~= bytes@.skip(k as int + 1));
            assert(bytes@.skip(k as int).first() == bytes@[k as int]);
            lemma_pow2_adds((8 * (7 - k)) as nat, 8);
        }
        val = (b as u64) + 256 * val;
    }
    proof {
        assert(bytes@.skip(0) =~= bytes@);
    }
    val
}

/// The remainder by the field modulus lies in `[0, modulus())`.
pub proof fn lemma_fmod_bound(a: int)
    ensures
        0 <= a % modulus() < modulus(),
{
    lemma_mod_bound(a, modulus());
}

/// A reduced representative is its own remainder.
pub proof fn lemma_fmod_small(a: int)
    requires
        0 <= a < modulus(),
    ensures
        a % modulus() == a,
{
    lemma_small_mod(a as nat, modulus() as nat);
}

/// `fadd` associates: both groupings equal the plain sum reduced once.
pub proof fn lemma_fadd_flat(a: int, b: int, c: int)
    ensures
        fadd(fadd(a, b), c) == (a + b + c) % modulus(),
        fadd(a, fadd(b, c)) == (a + b + c) % modulus(),
{
    lemma_add_mod_noop_right(c, a + b, modulus());
    lemma_add_mod_noop_right(a, b + c, modulus());
}

/// Two paired `fadd`s equal the plain four-term sum reduced once.
pub proof fn lemma_fadd_pairs(a: int, b: int, c: int, d: int)
    ensures
        fadd(fadd(a, b), fadd(c, d)) == (a + b + c + d) % modulus(),
{
    lemma_add_mod_noop(a + b, c + d, modulus());
}

/// A reduced left summand may be unreduced without changing an `fadd`.
pub proof fn lemma_fadd_mod_left(x: int, y: int)
    ensures
        fadd(x % modulus(), y) == (x + y) % modulus(),
{
    lemma_add_mod_noop_right(y, x, modulus());
}

/// Adding a field zero only reduces.
pub proof fn lemma_fadd_zero(a: int)
    ensures
        fadd(a, 0) == a % modulus(),
        fadd(0, a) == a % modulus(),
{
}

/// `fmul` associates: both groupings equal the plain product reduced once.
pub proof fn lemma_fmul_flat(a: int, b: int, c: int)
    ensures
        fmul(fmul(a, b), c) == (a * b * c) % modulus(),
        fmul(a, fmul(b, c)) == (a * b * c) % modulus(),
{
    lemma_mul_mod_noop_general(a * b, c, modulus());
    lemma_mul_mod_noop_general(a, b * c, modulus());
    lemma_mul_is_associative(a, b, c);
}

/// Multiplying by a field one only reduces.
pub proof fn lemma_fmul_one(a: int)
    ensures
        fmul(a, 1) == a % modulus(),
        fmul(1, a) == a % modulus(),
{
}

/// `fmul` distributes over `fadd`.
pub proof fn lemma_fmul_dist(x: int, a: int, b: int)
    ensures
        fmul(x, fadd(a, b)) == fadd(fmul(x, a), fmul(x, b)),
{
    lemma_mul_mod_noop_general(x, a + b, modulus());
    assert(x * (a + b) == x * a + x * b) by (nonlinear_arith);
    lemma_add_mod_noop(x * a, x * b, modulus());
}

/// A field element whose type invariant holds views to a reduced
/// representative.
pub proof fn lemma_fp_view_bound(f: Fp)
    requires
        f.type_inv(),
    ensures
        0 <= f@ < modulus(),
{
}

/// Equality of field elements coincides with equality of their views.
pub proof fn lemma_fp_eq(a: Fp, b: Fp)
    ensures
        (a == b) <==> (a@ == b@),
{
}

} // verus!
