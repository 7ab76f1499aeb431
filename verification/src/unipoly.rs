//! Univariate polynomials over the field, held as a dense coefficient list
//! (index = degree). They support term-wise addition, evaluation, and the
//! degree of the highest nonzero coefficient; these are the three
//! capabilities the protocol asks of a round polynomial.

use vstd::prelude::*;
use crate::field::{
    fadd, fmul, fpow, lemma_fadd_pairs, lemma_fadd_zero, lemma_fmod_bound, lemma_fmod_small,
    lemma_fmul_dist, lemma_fmul_flat, lemma_fmul_one, lemma_fp_eq, Fp,
};

verus! {

/// The views of a sequence of field elements.
pub open spec fn fp_vals(s: Seq<Fp>) -> Seq<int> {
    s.map_values(|f: Fp| f@)
}

/// Horner evaluation of a dense coefficient list at `x`.
pub open spec fn poly_eval(c: Seq<int>, x: int) -> int
    decreases c.len(),
{
    if c.len() == 0 {
        0
    } else {
        fadd(c.first(), fmul(x, poly_eval(c.drop_first(), x)))
    }
}

/// The degree: the largest index holding a nonzero coefficient, 0 if none.
pub open spec fn spec_degree(c: Seq<int>) -> nat
    decreases c.len(),
{
    if c.len() == 0 {
        0
    } else if c.last() != 0 {
        (c.len() - 1) as nat
    } else {
        spec_degree(c.drop_last())
    }
}

/// The coefficient at index `k`, 0 beyond the list's end.
pub open spec fn coeff_or0(s: Seq<int>, k: int) -> int {
    if 0 <= k < s.len() {
        s[k]
    } else {
        0
    }
}

/// Evaluation unfolds by one coefficient, also on the empty list.
proof fn lemma_poly_eval_unfold(c: Seq<int>, x: int)
    ensures
        poly_eval(c, x) == fadd(
            coeff_or0(c, 0),
            fmul(x, poly_eval(if c.len() == 0 { c } else { c.drop_first() }, x)),
        ),
{
    if c.len() == 0 {
        lemma_fmod_small(0);
        assert(fmul(x, 0) == 0) by {
            lemma_fmod_small(0);
        }
        assert(fadd(0, 0) == 0) by {
            lemma_fmod_small(0);
        }
    }
}

/// The degree never exceeds the coefficient list's length.
pub proof fn lemma_spec_degree_le(c: Seq<int>)
    ensures
        spec_degree(c) <= c.len(),
        c.len() > 0 ==> spec_degree(c) < c.len(),
    decreases c.len(),
{
    if c.len() == 0 {
    } else if c.last() != 0 {
    } else {
        lemma_spec_degree_le(c.drop_last());
    }
}

/// Evaluating a list whose only possibly-nonzero coefficient is the last
/// gives that coefficient times the matching power.
proof fn lemma_monomial_eval(s: Seq<int>, x: int)
    requires
        s.len() >= 1,
        forall|k: int| 0 <= k < s.len() - 1 ==> s[k] == 0,
    ensures
        poly_eval(s, x) == fmul(s.last(), fpow(x, (s.len() - 1) as nat)),
    decreases s.len(),
{
    if s.len() == 1 {
        assert(fmul(x, 0) == 0) by {
            lemma_fmod_small(0);
        }
        lemma_fadd_zero(s.last());
        lemma_fmul_one(s.last());
        assert(poly_eval(s.drop_first(), x) == 0);
        assert(poly_eval(s, x) == fadd(s.first(), fmul(x, 0)));
        assert(fpow(x, 0) == 1);
        assert(poly_eval(s, x) == fmul(s.last(), fpow(x, 0)));
    } else {
        let t = s.drop_first();
        assert(t.last() == s.last());
        lemma_monomial_eval(t, x);
        let p = fpow(x, (s.len() - 2) as nat);
        let l = s.last();
        assert(s.first() == 0);
        assert(poly_eval(s, x) == fadd(0, fmul(x, fmul(l, p))));
        lemma_fadd_zero(fmul(x, fmul(l, p)));
        lemma_fmod_bound(x * fmul(l, p));
        lemma_fmod_small(fmul(x, fmul(l, p)));
        assert(poly_eval(s, x) == fmul(x, fmul(l, p)));
        lemma_fmul_flat(x, l, p);
        lemma_fmul_flat(l, p, x);
        assert(x * l * p == l * p * x) by (nonlinear_arith);
        assert(poly_eval(s, x) == fmul(l, fmul(p, x)));
        assert(fpow(x, (s.len() - 1) as nat) == fmul(fpow(x, (s.len() - 2) as nat), x));
    }
}

/// Pointwise `fadd` of coefficients gives `fadd` of the evaluations.
proof fn lemma_poly_eval_add(a: Seq<int>, b: Seq<int>, c: Seq<int>, x: int)
    requires
        c.len() == if a.len() >= b.len() { a.len() } else { b.len() },
        forall|k: int| 0 <= k < c.len() ==> c[k] == fadd(coeff_or0(a, k), coeff_or0(b, k)),
    ensures
        poly_eval(c, x) == fadd(poly_eval(a, x), poly_eval(b, x)),
    decreases c.len(),
{
    if c.len() == 0 {
        lemma_fmod_small(0);
    } else {
        let a1 = if a.len() == 0 { a } else { a.drop_first() };
        let b1 = if b.len() == 0 { b } else { b.drop_first() };
        let c1 = c.drop_first();
        assert forall|k: int| 0 <= k < c1.len() implies c1[k] == fadd(
            coeff_or0(a1, k),
            coeff_or0(b1, k),
        ) by {
            assert(c1[k] == c[k + 1]);
            assert(coeff_or0(a1, k) == coeff_or0(a, k + 1));
            assert(coeff_or0(b1, k) == coeff_or0(b, k + 1));
        }
        lemma_poly_eval_add(a1, b1, c1, x);
        lemma_poly_eval_unfold(a, x);
        lemma_poly_eval_unfold(b, x);
        let a0 = coeff_or0(a, 0);
        let b0 = coeff_or0(b, 0);
        let ea = poly_eval(a1, x);
        let eb = poly_eval(b1, x);
        assert(poly_eval(c, x) == fadd(fadd(a0, b0), fmul(x, fadd(ea, eb))));
        lemma_fmul_dist(x, ea, eb);
        lemma_fadd_pairs(a0, b0, fmul(x, ea), fmul(x, eb));
        lemma_fadd_pairs(a0, fmul(x, ea), b0, fmul(x, eb));
    }
}

/// A univariate polynomial: dense coefficients, index = degree.
pub struct UniPoly {
    coeffs: Vec<Fp>,
}

impl View for UniPoly {
    type V = Seq<int>;

    closed spec fn view(&self) -> Seq<int> {
        fp_vals(self.coeffs@)
    }
}

impl UniPoly {
    /// The zero polynomial.
    pub fn zero() -> (r: UniPoly)
        ensures
            r@ == Seq::<int>::empty(),
    {
        let r = UniPoly { coeffs: Vec::new() };
        proof {
            assert(r@ =~= Seq::<int>::empty());
        }
        r
    }

    /// A polynomial from its dense coefficient list.
    pub fn from_coefficients(coeffs: Vec<Fp>) -> (r: UniPoly)
        ensures
            r@ == fp_vals(coeffs@),
    {
        UniPoly { coeffs }
    }

    /// The single-term polynomial `c * x^deg`.
    pub fn monomial(deg: usize, c: Fp) -> (r: UniPoly)
        ensures
            r@.len() == deg + 1,
            forall|x: int| #[trigger] poly_eval(r@, x) == fmul(c@, fpow(x, deg as nat)),
    {
        let mut out: Vec<Fp> = Vec::new();
        let z = Fp::zero();
        for k in 0..deg
            invariant
                out@.len() == k,
                z@ == 0,
                forall|q: int| 0 <= q < k ==> out@[q]@ == 0,
        {
            out.push(z);
        }
        out.push(c);
        let r = UniPoly { coeffs: out };
        proof {
            assert(r@.last() == c@);
            assert forall|q: int| 0 <= q < r@.len() - 1 implies r@[q] == 0 by {
                assert(r@[q] == out@[q]@);
            }
            assert forall|x: int| #[trigger] poly_eval(r@, x) == fmul(c@, fpow(x, deg as nat)) by {
                lemma_monomial_eval(r@, x);
            }
        }
        r
    }

    /// Term-wise addition: coefficients of equal degree are merged.
    pub fn add(&self, other: &UniPoly) -> (r: UniPoly)
        ensures
            r@.len() == if self@.len() >= other@.len() {
                self@.len()
            } else {
                other@.len()
            },
            forall|x: int| #[trigger] poly_eval(r@, x) == fadd(
                poly_eval(self@, x),
                poly_eval(other@, x),
            ),
    {
        let la = self.coeffs.len();
        let lb = other.coeffs.len();
        let n = if la >= lb {
            la
        } else {
            lb
        };
        let mut out: Vec<Fp> = Vec::new();
        let z = Fp::zero();
        for k in 0..n
            invariant
                out@.len() == k,
                z@ == 0,
                la == self@.len(),
                lb == other@.len(),
                n == if la >= lb {
                    la
                } else {
                    lb
                },
                forall|q: int| 0 <= q < k ==> out@[q]@ == fadd(
                    coeff_or0(self@, q),
                    coeff_or0(other@, q),
                ),
        {
            let av = if k < la {
                self.coeffs[k]
            } else {
                z
            };
            let bv = if k < lb {
                other.coeffs[k]
            } else {
                z
            };
            proof {
                assert(coeff_or0(self@, k as int) == if k < la {
                    self.coeffs@[k as int]@
                } else {
                    0
                });
                assert(coeff_or0(other@, k as int) == if k < lb {
                    other.coeffs@[k as int]@
                } else {
                    0
                });
            }
            out.push(av.add(bv));
        }
        let r = UniPoly { coeffs: out };
        proof {
            assert forall|q: int| 0 <= q < r@.len() implies r@[q] == fadd(
                coeff_or0(self@, q),
                coeff_or0(other@, q),
            ) by {
                assert(r@[q] == out@[q]@);
            }
            assert forall|x: int| #[trigger] poly_eval(r@, x) == fadd(
                poly_eval(self@, x),
                poly_eval(other@, x),
            ) by {
                lemma_poly_eval_add(self@, other@, r@, x);
            }
        }
        r
    }

    /// Horner evaluation at a field point.
    pub fn evaluate(&self, x: Fp) -> (r: Fp)
        ensures
            r@ == poly_eval(self@, x@),
    {
        let mut acc = Fp::zero();
        let mut k = self.coeffs.len();
        while k > 0
            invariant
                k <= self.coeffs.len(),
                self@.len() == self.coeffs.len(),
                acc@ == poly_eval(self@.skip(k as int), x@),
            decreases k,
        {
            k = k - 1;
            proof {
                assert(self@.skip(k as int).drop_first() =~= self@.skip(k as int + 1));
                assert(self@.skip(k as int).first() == self@[k as int]);
            }
            acc = self.coeffs[k].add(x.mul(acc));
        }
        proof {
            assert(self@.skip(0) =~= self@);
        }
        acc
    }

    /// The degree of the highest nonzero coefficient, 0 for the zero polynomial.
    pub fn degree(&self) -> (d: usize)
        ensures
            d as nat == spec_degree(self@),
    {
        let z = Fp::zero();
        let mut k = self.coeffs.len();
        proof {
            assert(self@.take(k as int) =~= self@);
        }
        while k > 0
            invariant
                k <= self.coeffs.len(),
                self@.len() == self.coeffs.len(),
                z@ == 0,
                spec_degree(self@) == spec_degree(self@.take(k as int)),
            decreases k,
        {
            proof {
                assert(self@.take(k as int).last() == self@[k as int - 1]);
                assert(self@.take(k as int).drop_last() =~= self@.take(k as int - 1));
                lemma_fp_eq(self.coeffs@[k as int - 1], z);
            }
            if self.coeffs[k - 1] != z {
                return k - 1;
            }
            k = k - 1;
        }
        0
    }

    /// The number of stored coefficients.
    pub fn coefficient_count(&self) -> (n: usize)
        ensures
            n == self@.len(),
    {
        self.coeffs.len()
    }
}

} // verus!
