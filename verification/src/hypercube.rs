//! Boolean-hypercube indexing and summation: the shared bit-decomposition of
//! an integer index into boolean coordinates, the mathematical sum of a
//! polynomial over `{0,1}^k` behind a fixed prefix, and the brute-force
//! reference sum used to obtain the honest initial claim.

use vstd::prelude::*;
use vstd::arithmetic::power2::{lemma2_to64, lemma_pow2_unfold, pow2};
use vstd::arithmetic::div_mod::lemma_fundamental_div_mod_converse;
use vstd::bits::{lemma_u64_pow2_no_overflow, lemma_u64_shl_is_mul};
use crate::field::{fadd, lemma_fadd_flat, lemma_fadd_mod_left, lemma_fadd_pairs,
    lemma_fadd_zero, lemma_fmod_small, Fp};
use crate::multipoly::{lemma_terms_value_bound, MultiPoly};
use crate::unipoly::fp_vals;

verus! {

/// The low `k` bits of `j`, least significant first, as 0/1 field
/// representatives.
pub open spec fn bits_seq(j: int, k: nat) -> Seq<int>
    decreases k,
{
    if k == 0 {
        Seq::empty()
    } else {
        seq![j % 2] + bits_seq(j / 2, (k - 1) as nat)
    }
}

/// The sum of `g` over all boolean assignments of the last `k` variables,
/// after the fixed assignment `prefix` of the earlier ones.
pub open spec fn hyp_sum(g: MultiPoly, prefix: Seq<int>, k: nat) -> int
    decreases k,
{
    if k == 0 {
        g.spec_eval(prefix)
    } else {
        fadd(
            hyp_sum(g, prefix.push(0), (k - 1) as nat),
            hyp_sum(g, prefix.push(1), (k - 1) as nat),
        )
    }
}

/// The partial enumeration sum: `g` evaluated behind `prefix` at the first
/// `m` of the `2^k` boolean assignments, in index order.
pub open spec fn eval_sum_upto(g: MultiPoly, prefix: Seq<int>, k: nat, m: nat) -> int
    decreases m,
{
    if m == 0 {
        0
    } else {
        fadd(
            eval_sum_upto(g, prefix, k, (m - 1) as nat),
            g.spec_eval(prefix + bits_seq((m - 1) as int, k)),
        )
    }
}

/// Splitting the enumeration on the lowest bit splits the sum on the first
/// remaining variable.
proof fn lemma_sum_split(g: MultiPoly, prefix: Seq<int>, k: nat, m: nat)
    requires
        k >= 1,
    ensures
        eval_sum_upto(g, prefix, k, 2 * m) == fadd(
            eval_sum_upto(g, prefix.push(0), (k - 1) as nat, m),
            eval_sum_upto(g, prefix.push(1), (k - 1) as nat, m),
        ),
    decreases m,
{
    if m == 0 {
        lemma_fmod_small(0);
    } else {
        lemma_sum_split(g, prefix, k, (m - 1) as nat);
        lemma_fundamental_div_mod_converse(2 * m - 2, 2, m - 1, 0);
        lemma_fundamental_div_mod_converse(2 * m - 1, 2, m - 1, 1);
        assert(bits_seq(2 * m - 2, k) == seq![0int] + bits_seq(m - 1, (k - 1) as nat));
        assert(bits_seq(2 * m - 1, k) == seq![1int] + bits_seq(m - 1, (k - 1) as nat));
        assert(prefix + (seq![0int] + bits_seq(m - 1, (k - 1) as nat)) =~= prefix.push(0)
            + bits_seq(m - 1, (k - 1) as nat));
        assert(prefix + (seq![1int] + bits_seq(m - 1, (k - 1) as nat)) =~= prefix.push(1)
            + bits_seq(m - 1, (k - 1) as nat));
        let a = eval_sum_upto(g, prefix.push(0), (k - 1) as nat, (m - 1) as nat);
        let b = eval_sum_upto(g, prefix.push(1), (k - 1) as nat, (m - 1) as nat);
        let f0 = g.spec_eval(prefix.push(0) + bits_seq(m - 1, (k - 1) as nat));
        let f1 = g.spec_eval(prefix.push(1) + bits_seq(m - 1, (k - 1) as nat));
        assert(eval_sum_upto(g, prefix, k, (2 * m - 1) as nat) == fadd(fadd(a, b), f0));
        assert(eval_sum_upto(g, prefix, k, 2 * m) == fadd(fadd(fadd(a, b), f0), f1));
        lemma_fadd_flat(a, b, f0);
        lemma_fadd_mod_left(a + b + f0, f1);
        lemma_fadd_pairs(a, f0, b, f1);
    }
}

/// Enumerating all `2^k` boolean assignments computes the hypercube sum.
pub proof fn lemma_hyp_sum_enumerate(g: MultiPoly, prefix: Seq<int>, k: nat)
    ensures
        eval_sum_upto(g, prefix, k, pow2(k)) == hyp_sum(g, prefix, k),
    decreases k,
{
    lemma2_to64();
    if k == 0 {
        assert(pow2(0) == 1);
        assert(prefix + bits_seq(0, 0) =~= prefix);
        assert(eval_sum_upto(g, prefix, 0, 0) == 0);
        assert(eval_sum_upto(g, prefix, 0, 1) == fadd(0, g.spec_eval(prefix)));
        lemma_fadd_zero(g.spec_eval(prefix));
        lemma_terms_value_bound(g.terms@, prefix);
        lemma_fmod_small(g.spec_eval(prefix));
    } else {
        lemma_pow2_unfold(k);
        lemma_sum_split(g, prefix, k, pow2((k - 1) as nat));
        lemma_hyp_sum_enumerate(g, prefix.push(0), (k - 1) as nat);
        lemma_hyp_sum_enumerate(g, prefix.push(1), (k - 1) as nat);
    }
}

/// The boolean coordinate vector of index `n`: its low `n_bits` bits, least
/// significant first, as field elements.
pub fn bit_decompose(n: u64, n_bits: usize) -> (r: Vec<Fp>)
    ensures
        r@.len() == n_bits,
        fp_vals(r@) == bits_seq(n as int, n_bits as nat),
{
    let mut vals: Vec<Fp> = Vec::new();
    let mut m = n;
    let mut j: usize = 0;
    while j < n_bits
        invariant
            j <= n_bits,
            vals@.len() == j,
            fp_vals(vals@) + bits_seq(m as int, (n_bits - j) as nat) == bits_seq(
                n as int,
                n_bits as nat,
            ),
        decreases n_bits - j,
    {
        let ghost prev = vals@;
        let ghost m0 = m as int;
        let b = m % 2;
        let f = Fp::from_u64(b);
        vals.push(f);
        m = m / 2;
        j += 1;
        proof {
            lemma_fmod_small(b as int);
            assert(f@ == m0 % 2);
            assert(bits_seq(m0, (n_bits - j + 1) as nat) == seq![m0 % 2] + bits_seq(
                m0 / 2,
                (n_bits - j) as nat,
            ));
            assert(fp_vals(vals@) =~= fp_vals(prev).push(f@));
            assert(fp_vals(prev).push(m0 % 2) + bits_seq(m0 / 2, (n_bits - j) as nat) =~= fp_vals(
                prev,
            ) + (seq![m0 % 2] + bits_seq(m0 / 2, (n_bits - j) as nat)));
        }
    }
    proof {
        assert(fp_vals(vals@) + bits_seq(m as int, 0) =~= fp_vals(vals@));
    }
    vals
}

/// The brute-force reference sum of `g` over the whole boolean hypercube,
/// used to obtain the honest initial claim.
pub fn sum_over_boolean_hypercube(g: &MultiPoly) -> (r: Fp)
    requires
        g.wf(),
    ensures
        r@ == hyp_sum(*g, Seq::empty(), g.num_vars as nat),
{
    let n = g.num_vars;
    proof {
        lemma_u64_pow2_no_overflow(n as nat);
        lemma_u64_shl_is_mul(1u64, n as u64);
    }
    let count: u64 = 1u64 << (n as u64);
    proof {
        assert(count == pow2(n as nat));
    }
    let mut acc = Fp::zero();
    let mut j: u64 = 0;
    while j < count
        invariant
            g.wf(),
            n == g.num_vars,
            count == pow2(n as nat),
            j <= count,
            acc@ == eval_sum_upto(*g, Seq::empty(), n as nat, j as nat),
        decreases count - j,
    {
        let point = bit_decompose(j, n);
        let v = g.evaluate(&point);
        proof {
            assert(Seq::<int>::empty() + bits_seq(j as int, n as nat) =~= bits_seq(
                j as int,
                n as nat,
            ));
        }
        acc = acc.add(v);
        j += 1;
    }
    proof {
        lemma_hyp_sum_enumerate(*g, Seq::empty(), n as nat);
    }
    acc
}

} // verus!
