//! Multivariate polynomials over the field: an immutable, fixed variable
//! count and a sparse list of (coefficient, monomial) terms, where a monomial
//! is a sparse mapping from variable index to positive exponent. Also the
//! degree table: per variable, the maximum exponent across all terms.

use vstd::prelude::*;
use crate::field::{fadd, fmul, fpow, lemma_fmod_bound, lemma_fmod_small, lemma_fmul_flat,
    lemma_fmul_one, modulus, Fp};
use crate::unipoly::fp_vals;

verus! {

/// The largest variable count the engine enumerates over (boolean
/// assignments are indexed by a 64-bit word).
pub const MAX_VARS: usize = 63;

/// One variable of a monomial with its positive exponent.
#[derive(Clone, Copy, PartialEq, Eq, Structural, Debug)]
pub struct VarPower {
    pub var: usize,
    pub exp: usize,
}

/// One term: a coefficient times a monomial.
#[derive(Clone, Debug)]
pub struct Term {
    pub coeff: Fp,
    pub powers: Vec<VarPower>,
}

/// A monomial is well formed for `n` variables: variable indices below `n`,
/// strictly increasing, exponents positive.
pub open spec fn powers_wf(ps: Seq<VarPower>, n: int) -> bool {
    &&& forall|k: int| 0 <= k < ps.len() ==> (#[trigger] ps[k]).var < n && ps[k].exp >= 1
    &&& forall|k: int| #![trigger ps[k].var] 0 <= k && k + 1 < ps.len() ==> ps[k].var < ps[k
        + 1].var
}

/// The value of a monomial's power product at a point.
pub open spec fn powers_value(ps: Seq<VarPower>, point: Seq<int>) -> int
    decreases ps.len(),
{
    if ps.len() == 0 {
        1
    } else {
        fmul(
            powers_value(ps.drop_last(), point),
            fpow(point[ps.last().var as int], ps.last().exp as nat),
        )
    }
}

/// The value of one term at a point.
pub open spec fn term_value(t: Term, point: Seq<int>) -> int {
    fmul(t.coeff@, powers_value(t.powers@, point))
}

/// The value of a term list at a point: the field sum of the term values.
pub open spec fn terms_value(ts: Seq<Term>, point: Seq<int>) -> int
    decreases ts.len(),
{
    if ts.len() == 0 {
        0
    } else {
        fadd(terms_value(ts.drop_last(), point), term_value(ts.last(), point))
    }
}

/// The maximum exponent of variable `v` within one monomial, 0 if absent.
pub open spec fn term_max_exp(ps: Seq<VarPower>, v: int) -> nat
    decreases ps.len(),
{
    if ps.len() == 0 {
        0
    } else {
        let rest = term_max_exp(ps.drop_last(), v);
        let cur: nat = if ps.last().var == v {
            ps.last().exp as nat
        } else {
            0
        };
        if cur >= rest {
            cur
        } else {
            rest
        }
    }
}

/// The maximum exponent of variable `v` across a term list, 0 if absent.
pub open spec fn max_exp(ts: Seq<Term>, v: int) -> nat
    decreases ts.len(),
{
    if ts.len() == 0 {
        0
    } else {
        let rest = max_exp(ts.drop_last(), v);
        let cur = term_max_exp(ts.last().powers@, v);
        if cur >= rest {
            cur
        } else {
            rest
        }
    }
}

/// A value of a term list is a reduced representative.
pub proof fn lemma_terms_value_bound(ts: Seq<Term>, point: Seq<int>)
    ensures
        0 <= terms_value(ts, point) < modulus(),
{
    if ts.len() == 0 {
    } else {
        lemma_fmod_bound(
            terms_value(ts.drop_last(), point) + term_value(ts.last(), point),
        );
    }
}

/// In a well-formed monomial, earlier entries name strictly smaller variables.
pub proof fn lemma_sorted_before(ps: Seq<VarPower>, n: int, q: int, r: int)
    requires
        powers_wf(ps, n),
        0 <= q < r < ps.len(),
    ensures
        ps[q].var < ps[r].var,
    decreases r - q,
{
    assert(ps[r - 1].var < ps[r].var);
    if q + 1 < r {
        lemma_sorted_before(ps, n, q, r - 1);
    }
}

/// The per-term maximum exponent dominates every entry for that variable.
pub proof fn lemma_term_max_exp_ge(ps: Seq<VarPower>, v: int, idx: int)
    requires
        0 <= idx < ps.len(),
        ps[idx].var == v,
    ensures
        term_max_exp(ps, v) >= ps[idx].exp,
    decreases ps.len(),
{
    if idx < ps.len() - 1 {
        assert(ps.drop_last()[idx] == ps[idx]);
        lemma_term_max_exp_ge(ps.drop_last(), v, idx);
    }
}

/// The table entry dominates every term's maximum exponent.
pub proof fn lemma_max_exp_ge(ts: Seq<Term>, v: int, t: int)
    requires
        0 <= t < ts.len(),
    ensures
        max_exp(ts, v) >= term_max_exp(ts[t].powers@, v),
    decreases ts.len(),
{
    if t < ts.len() - 1 {
        assert(ts.drop_last()[t] == ts[t]);
        lemma_max_exp_ge(ts.drop_last(), v, t);
    }
}

/// A multivariate polynomial: a fixed variable count and a sparse term list.
#[derive(Clone, Debug)]
pub struct MultiPoly {
    pub num_vars: usize,
    pub terms: Vec<Term>,
}

impl MultiPoly {
    /// Structural validity: every monomial is well formed and the variable
    /// count small enough for boolean assignments to be enumerable.
    pub open spec fn wf(self) -> bool {
        &&& self.num_vars <= MAX_VARS
        &&& forall|t: int| 0 <= t < self.terms@.len() ==> powers_wf(
            (#[trigger] self.terms@[t]).powers@,
            self.num_vars as int,
        )
    }

    /// The value of the polynomial at a point, as a spec-level integer.
    pub open spec fn spec_eval(self, point: Seq<int>) -> int {
        terms_value(self.terms@, point)
    }

    /// Builds a polynomial after checking validity; rejects exactly the
    /// inputs that are not well formed.
    pub fn new(num_vars: usize, terms: Vec<Term>) -> (r: Option<MultiPoly>)
        ensures
            r is Some <==> (num_vars <= MAX_VARS && forall|t: int|
                0 <= t < terms@.len() ==> powers_wf(
                    (#[trigger] terms@[t]).powers@,
                    num_vars as int,
                )),
            r matches Some(p) ==> p.num_vars == num_vars && p.terms@ == terms@ && p.wf(),
    {
        if num_vars > MAX_VARS {
            return None;
        }
        if !terms_ok(num_vars, &terms) {
            return None;
        }
        Some(MultiPoly { num_vars, terms })
    }

    /// The fixed variable count.
    pub fn count_vars(&self) -> (n: usize)
        ensures
            n == self.num_vars,
    {
        self.num_vars
    }

    /// Reports whether the polynomial is structurally valid.
    pub fn is_well_formed(&self) -> (b: bool)
        ensures
            b == self.wf(),
    {
        self.num_vars <= MAX_VARS && terms_ok(self.num_vars, &self.terms)
    }

    /// Evaluates the polynomial at a full point.
    #[verifier::rlimit(50)]
    pub fn evaluate(&self, point: &Vec<Fp>) -> (r: Fp)
        requires
            self.wf(),
            point@.len() == self.num_vars,
        ensures
            r@ == self.spec_eval(fp_vals(point@)),
    {
        let mut acc = Fp::zero();
        let nt = self.terms.len();
        for t in 0..nt
            invariant
                nt == self.terms@.len(),
                self.wf(),
                point@.len() == self.num_vars,
                acc@ == terms_value(self.terms@.take(t as int), fp_vals(point@)),
        {
            proof {
                assert(self.terms@.take(t as int + 1).drop_last() =~= self.terms@.take(t as int));
                assert(self.terms@.take(t as int + 1).last() == self.terms@[t as int]);
                assert(powers_wf(self.terms@[t as int].powers@, self.num_vars as int));
                assert forall|k: int| 0 <= k < self.terms@[t as int].powers@.len() implies
                    (#[trigger] self.terms@[t as int].powers@[k]).var < point@.len() by {}
            }
            let tv = eval_term(&self.terms[t], point);
            acc = acc.add(tv);
        }
        proof {
            assert(self.terms@.take(nt as int) =~= self.terms@);
        }
        acc
    }
}

/// Checks every monomial of a term list for well-formedness.
fn terms_ok(num_vars: usize, terms: &Vec<Term>) -> (b: bool)
    ensures
        b == forall|t: int| 0 <= t < terms@.len() ==> powers_wf(
            (#[trigger] terms@[t]).powers@,
            num_vars as int,
        ),
{
    let nt = terms.len();
    for t in 0..nt
        invariant
            nt == terms@.len(),
            forall|q: int| 0 <= q < t ==> powers_wf(
                (#[trigger] terms@[q]).powers@,
                num_vars as int,
            ),
    {
        if !powers_ok(&terms[t].powers, num_vars) {
            return false;
        }
    }
    true
}

/// Checks one monomial for well-formedness.
fn powers_ok(ps: &Vec<VarPower>, n: usize) -> (b: bool)
    ensures
        b == powers_wf(ps@, n as int),
{
    let len = ps.len();
    for k in 0..len
        invariant
            len == ps@.len(),
            forall|q: int| 0 <= q < k ==> (#[trigger] ps@[q]).var < n && ps@[q].exp >= 1,
            forall|q: int| #![trigger ps@[q].var] 0 <= q && q + 1 <= k && q + 1 < ps@.len()
                ==> ps@[q].var < ps@[q + 1].var,
    {
        let p = ps[k];
        if p.var >= n || p.exp < 1 {
            return false;
        }
        if k + 1 < len && ps[k].var >= ps[k + 1].var {
            return false;
        }
    }
    proof {
        assert forall|q: int| 0 <= q < ps@.len() implies (#[trigger] ps@[q]).var < n
            && ps@[q].exp >= 1 by {}
        assert forall|q: int| #![trigger ps@[q].var] 0 <= q && q + 1 < ps@.len() implies
            ps@[q].var < ps@[q + 1].var by {}
    }
    true
}

/// Evaluates one term at a full point.
fn eval_term(t: &Term, point: &Vec<Fp>) -> (r: Fp)
    requires
        forall|k: int| 0 <= k < t.powers@.len() ==> (#[trigger] t.powers@[k]).var
            < point@.len(),
    ensures
        r@ == term_value(*t, fp_vals(point@)),
{
    let mut acc = t.coeff;
    proof {
        use_type_invariant(&t.coeff);
        crate::field::lemma_fp_view_bound(t.coeff);
        lemma_fmod_small(t.coeff@);
        lemma_fmul_one(t.coeff@);
        assert(acc@ == fmul(t.coeff@, powers_value(t.powers@.take(0), fp_vals(point@))));
    }
    let np = t.powers.len();
    for k in 0..np
        invariant
            np == t.powers@.len(),
            forall|q: int| 0 <= q < t.powers@.len() ==> (#[trigger] t.powers@[q]).var
                < point@.len(),
            acc@ == fmul(t.coeff@, powers_value(t.powers@.take(k as int), fp_vals(point@))),
    {
        let p = t.powers[k];
        let f = point[p.var].pow(p.exp);
        proof {
            let pv = fp_vals(point@);
            let pre = t.powers@.take(k as int);
            assert(t.powers@.take(k as int + 1).drop_last() =~= pre);
            assert(t.powers@.take(k as int + 1).last() == t.powers@[k as int]);
            assert(pv[p.var as int] == point@[p.var as int]@);
            lemma_fmul_flat(t.coeff@, powers_value(pre, pv), fpow(point@[p.var as int]@, p.exp as nat));
        }
        acc = acc.mul(f);
    }
    proof {
        assert(t.powers@.take(np as int) =~= t.powers@);
    }
    acc
}

} // verus!
