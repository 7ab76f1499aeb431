//! The two protocol roles. The prover reduces the multivariate polynomial to
//! one univariate round polynomial per variable; the verifier checks each
//! round polynomial against the degree table and the running target, samples
//! a challenge, and closes with a single oracle evaluation. The roles run as
//! independent units connected by rendezvous channels; every decision they
//! take is a verified function of their own state and the received values.

use vstd::prelude::*;
use vstd::arithmetic::power2::pow2;
use vstd::bits::{lemma_u64_pow2_no_overflow, lemma_u64_shl_is_mul};
use crate::field::{fadd, fmul, fpow, lemma_fmod_small, lemma_fmul_flat, lemma_fmul_one,
    lemma_fp_eq, lemma_fp_view_bound, Fp};
use crate::hypercube::{bit_decompose, bits_seq, eval_sum_upto, hyp_sum, lemma_hyp_sum_enumerate};
use crate::multipoly::{lemma_max_exp_ge, lemma_sorted_before, lemma_term_max_exp_ge, max_exp,
    powers_value, powers_wf, term_value, terms_value, MultiPoly, Term};
use crate::sample::random_field_element;
use crate::unipoly::{fp_vals, lemma_spec_degree_le, poly_eval, spec_degree, UniPoly};

verus! {

/// A full evaluation point: the received challenges, then the symbolic
/// variable's value `x`, then the boolean coordinates of the later variables.
pub open spec fn full_point(chal: Seq<int>, x: int, rest: Seq<int>) -> Seq<int> {
    chal + seq![x] + rest
}

#[verifier::external_type_specification]
#[verifier::external_body]
#[verifier::reject_recursive_types(T)]
pub struct ExSender<T>(crossbeam::channel::Sender<T>);

#[verifier::external_type_specification]
#[verifier::external_body]
#[verifier::reject_recursive_types(T)]
pub struct ExReceiver<T>(crossbeam::channel::Receiver<T>);

/// Relies on crossbeam-channel's Sender::send: blocks until the rendezvous
/// receive, and fails exactly when the receiver is gone. Nothing about the
/// peer can be promised, so only delivery success is reported.
#[verifier::external_body]
fn channel_send<T>(tx: &crossbeam::channel::Sender<T>, v: T) -> (ok: bool) {
    tx.send(v).is_ok()
}

/// Relies on crossbeam-channel's Receiver::recv: blocks for the next
/// message, and fails exactly when the sender is gone. The received value is
/// the peer's choice, so nothing is promised of it.
#[verifier::external_body]
fn channel_recv<T>(rx: &crossbeam::channel::Receiver<T>) -> (r: Option<T>) {
    rx.recv().ok()
}

/// The prover role: the polynomial and the challenges received so far.
pub struct Prover {
    pub g: MultiPoly,
    pub challenges: Vec<Fp>,
}

impl Prover {
    /// A fresh prover for one run over `g`.
    pub fn new(g: MultiPoly) -> (p: Prover)
        requires
            g.wf(),
        ensures
            p.g == g,
            p.challenges@.len() == 0,
    {
        Prover { g, challenges: Vec::new() }
    }

    /// Appends the challenge that closes the current round.
    pub fn receive_challenge(&mut self, r: Fp)
        requires
            old(self).challenges@.len() < old(self).g.num_vars,
        ensures
            final(self).g == old(self).g,
            final(self).challenges@ == old(self).challenges@.push(r),
    {
        self.challenges.push(r);
    }

    /// The partial evaluation of one term: every variable below `i` is
    /// replaced by its challenge, variable `i` is kept symbolic as the
    /// resulting degree, every variable above `i` is replaced by its boolean
    /// coordinate from `point`; the substituted factors fold into the
    /// coefficient.
    fn partial_eval_term(&self, term: &Term, i: usize, point: &Vec<Fp>) -> (res: (usize, Fp))
        requires
            self.g.wf(),
            powers_wf(term.powers@, self.g.num_vars as int),
            i < self.g.num_vars,
            self.challenges@.len() == i,
            point@.len() == self.g.num_vars - i - 1,
        ensures
            forall|x: int| #[trigger] fmul(res.1@, fpow(x, res.0 as nat)) == term_value(
                *term,
                full_point(fp_vals(self.challenges@), x, fp_vals(point@)),
            ),
            res.0 as nat <= crate::multipoly::term_max_exp(term.powers@, i as int),
    {
        let ghost chal = fp_vals(self.challenges@);
        let ghost rest = fp_vals(point@);
        let mut c = term.coeff;
        let mut deg: usize = 0;
        proof {
            use_type_invariant(&term.coeff);
            lemma_fp_view_bound(term.coeff);
            assert forall|x: int| #[trigger] fmul(c@, fpow(x, deg as nat)) == fmul(
                term.coeff@,
                powers_value(term.powers@.take(0), full_point(chal, x, rest)),
            ) by {
                lemma_fmul_one(c@);
                lemma_fmod_small(c@);
            }
        }
        let np = term.powers.len();
        for k in 0..np
            invariant
                np == term.powers@.len(),
                self.g.wf(),
                powers_wf(term.powers@, self.g.num_vars as int),
                i < self.g.num_vars,
                self.challenges@.len() == i,
                point@.len() == self.g.num_vars - i - 1,
                chal == fp_vals(self.challenges@),
                rest == fp_vals(point@),
                deg as nat <= crate::multipoly::term_max_exp(term.powers@, i as int),
                (forall|q: int| 0 <= q < k ==> (#[trigger] term.powers@[q]).var != i) ==> deg
                    == 0,
                forall|x: int| #[trigger] fmul(c@, fpow(x, deg as nat)) == fmul(
                    term.coeff@,
                    powers_value(term.powers@.take(k as int), full_point(chal, x, rest)),
                ),
        {
            let p = term.powers[k];
            proof {
                assert(term.powers@[k as int].var < self.g.num_vars);
            }
            let ghost pre = term.powers@.take(k as int);
            let ghost cur = term.powers@.take(k as int + 1);
            proof {
                assert(cur.drop_last() =~= pre);
                assert(cur.last() == term.powers@[k as int]);
            }
            if p.var == i {
                proof {
                    assert forall|q: int| 0 <= q < k implies (#[trigger] term.powers@[q]).var
                        != i by {
                        lemma_sorted_before(term.powers@, self.g.num_vars as int, q, k as int);
                    }
                    assert(deg == 0);
                }
                deg = p.exp;
                proof {
                    lemma_term_max_exp_ge(term.powers@, i as int, k as int);
                    use_type_invariant(&c);
                    lemma_fp_view_bound(c);
                    lemma_fmul_one(c@);
                    lemma_fmod_small(c@);
                    assert forall|x: int| #[trigger] fmul(c@, fpow(x, deg as nat)) == fmul(
                        term.coeff@,
                        powers_value(cur, full_point(chal, x, rest)),
                    ) by {
                        let fpt = full_point(chal, x, rest);
                        assert(fmul(c@, fpow(x, 0nat)) == fmul(term.coeff@, powers_value(pre, fpt)));
                        assert(c@ == fmul(term.coeff@, powers_value(pre, fpt)));
                        assert(fpt[i as int] == x);
                        assert(powers_value(cur, fpt) == fmul(
                            powers_value(pre, fpt),
                            fpow(x, p.exp as nat),
                        ));
                        lemma_fmul_flat(term.coeff@, powers_value(pre, fpt), fpow(x, p.exp as nat));
                    }
                }
            } else {
                let val = if p.var < i {
                    self.challenges[p.var]
                } else {
                    point[p.var - i - 1]
                };
                let f = val.pow(p.exp);
                let ghost c_pre = c@;
                c = c.mul(f);
                proof {
                    assert forall|x: int| #[trigger] fmul(c@, fpow(x, deg as nat)) == fmul(
                        term.coeff@,
                        powers_value(cur, full_point(chal, x, rest)),
                    ) by {
                        let fpt = full_point(chal, x, rest);
                        let px = fpow(x, deg as nat);
                        let fv = fpow(val@, p.exp as nat);
                        assert(fmul(c_pre, px) == fmul(term.coeff@, powers_value(pre, fpt)));
                        assert(fpt[p.var as int] == val@);
                        assert(powers_value(cur, fpt) == fmul(powers_value(pre, fpt), fv));
                        lemma_fmul_flat(c_pre, fv, px);
                        assert(c_pre * fv * px == c_pre * px * fv) by (nonlinear_arith);
                        lemma_fmul_flat(c_pre, px, fv);
                        lemma_fmul_flat(term.coeff@, powers_value(pre, fpt), fv);
                    }
                }
            }
        }
        proof {
            assert(term.powers@.take(np as int) =~= term.powers@);
        }
        (deg, c)
    }

    /// The reduction of `g` to a univariate polynomial in variable `i` at one
    /// boolean assignment `point` of the later variables: for every `x`, the
    /// result evaluates to `g` at challenges, `x`, `point`.
    pub fn partial_eval(&self, i: usize, point: &Vec<Fp>) -> (r: UniPoly)
        requires
            self.g.wf(),
            i < self.g.num_vars,
            self.challenges@.len() == i,
            point@.len() == self.g.num_vars - i - 1,
        ensures
            forall|x: int| #[trigger] poly_eval(r@, x) == self.g.spec_eval(
                full_point(fp_vals(self.challenges@), x, fp_vals(point@)),
            ),
            r@.len() <= max_exp(self.g.terms@, i as int) + 1,
    {
        let ghost chal = fp_vals(self.challenges@);
        let ghost rest = fp_vals(point@);
        let mut acc = UniPoly::zero();
        let nt = self.g.terms.len();
        for t in 0..nt
            invariant
                nt == self.g.terms@.len(),
                self.g.wf(),
                i < self.g.num_vars,
                self.challenges@.len() == i,
                point@.len() == self.g.num_vars - i - 1,
                chal == fp_vals(self.challenges@),
                rest == fp_vals(point@),
                acc@.len() <= max_exp(self.g.terms@, i as int) + 1,
                forall|x: int| #[trigger] poly_eval(acc@, x) == terms_value(
                    self.g.terms@.take(t as int),
                    full_point(chal, x, rest),
                ),
        {
            proof {
                assert(self.g.terms@.take(t as int + 1).drop_last() =~= self.g.terms@.take(
                    t as int,
                ));
                assert(self.g.terms@.take(t as int + 1).last() == self.g.terms@[t as int]);
                assert(powers_wf(self.g.terms@[t as int].powers@, self.g.num_vars as int));
            }
            let term = &self.g.terms[t];
            let (deg, cf) = self.partial_eval_term(term, i, point);
            let mono = UniPoly::monomial(deg, cf);
            let ghost acc_pre = acc@;
            acc = acc.add(&mono);
            proof {
                lemma_max_exp_ge(self.g.terms@, i as int, t as int);
                assert forall|x: int| #[trigger] poly_eval(acc@, x) == terms_value(
                    self.g.terms@.take(t as int + 1),
                    full_point(chal, x, rest),
                ) by {
                    assert(poly_eval(acc@, x) == fadd(poly_eval(acc_pre, x), poly_eval(mono@, x)));
                    assert(poly_eval(mono@, x) == fmul(cf@, fpow(x, deg as nat)));
                    assert(fmul(cf@, fpow(x, deg as nat)) == term_value(
                        *term,
                        full_point(chal, x, rest),
                    ));
                }
            }
        }
        proof {
            assert(self.g.terms@.take(nt as int) =~= self.g.terms@);
        }
        acc
    }

    /// The round polynomial for round `i`: the sum, over all boolean
    /// assignments of the later variables, of `g` with earlier variables
    /// fixed to the challenges and variable `i` kept symbolic. Its degree
    /// never exceeds the degree table's entry for variable `i`.
    pub fn partial_sum(&self, i: usize) -> (r: UniPoly)
        requires
            self.g.wf(),
            i < self.g.num_vars,
            self.challenges@.len() == i,
        ensures
            forall|x: int| #[trigger] poly_eval(r@, x) == hyp_sum(
                self.g,
                fp_vals(self.challenges@).push(x),
                (self.g.num_vars - i - 1) as nat,
            ),
            spec_degree(r@) <= max_exp(self.g.terms@, i as int),
    {
        let ghost chal = fp_vals(self.challenges@);
        let n_bits = self.g.num_vars - i - 1;
        proof {
            lemma_u64_pow2_no_overflow(n_bits as nat);
            lemma_u64_shl_is_mul(1u64, n_bits as u64);
        }
        let count: u64 = 1u64 << (n_bits as u64);
        let mut acc = UniPoly::zero();
        let mut j: u64 = 0;
        while j < count
            invariant
                self.g.wf(),
                i < self.g.num_vars,
                self.challenges@.len() == i,
                chal == fp_vals(self.challenges@),
                n_bits == self.g.num_vars - i - 1,
                count == pow2(n_bits as nat),
                j <= count,
                acc@.len() <= max_exp(self.g.terms@, i as int) + 1,
                forall|x: int| #[trigger] poly_eval(acc@, x) == eval_sum_upto(
                    self.g,
                    chal.push(x),
                    n_bits as nat,
                    j as nat,
                ),
            decreases count - j,
        {
            let point = bit_decompose(j, n_bits);
            let p = self.partial_eval(i, &point);
            let ghost acc_pre = acc@;
            acc = acc.add(&p);
            proof {
                assert forall|x: int| #[trigger] poly_eval(acc@, x) == eval_sum_upto(
                    self.g,
                    chal.push(x),
                    n_bits as nat,
                    (j + 1) as nat,
                ) by {
                    assert(chal.push(x) + bits_seq(j as int, n_bits as nat) =~= full_point(
                        chal,
                        x,
                        fp_vals(point@),
                    ));
                    assert(poly_eval(acc_pre, x) == eval_sum_upto(
                        self.g,
                        chal.push(x),
                        n_bits as nat,
                        j as nat,
                    ));
                    assert(poly_eval(p@, x) == self.g.spec_eval(
                        full_point(chal, x, fp_vals(point@)),
                    ));
                }
            }
            j = j + 1;
        }
        proof {
            assert forall|x: int| #[trigger] poly_eval(acc@, x) == hyp_sum(
                self.g,
                chal.push(x),
                n_bits as nat,
            ) by {
                lemma_hyp_sum_enumerate(self.g, chal.push(x), n_bits as nat);
            }
            lemma_spec_degree_le(acc@);
        }
        acc
    }

    /// Runs the prover's side of one protocol exchange: sends the claimed
    /// sum once, then for each variable in order computes and sends the
    /// round polynomial and blocks awaiting the challenge. Terminates
    /// silently if the peer channel disconnects at any blocking point: a
    /// communication abort, not a proof failure.
    pub fn start(
        self,
        sum: Fp,
        sum_tx: crossbeam::channel::Sender<Fp>,
        tx: crossbeam::channel::Sender<UniPoly>,
        rx: crossbeam::channel::Receiver<Fp>,
    )
        requires
            self.g.wf(),
            self.challenges@.len() == 0,
    {
        let mut prover = self;
        if !channel_send(&sum_tx, sum) {
            return;
        }
        let n = prover.g.num_vars;
        let mut i: usize = 0;
        while i < n
            invariant
                prover.g.wf(),
                n == prover.g.num_vars,
                i <= n,
                prover.challenges@.len() == i,
            decreases n - i,
        {
            let g_i = prover.partial_sum(i);
            if !channel_send(&tx, g_i) {
                return;
            }
            match channel_recv(&rx) {
                Some(challenge) => {
                    prover.receive_challenge(challenge);
                },
                None => {
                    return;
                },
            }
            i = i + 1;
        }
    }
}

/// The verifier role: the polynomial, the degree table computed once before
/// the first round, its own challenge list, the running target, and the
/// round counter.
pub struct Verifier {
    pub g: MultiPoly,
    pub degree_table: Vec<usize>,
    pub challenges: Vec<Fp>,
    pub target: Fp,
    pub round: usize,
}

/// The three checks of one round against a received round polynomial `p`
/// and the sampled challenge `r`: the degree bound, the consistency of
/// `p(0) + p(1)` with the running target, and, in the final round only, the
/// oracle check of `p(r)` against the polynomial at the full challenge
/// vector.
pub open spec fn round_checks_pass(v: Verifier, p: Seq<int>, r: int) -> bool {
    &&& spec_degree(p) <= v.degree_table@[v.round as int]
    &&& fadd(poly_eval(p, 0), poly_eval(p, 1)) == v.target@
    &&& (v.round + 1 == v.g.num_vars ==> poly_eval(p, r) == v.g.spec_eval(
        fp_vals(v.challenges@).push(r),
    ))
}

impl Verifier {
    /// Well-formedness: the degree table is the per-variable maximum
    /// exponent of `g`, and one challenge is held per completed round.
    pub open spec fn wf(self) -> bool {
        &&& self.g.wf()
        &&& self.degree_table@.len() == self.g.num_vars
        &&& forall|v: int| 0 <= v < self.g.num_vars ==> (#[trigger] self.degree_table@[v])
            as nat == max_exp(self.g.terms@, v)
        &&& self.challenges@.len() == self.round
        &&& self.round <= self.g.num_vars
    }

    /// A fresh verifier for one run over `g`; precomputes the degree table.
    pub fn new(g: MultiPoly) -> (v: Verifier)
        requires
            g.wf(),
        ensures
            v.wf(),
            v.g == g,
            v.round == 0,
            v.challenges@.len() == 0,
            v.target@ == 0,
    {
        let degree_table = build_var_degree_table(&g);
        Verifier { g, degree_table, challenges: Vec::new(), target: Fp::zero(), round: 0 }
    }

    /// Sets the running target to the claimed sum received before round 0.
    pub fn receive_claimed_sum(&mut self, sum: Fp)
        requires
            old(self).wf(),
            old(self).round == 0,
        ensures
            final(self).wf(),
            final(self).g == old(self).g,
            final(self).degree_table == old(self).degree_table,
            final(self).challenges@ == old(self).challenges@,
            final(self).round == 0,
            final(self).target == sum,
    {
        self.target = sum;
    }

    /// One round of checking: rejects if the round polynomial's degree
    /// exceeds the table's bound or if `p(0) + p(1)` misses the target;
    /// otherwise appends the challenge, moves the target to `p(challenge)`,
    /// and in the final round also requires the oracle check to pass. The
    /// verdict is exactly `round_checks_pass` on the prior state.
    pub fn process_round(&mut self, g_i: &UniPoly, challenge: Fp) -> (accept: bool)
        requires
            old(self).wf(),
            old(self).round < old(self).g.num_vars,
        ensures
            accept == round_checks_pass(*old(self), g_i@, challenge@),
            final(self).g == old(self).g,
            final(self).degree_table == old(self).degree_table,
            accept ==> final(self).wf() && final(self).round == old(self).round + 1
                && final(self).challenges@ == old(self).challenges@.push(challenge)
                && final(self).target@ == poly_eval(g_i@, challenge@),
            !accept ==> final(self).wf() && final(self).round == old(self).round
                && final(self).challenges@ == old(self).challenges@
                && final(self).target == old(self).target,
    {
        let deg = g_i.degree();
        if deg > self.degree_table[self.round] {
            return false;
        }
        let e0 = g_i.evaluate(Fp::zero());
        let e1 = g_i.evaluate(Fp::one());
        let s = e0.add(e1);
        proof {
            lemma_fp_eq(s, self.target);
        }
        if s != self.target {
            return false;
        }
        let new_target = g_i.evaluate(challenge);
        self.challenges.push(challenge);
        proof {
            assert(fp_vals(self.challenges@) =~= fp_vals(old(self).challenges@).push(challenge@));
        }
        if self.round + 1 == self.g.num_vars {
            let oracle = self.g.evaluate(&self.challenges);
            proof {
                lemma_fp_eq(new_target, oracle);
            }
            if new_target != oracle {
                self.challenges.pop();
                proof {
                    assert(self.challenges@ =~= old(self).challenges@);
                }
                return false;
            }
        }
        self.round = self.round + 1;
        self.target = new_target;
        true
    }

    /// Runs the verifier's side of one protocol exchange: receives the
    /// claimed sum, then for each round receives the round polynomial,
    /// checks it, samples a uniform challenge, and sends the challenge on
    /// (except after the last round). `Some(false)` is a protocol
    /// rejection; `None` is a communication abort without a verdict.
    pub fn start(
        self,
        sum_rx: crossbeam::channel::Receiver<Fp>,
        tx: crossbeam::channel::Sender<Fp>,
        rx: crossbeam::channel::Receiver<UniPoly>,
    ) -> (verdict: Option<bool>)
        requires
            self.wf(),
            self.round == 0,
    {
        let mut v = self;
        let sum = match channel_recv(&sum_rx) {
            Some(s) => s,
            None => {
                return None;
            },
        };
        v.receive_claimed_sum(sum);
        let n = v.g.num_vars;
        let mut i: usize = 0;
        while i < n
            invariant
                v.wf(),
                n == v.g.num_vars,
                i <= n,
                v.round == i,
            decreases n - i,
        {
            let g_i = match channel_recv(&rx) {
                Some(p) => p,
                None => {
                    return None;
                },
            };
            let challenge = random_field_element();
            if !v.process_round(&g_i, challenge) {
                return Some(false);
            }
            i = i + 1;
            if i < n {
                if !channel_send(&tx, challenge) {
                    return None;
                }
            }
        }
        Some(true)
    }
}

/// The degree table of `g`: for each variable, the maximum exponent with
/// which it appears across all terms, 0 if it never appears.
pub fn build_var_degree_table(g: &MultiPoly) -> (table: Vec<usize>)
    requires
        g.wf(),
    ensures
        table@.len() == g.num_vars,
        forall|v: int| 0 <= v < g.num_vars ==> (#[trigger] table@[v]) as nat == max_exp(
            g.terms@,
            v,
        ),
{
    let mut table: Vec<usize> = Vec::new();
    let nv = g.num_vars;
    let nt = g.terms.len();
    for v in 0..nv
        invariant
            nv == g.num_vars,
            nt == g.terms@.len(),
            table@.len() == v,
            forall|q: int| 0 <= q < v ==> (#[trigger] table@[q]) as nat == max_exp(g.terms@, q),
    {
        let mut m: usize = 0;
        for t in 0..nt
            invariant
                nv == g.num_vars,
                nt == g.terms@.len(),
                table@.len() == v,
                forall|q: int| 0 <= q < v ==> (#[trigger] table@[q]) as nat == max_exp(
                    g.terms@,
                    q,
                ),
                m as nat == max_exp(g.terms@.take(t as int), v as int),
        {
            proof {
                assert(g.terms@.take(t as int + 1).drop_last() =~= g.terms@.take(t as int));
                assert(g.terms@.take(t as int + 1).last() == g.terms@[t as int]);
            }
            let d = term_degree_of_var(&g.terms[t], v);
            if d > m {
                m = d;
            }
        }
        proof {
            assert(g.terms@.take(nt as int) =~= g.terms@);
        }
        table.push(m);
    }
    table
}

/// The maximum exponent of variable `v` within one term, 0 if absent.
fn term_degree_of_var(t: &Term, v: usize) -> (d: usize)
    ensures
        d as nat == crate::multipoly::term_max_exp(t.powers@, v as int),
{
    let mut m: usize = 0;
    let np = t.powers.len();
    for k in 0..np
        invariant
            np == t.powers@.len(),
            m as nat == crate::multipoly::term_max_exp(t.powers@.take(k as int), v as int),
    {
        proof {
            assert(t.powers@.take(k as int + 1).drop_last() =~= t.powers@.take(k as int));
            assert(t.powers@.take(k as int + 1).last() == t.powers@[k as int]);
        }
        let p = t.powers[k];
        if p.var == v && p.exp > m {
            m = p.exp;
        }
    }
    proof {
        assert(t.powers@.take(np as int) =~= t.powers@);
    }
    m
}

/// The honest round polynomial of round `i`, evaluated at `x`: the sum of
/// `g` over the boolean assignments of the later variables, behind the first
/// `i` challenges and `x` for variable `i`.
pub open spec fn honest_round_eval(g: MultiPoly, rs: Seq<int>, i: int, x: int) -> int {
    hyp_sum(g, rs.take(i).push(x), (g.num_vars - i - 1) as nat)
}

/// The verifier's running target before round `i` of an honest run: the
/// claimed sum at round 0, afterwards the previous round polynomial at the
/// previous challenge.
pub open spec fn round_target(g: MultiPoly, rs: Seq<int>, i: int) -> int {
    if i <= 0 {
        hyp_sum(g, Seq::empty(), g.num_vars as nat)
    } else {
        honest_round_eval(g, rs, i - 1, rs[i - 1])
    }
}

/// Completeness of an honest exchange: with the claimed sum equal to the
/// true hypercube sum and every round polynomial computed honestly, each
/// round's consistency check `g_i(0) + g_i(1) == target` holds for every
/// choice of challenges, and after the last round the target equals the
/// polynomial evaluated at the full challenge vector, so the final oracle
/// check holds as well.
pub proof fn lemma_completeness(g: MultiPoly, rs: Seq<int>, i: int)
    requires
        rs.len() == g.num_vars,
        0 <= i < g.num_vars,
    ensures
        fadd(honest_round_eval(g, rs, i, 0), honest_round_eval(g, rs, i, 1)) == round_target(
            g,
            rs,
            i,
        ),
        i == g.num_vars - 1 ==> round_target(g, rs, i + 1) == g.spec_eval(rs),
{
    if i == 0 {
        assert(rs.take(0) =~= Seq::<int>::empty());
    } else {
        assert(rs.take(i - 1).push(rs[i - 1]) =~= rs.take(i));
    }
    assert(round_target(g, rs, i) == hyp_sum(g, rs.take(i), (g.num_vars - i) as nat));
    if i == g.num_vars - 1 {
        assert(rs.take(i).push(rs[i]) =~= rs);
    }
}

/// An honest run is accepted: in any verifier state whose target is the
/// honest running target, a round polynomial that evaluates as the honest
/// round polynomial and respects the degree table passes every check of
/// `process_round`, and evaluating it at the round's challenge yields the
/// honest target of the next round. With the claimed sum equal to the true
/// hypercube sum this applies round after round, whatever challenges are
/// drawn, so the run ends in acceptance.
pub proof fn lemma_honest_round_accepted(v: Verifier, p: Seq<int>, rs: Seq<int>, challenge: int)
    requires
        v.wf(),
        v.round < v.g.num_vars,
        rs.len() == v.g.num_vars,
        fp_vals(v.challenges@) == rs.take(v.round as int),
        challenge == rs[v.round as int],
        v.target@ == round_target(v.g, rs, v.round as int),
        spec_degree(p) <= max_exp(v.g.terms@, v.round as int),
        forall|x: int| #[trigger] poly_eval(p, x) == honest_round_eval(
            v.g,
            rs,
            v.round as int,
            x,
        ),
    ensures
        round_checks_pass(v, p, challenge),
        poly_eval(p, challenge) == round_target(v.g, rs, v.round as int + 1),
{
    let i = v.round as int;
    lemma_completeness(v.g, rs, i);
    if i + 1 == v.g.num_vars {
        assert(rs.take(i).push(rs[i]) =~= rs);
        assert(fp_vals(v.challenges@).push(challenge) =~= rs);
    }
}

/// The full hypercube sum splits as the honest first-round polynomial
/// evaluated at 0 plus evaluated at 1.
pub proof fn lemma_full_sum_split(g: MultiPoly)
    requires
        g.num_vars >= 1,
    ensures
        hyp_sum(g, Seq::empty(), g.num_vars as nat) == fadd(
            hyp_sum(g, seq![0int], (g.num_vars - 1) as nat),
            hyp_sum(g, seq![1int], (g.num_vars - 1) as nat),
        ),
{
    assert(Seq::<int>::empty().push(0int) =~= seq![0int]);
    assert(Seq::<int>::empty().push(1int) =~= seq![1int]);
}

} // verus!
