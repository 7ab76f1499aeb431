use sumcheck::field::Fp;
use sumcheck::hypercube::sum_over_boolean_hypercube;
use sumcheck::multipoly::{MultiPoly, Term, VarPower};
use sumcheck::protocol::{build_var_degree_table, Prover, Verifier};
use sumcheck::sample::random_field_element;

fn fp(x: u64) -> Fp {
    Fp::from_u64(x)
}

/// g(x0, x1) = x0*x1 + x1
fn scenario_poly() -> MultiPoly {
    let terms = vec![
        Term {
            coeff: fp(1),
            powers: vec![VarPower { var: 0, exp: 1 }, VarPower { var: 1, exp: 1 }],
        },
        Term { coeff: fp(1), powers: vec![VarPower { var: 1, exp: 1 }] },
    ];
    MultiPoly::new(2, terms).unwrap()
}

fn random_poly(n_vars: usize, n_terms: usize) -> MultiPoly {
    let mut terms: Vec<Term> = Vec::new();
    for _ in 0..n_terms {
        let mut powers: Vec<VarPower> = Vec::new();
        for v in 0..n_vars {
            if rand::random::<u32>() % 3 == 0 {
                let exp: usize = 1 + (rand::random::<u32>() % 3) as usize;
                powers.push(VarPower { var: v, exp });
            }
        }
        terms.push(Term { coeff: random_field_element(), powers });
    }
    MultiPoly::new(n_vars, terms).unwrap()
}

fn run_protocol(g: MultiPoly, claimed_sum: Fp) -> Option<bool> {
    let prover = Prover::new(g.clone());
    let verifier = Verifier::new(g);
    let (sum_tx, sum_rx) = crossbeam::channel::bounded(0);
    let (g_tx, g_rx) = crossbeam::channel::bounded(0);
    let (c_tx, c_rx) = crossbeam::channel::bounded(0);
    crossbeam::scope(|s| {
        s.spawn(move |_| {
            prover.start(claimed_sum, sum_tx, g_tx, c_rx);
        });
        verifier.start(sum_rx, c_tx, g_rx)
    })
    .unwrap()
}

#[test]
fn lib_it_works() {
    let g = random_poly(4, 10);
    let sum = sum_over_boolean_hypercube(&g);
    let res = run_protocol(g, sum);
    assert_eq!(res, Some(true));
}

#[test]
fn it_works_with_bad_sum() {
    // use a random number instead of the actual sum
    let sum = random_field_element();
    let g = random_poly(4, 10);
    let res = run_protocol(g, sum);
    assert_eq!(res, Some(false));
}

#[test]
fn scenario_sum_is_three() {
    // sum over {0,1}^2 of x0*x1 + x1: 0 + 1 + 0 + 2 = 3
    let g = scenario_poly();
    assert_eq!(sum_over_boolean_hypercube(&g), fp(3));
}

#[test]
fn scenario_honest_claim_accepted() {
    let res = run_protocol(scenario_poly(), fp(3));
    assert_eq!(res, Some(true));
}

#[test]
fn scenario_wrong_claim_rejected() {
    let res = run_protocol(scenario_poly(), fp(4));
    assert_eq!(res, Some(false));
}

#[test]
fn bad_sums_rejected_with_high_probability() {
    let mut rejected: u32 = 0;
    for _ in 0..100 {
        let g = random_poly(3, 5);
        let truth = sum_over_boolean_hypercube(&g);
        let bad = truth.add(fp(1));
        if run_protocol(g, bad) == Some(false) {
            rejected += 1;
        }
    }
    assert!(rejected >= 99);
}

#[test]
fn first_round_polynomial_splits_the_hypercube_sum() {
    let g = random_poly(4, 6);
    let total = sum_over_boolean_hypercube(&g);
    let prover = Prover::new(g);
    let g_0 = prover.partial_sum(0);
    let split = g_0.evaluate(Fp::zero()).add(g_0.evaluate(Fp::one()));
    assert_eq!(split, total);
}

#[test]
fn honest_round_polynomials_respect_the_degree_table() {
    let g = random_poly(4, 8);
    let table = build_var_degree_table(&g);
    let mut prover = Prover::new(g);
    for i in 0..4 {
        let g_i = prover.partial_sum(i);
        assert!(g_i.degree() <= table[i]);
        prover.receive_challenge(random_field_element());
    }
}

#[test]
fn manual_round_by_round_honest_run() {
    let g = scenario_poly();
    let mut prover = Prover::new(g.clone());
    let mut verifier = Verifier::new(g);
    verifier.receive_claimed_sum(fp(3));
    for i in 0..2 {
        let g_i = prover.partial_sum(i);
        let challenge = random_field_element();
        assert!(verifier.process_round(&g_i, challenge));
        prover.receive_challenge(challenge);
    }
}

#[test]
fn verifier_stopping_early_aborts_the_prover_cleanly() {
    let g = scenario_poly();
    let prover = Prover::new(g);
    let (sum_tx, sum_rx) = crossbeam::channel::bounded(0);
    let (g_tx, g_rx) = crossbeam::channel::bounded(0);
    let (c_tx, c_rx) = crossbeam::channel::bounded::<Fp>(0);
    crossbeam::scope(|s| {
        let handle = s.spawn(move |_| {
            prover.start(fp(3), sum_tx, g_tx, c_rx);
        });
        // play the verifier for round 0 only, then walk away
        let _sum = sum_rx.recv().unwrap();
        let _g_0 = g_rx.recv().unwrap();
        drop(g_rx);
        drop(c_tx);
        // the prover's next channel operation fails and it returns silently
        handle.join().unwrap();
    })
    .unwrap();
}

#[test]
fn zero_variable_polynomial_runs_no_rounds() {
    let g = MultiPoly::new(0, vec![Term { coeff: fp(5), powers: Vec::new() }]).unwrap();
    let res = run_protocol(g, fp(5));
    assert_eq!(res, Some(true));
}
