use sumcheck::field::Fp;
use sumcheck::multipoly::{MultiPoly, Term, VarPower};
use sumcheck::protocol::build_var_degree_table;
use sumcheck::unipoly::UniPoly;

fn fp(x: u64) -> Fp {
    Fp::from_u64(x)
}

/// g(x0, x1) = x0*x1 + x1
fn scenario_poly() -> MultiPoly {
    let terms = vec![
        Term {
            coeff: fp(1),
            powers: vec![VarPower { var: 0, exp: 1 }, VarPower { var: 1, exp: 1 }],
        },
        Term { coeff: fp(1), powers: vec![VarPower { var: 1, exp: 1 }] },
    ];
    MultiPoly::new(2, terms).unwrap()
}

#[test]
fn unipoly_evaluate() {
    let p = UniPoly::from_coefficients(vec![fp(1), fp(2)]);
    assert_eq!(p.evaluate(fp(3)), fp(7));
    assert_eq!(UniPoly::zero().evaluate(fp(9)), fp(0));
}

#[test]
fn unipoly_add_merges_same_degree() {
    let p = UniPoly::from_coefficients(vec![fp(1), fp(2)]);
    let q = UniPoly::from_coefficients(vec![fp(3)]);
    let r = p.add(&q);
    assert_eq!(r.evaluate(fp(5)), fp(14));
    assert_eq!(r.coefficient_count(), 2);
}

#[test]
fn unipoly_degree_skips_trailing_zeros() {
    assert_eq!(UniPoly::from_coefficients(vec![fp(0), fp(1), fp(0)]).degree(), 1);
    assert_eq!(UniPoly::from_coefficients(vec![fp(0), fp(0)]).degree(), 0);
    assert_eq!(UniPoly::zero().degree(), 0);
    assert_eq!(UniPoly::monomial(3, fp(2)).degree(), 3);
}

#[test]
fn unipoly_monomial_evaluates() {
    let m = UniPoly::monomial(2, fp(3));
    assert_eq!(m.evaluate(fp(5)), fp(75));
}

#[test]
fn multipoly_rejects_malformed_terms() {
    // exponent zero
    let t = vec![Term { coeff: fp(1), powers: vec![VarPower { var: 0, exp: 0 }] }];
    assert!(MultiPoly::new(1, t).is_none());
    // variable out of range
    let t = vec![Term { coeff: fp(1), powers: vec![VarPower { var: 2, exp: 1 }] }];
    assert!(MultiPoly::new(2, t).is_none());
    // variables not strictly increasing
    let t = vec![Term {
        coeff: fp(1),
        powers: vec![VarPower { var: 1, exp: 1 }, VarPower { var: 0, exp: 1 }],
    }];
    assert!(MultiPoly::new(2, t).is_none());
    // a repeated variable
    let t = vec![Term {
        coeff: fp(1),
        powers: vec![VarPower { var: 0, exp: 1 }, VarPower { var: 0, exp: 2 }],
    }];
    assert!(MultiPoly::new(1, t).is_none());
    // too many variables to enumerate
    assert!(MultiPoly::new(64, Vec::new()).is_none());
    assert!(MultiPoly::new(2, Vec::new()).is_some());
}

#[test]
fn multipoly_evaluate() {
    let g = scenario_poly();
    assert!(g.is_well_formed());
    assert_eq!(g.count_vars(), 2);
    // g(2, 3) = 2*3 + 3 = 9
    assert_eq!(g.evaluate(&vec![fp(2), fp(3)]), fp(9));
    // a constant term evaluates to itself
    let c = MultiPoly::new(1, vec![Term { coeff: fp(5), powers: Vec::new() }]).unwrap();
    assert_eq!(c.evaluate(&vec![fp(7)]), fp(5));
}

#[test]
fn degree_table_is_max_exponent_per_variable() {
    // g = x0^2 * x1 + x1^3
    let g = MultiPoly::new(
        2,
        vec![
            Term {
                coeff: fp(1),
                powers: vec![VarPower { var: 0, exp: 2 }, VarPower { var: 1, exp: 1 }],
            },
            Term { coeff: fp(1), powers: vec![VarPower { var: 1, exp: 3 }] },
        ],
    )
    .unwrap();
    assert_eq!(build_var_degree_table(&g), vec![2, 3]);
}

#[test]
fn degree_table_gives_zero_for_absent_variable() {
    // three variables, but only x1 appears
    let g = MultiPoly::new(
        3,
        vec![Term { coeff: fp(4), powers: vec![VarPower { var: 1, exp: 2 }] }],
    )
    .unwrap();
    assert_eq!(build_var_degree_table(&g), vec![0, 2, 0]);
}
