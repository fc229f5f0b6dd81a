use grobner::config::GrobnerConfig;
use grobner::config::GrobnerError;
use grobner::bit_packed_exponent::BitPackedExponent;
use grobner::cyclic::cyclic_polynomials;
use grobner::engine::are_bases_equivalent;
use grobner::engine::naive_grobner_basis;
use grobner::int_mod_p::IntModP;
use grobner::order::TermOrder;
use grobner::poly::Polynomial;
use grobner::poly::Term;
use grobner::reduce::ReductionPolicy;
use grobner::vec_exponent::VecExponent;

fn cfg(order: TermOrder, modulus: u64) -> GrobnerConfig {
    GrobnerConfig::new(order, modulus).expect("usable configuration")
}

fn term(c: u64, exps: &[u32], modulus: u64) -> Term<VecExponent> {
    Term {
        coefficient: IntModP::new(c as u128, modulus as u128),
        exponents: VecExponent::new(exps.to_vec()),
    }
}

fn poly(c: &GrobnerConfig, terms: Vec<Term<VecExponent>>) -> Polynomial<VecExponent> {
    Polynomial::new(c, terms).expect("well-formed input")
}

fn pterm(c: u64, exps: [u8; 6], modulus: u64) -> Term<BitPackedExponent> {
    Term {
        coefficient: IntModP::new(c as u128, modulus as u128),
        exponents: BitPackedExponent::from_vec(exps),
    }
}

fn ppoly(c: &GrobnerConfig, terms: Vec<Term<BitPackedExponent>>) -> Polynomial<BitPackedExponent> {
    Polynomial::new(c, terms).expect("well-formed input")
}

fn term_of(p: &Polynomial<VecExponent>, k: usize) -> (u64, Vec<u32>) {
    (p.terms[k].coefficient.i as u64, p.terms[k].exponents.exponents.clone())
}

#[test]
fn s_polynomial_canonicalizes_to_golden_value() {
    // (x^2 y + y^2 z + z^2 x, x y z - 1) under Lex, modulus 7:
    // z * p1 - x * p2 = x z^3 + x + y^2 z^2
    let c = cfg(TermOrder::Lex, 7);
    let p1 = poly(
        &c,
        vec![term(1, &[2, 1, 0], 7), term(1, &[0, 2, 1], 7), term(1, &[1, 0, 2], 7)],
    );
    let p2 = poly(&c, vec![term(1, &[1, 1, 1], 7), term(6, &[0, 0, 0], 7)]);
    let s = Polynomial::s_polynomial(&c, &p1, &p2).unwrap();
    assert_eq!(s.terms.len(), 3);
    assert_eq!(term_of(&s, 0), (1, vec![1, 0, 3]));
    assert_eq!(term_of(&s, 1), (1, vec![1, 0, 0]));
    assert_eq!(term_of(&s, 2), (1, vec![0, 2, 2]));
}

#[test]
fn s_polynomial_rejects_zero_input() {
    let c = cfg(TermOrder::Lex, 7);
    let p = poly(&c, vec![term(1, &[1], 7)]);
    let zero = poly(&c, vec![]);
    assert_eq!(
        Polynomial::s_polynomial(&c, &p, &zero).unwrap_err(),
        GrobnerError::MalformedInput
    );
}

fn cyclic3_reference(c: &GrobnerConfig) -> Vec<Polynomial<VecExponent>> {
    // the classical lexicographic basis of the cyclic-3 system:
    // { x + y + z, y^2 + y z + z^2, z^3 - 1 }
    vec![
        poly(
            c,
            vec![term(1, &[1, 0, 0], 7), term(1, &[0, 1, 0], 7), term(1, &[0, 0, 1], 7)],
        ),
        poly(
            c,
            vec![term(1, &[0, 2, 0], 7), term(1, &[0, 1, 1], 7), term(1, &[0, 0, 2], 7)],
        ),
        poly(c, vec![term(1, &[0, 0, 3], 7), term(6, &[0, 0, 0], 7)]),
    ]
}

#[test]
fn cyclic3_basis_is_ideal_equivalent_to_reference() {
    let c = cfg(TermOrder::Lex, 7);
    let system = cyclic_polynomials(&c, 3).unwrap();
    let basis = naive_grobner_basis(&c, system, 100_000).unwrap();
    assert!(!basis.is_empty());
    for g in &basis {
        assert!(!g.terms.is_empty());
        assert_eq!(g.terms[0].coefficient.i, 1); // monic
    }
    let reference = cyclic3_reference(&c);
    assert_eq!(are_bases_equivalent(&c, &basis, &reference, 100_000).unwrap(), true);
    // a foreign polynomial is not in the ideal
    let alien = vec![poly(&c, vec![term(1, &[1, 0, 0], 7)])];
    assert_eq!(are_bases_equivalent(&c, &basis, &alien, 100_000).unwrap(), false);
}

#[test]
fn inputs_reduce_to_zero_against_final_basis() {
    let c = cfg(TermOrder::Lex, 7);
    let system = cyclic_polynomials(&c, 3).unwrap();
    let basis = naive_grobner_basis(&c, cyclic_polynomials(&c, 3).unwrap(), 100_000).unwrap();
    for f in &system {
        let r = f.reduce(&c, &basis, ReductionPolicy::AccumulateRemainder, 100_000).unwrap();
        assert!(r.terms.is_empty());
    }
}

#[test]
fn identical_inputs_give_identical_basis() {
    let c = cfg(TermOrder::GrLex, 13);
    let sys1 = cyclic_polynomials(&c, 3).unwrap();
    let sys2 = cyclic_polynomials(&c, 3).unwrap();
    let b1 = naive_grobner_basis(&c, sys1, 100_000).unwrap();
    let b2 = naive_grobner_basis(&c, sys2, 100_000).unwrap();
    assert_eq!(b1.len(), b2.len());
    for k in 0..b1.len() {
        assert!(b1[k].canon_eq(&b2[k]));
    }
}

#[test]
fn leading_term_is_order_maximal() {
    let c = cfg(TermOrder::GrLex, 7);
    let p = poly(
        &c,
        vec![
            term(1, &[1, 1, 0], 7),
            term(3, &[0, 0, 1], 7),
            term(2, &[2, 0, 0], 7),
            term(5, &[0, 0, 0], 7),
        ],
    );
    for k in 0..p.terms.len() {
        assert!(p.terms[0].compare(&p.terms[k], TermOrder::GrLex) >= 0);
        if k > 0 {
            assert_eq!(p.terms[0].compare(&p.terms[k], TermOrder::GrLex), 1);
        }
    }
}

#[test]
fn reduce_extra_polynomial_to_zero() {
    // against { x^2 - y, x y - 1, x - y^2 } the polynomial x y^2 - y
    // reduces to the zero polynomial
    let c = cfg(TermOrder::Lex, 7);
    let basis = vec![
        poly(&c, vec![term(1, &[2, 0], 7), term(6, &[0, 1], 7)]),
        poly(&c, vec![term(1, &[1, 1], 7), term(6, &[0, 0], 7)]),
        poly(&c, vec![term(1, &[1, 0], 7), term(6, &[0, 2], 7)]),
    ];
    let extra = poly(&c, vec![term(1, &[1, 2], 7), term(6, &[0, 1], 7)]);
    let r = extra.reduce(&c, &basis, ReductionPolicy::AccumulateRemainder, 10_000).unwrap();
    assert!(r.terms.is_empty());
}

#[test]
fn packed_and_dense_representations_agree() {
    // the same system, within the packed form's limits, in both
    // representations: the canonical bases must match term for term
    let c = cfg(TermOrder::Lex, 7);
    let dense = vec![
        poly(&c, vec![term(1, &[1, 1, 0, 0, 0, 0], 7), term(6, &[0, 0, 1, 0, 0, 0], 7)]),
        poly(
            &c,
            vec![
                term(1, &[2, 0, 0, 0, 0, 0], 7),
                term(1, &[0, 2, 0, 0, 0, 0], 7),
                term(6, &[0, 0, 0, 0, 0, 0], 7),
            ],
        ),
    ];
    let packed = vec![
        ppoly(&c, vec![pterm(1, [1, 1, 0, 0, 0, 0], 7), pterm(6, [0, 0, 1, 0, 0, 0], 7)]),
        ppoly(
            &c,
            vec![
                pterm(1, [2, 0, 0, 0, 0, 0], 7),
                pterm(1, [0, 2, 0, 0, 0, 0], 7),
                pterm(6, [0, 0, 0, 0, 0, 0], 7),
            ],
        ),
    ];
    let bd = naive_grobner_basis(&c, dense, 100_000).unwrap();
    let bp = naive_grobner_basis(&c, packed, 100_000).unwrap();
    assert_eq!(bd.len(), bp.len());
    for k in 0..bd.len() {
        assert_eq!(bd[k].terms.len(), bp[k].terms.len());
        for t in 0..bd[k].terms.len() {
            assert_eq!(
                bd[k].terms[t].coefficient.i,
                bp[k].terms[t].coefficient.i
            );
            let dexp = &bd[k].terms[t].exponents.exponents;
            let pw = bp[k].terms[t].exponents.exponents;
            for v in 0..6 {
                let pbyte = (pw >> (40 - 8 * v)) & 0xFF;
                assert_eq!(dexp[v] as u64, pbyte);
            }
        }
    }
}

#[test]
fn engine_rejects_zero_input_polynomial() {
    let c = cfg(TermOrder::Lex, 7);
    let zero = poly(&c, vec![]);
    let p = poly(&c, vec![term(1, &[1], 7)]);
    assert_eq!(
        naive_grobner_basis(&c, vec![p, zero], 100).unwrap_err(),
        GrobnerError::MalformedInput
    );
}

#[test]
fn engine_rejects_mismatched_arity() {
    let c = cfg(TermOrder::Lex, 7);
    let p1 = poly(&c, vec![term(1, &[1], 7)]);
    let p2 = poly(&c, vec![term(1, &[1, 0], 7)]);
    assert_eq!(
        naive_grobner_basis(&c, vec![p1, p2], 100).unwrap_err(),
        GrobnerError::MalformedInput
    );
}

#[test]
fn engine_reports_exhausted_budget() {
    let c = cfg(TermOrder::Lex, 7);
    let system = cyclic_polynomials(&c, 3).unwrap();
    assert_eq!(
        naive_grobner_basis(&c, system, 0).unwrap_err(),
        GrobnerError::BudgetExceeded
    );
}

#[test]
fn basis_elements_are_distinct_and_reduced() {
    let c = cfg(TermOrder::Lex, 7);
    let system = cyclic_polynomials(&c, 3).unwrap();
    let basis = naive_grobner_basis(&c, system, 100_000).unwrap();
    for i in 0..basis.len() {
        for j in 0..basis.len() {
            if i != j {
                assert!(!basis[i].canon_eq(&basis[j]));
            }
        }
    }
}

#[test]
fn cyclic_generator_builds_the_expected_system() {
    let c = cfg(TermOrder::Lex, 7);
    let system = cyclic_polynomials(&c, 3).unwrap();
    assert_eq!(system.len(), 3);
    // f1 = x + y + z
    assert_eq!(term_of(&system[0], 0), (1, vec![1, 0, 0]));
    assert_eq!(term_of(&system[0], 1), (1, vec![0, 1, 0]));
    assert_eq!(term_of(&system[0], 2), (1, vec![0, 0, 1]));
    // f2 = x y + x z + y z
    assert_eq!(term_of(&system[1], 0), (1, vec![1, 1, 0]));
    assert_eq!(term_of(&system[1], 1), (1, vec![1, 0, 1]));
    assert_eq!(term_of(&system[1], 2), (1, vec![0, 1, 1]));
    // f3 = x y z - 1
    assert_eq!(term_of(&system[2], 0), (1, vec![1, 1, 1]));
    assert_eq!(term_of(&system[2], 1), (6, vec![0, 0, 0]));
}

#[test]
fn cyclic4_inputs_reduce_to_zero_against_basis() {
    let c = cfg(TermOrder::GrLex, 7);
    let system = cyclic_polynomials(&c, 4).unwrap();
    let basis = naive_grobner_basis(&c, cyclic_polynomials(&c, 4).unwrap(), 500_000).unwrap();
    assert!(!basis.is_empty());
    for g in &basis {
        assert_eq!(g.terms[0].coefficient.i, 1);
    }
    for f in &system {
        let r = f.reduce(&c, &basis, ReductionPolicy::AccumulateRemainder, 500_000).unwrap();
        assert!(r.terms.is_empty());
    }
}

#[test]
fn proportional_inputs_collapse_in_finalize() {
    // two proportional polynomials annihilate each other in the final
    // self-reduction pass: each reduces to zero against the other, so
    // the returned basis is empty even though the ideal is not
    let c = cfg(TermOrder::Lex, 7);
    let p1 = poly(&c, vec![term(1, &[1, 0], 7)]);
    let p2 = poly(&c, vec![term(2, &[1, 0], 7)]);
    let basis = naive_grobner_basis(&c, vec![p1, p2], 1_000).unwrap();
    assert!(basis.is_empty());
}

#[test]
fn cyclic_generator_arity_and_windows() {
    let c = cfg(TermOrder::GrLex, 13);
    let system = cyclic_polynomials(&c, 4).unwrap();
    assert_eq!(system.len(), 4);
    // f2 of four variables: the four windows of two consecutive variables
    assert_eq!(system[1].terms.len(), 4);
    for t in &system[1].terms {
        assert_eq!(t.coefficient.i, 1);
        let total: u32 = t.exponents.exponents.iter().sum();
        assert_eq!(total, 2);
    }
    // the last polynomial: the full product minus one
    assert_eq!(system[3].terms.len(), 2);
    assert_eq!(system[3].terms[0].exponents.exponents, vec![1, 1, 1, 1]);
    assert_eq!(system[3].terms[1].coefficient.i, 12);
}

#[test]
fn oracle_is_algorithmic_not_ideal_equality() {
    // over a set that is not a Groebner basis, normal forms are not
    // unique: checking { x, x*y + y } against itself leaves the
    // remainder y for the second element
    let c = cfg(TermOrder::Lex, 7);
    let a = vec![
        poly(&c, vec![term(1, &[1, 0], 7)]),
        poly(&c, vec![term(1, &[1, 1], 7), term(1, &[0, 1], 7)]),
    ];
    let b = vec![
        poly(&c, vec![term(1, &[1, 0], 7)]),
        poly(&c, vec![term(1, &[1, 1], 7), term(1, &[0, 1], 7)]),
    ];
    assert_eq!(are_bases_equivalent(&c, &a, &b, 1_000).unwrap(), false);
}

#[test]
fn fully_reduced_input_succeeds_without_budget() {
    // success is owed when no cancellation step is needed, whatever the
    // fuel: the input comes back unchanged even with none
    let c = cfg(TermOrder::Lex, 7);
    let f = poly(&c, vec![term(1, &[1, 0], 7), term(1, &[0, 0], 7)]);
    let divs = vec![poly(&c, vec![term(1, &[0, 1], 7)])];
    let r = f.reduce(&c, &divs, ReductionPolicy::AccumulateRemainder, 0).unwrap();
    assert_eq!(r.terms.len(), 2);
}

#[test]
fn s_polynomial_reports_exponent_overflow() {
    // within the packed form, scaling up to the leading-term lcm can
    // leave the eight-bit exponent range; the error names exactly that
    let c = cfg(TermOrder::Lex, 7);
    let p1 = ppoly(&c, vec![pterm(1, [200, 0, 200, 0, 0, 0], 7)]);
    // scaling the trailing term x*z^100 up by x^199*z^200 overflows z
    let p2 = ppoly(
        &c,
        vec![pterm(1, [1, 1, 0, 0, 0, 0], 7), pterm(1, [1, 0, 100, 0, 0, 0], 7)],
    );
    assert_eq!(
        Polynomial::s_polynomial(&c, &p1, &p2).unwrap_err(),
        GrobnerError::ExponentLimitExceeded
    );
}
