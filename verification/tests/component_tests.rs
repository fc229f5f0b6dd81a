use grobner::config::GrobnerConfig;
use grobner::config::GrobnerError;
use grobner::bit_packed_exponent::BitPackedExponent;
use grobner::exponent::IExponent;
use grobner::int_mod_p::IOrdered;
use grobner::int_mod_p::IntModP;
use grobner::lcg::lcg;
use grobner::modular::mod_inverse;
use grobner::order::TermOrder;
use grobner::poly::Polynomial;
use grobner::poly::Term;
use grobner::primes::find_prime_congruent_one_mod_n;
use grobner::primes::prime_sieve;
use grobner::reduce::ReductionPolicy;
use grobner::vec_exponent::VecExponent;

fn cfg(order: TermOrder, modulus: u64) -> GrobnerConfig {
    GrobnerConfig::new(order, modulus).expect("usable configuration")
}

fn term(c: u64, exps: &[u32], modulus: u64) -> Term<VecExponent> {
    Term {
        coefficient: IntModP::new(c as u128, modulus as u128),
        exponents: VecExponent::new(exps.to_vec()),
    }
}

fn poly(c: &GrobnerConfig, terms: Vec<Term<VecExponent>>) -> Polynomial<VecExponent> {
    Polynomial::new(c, terms).expect("well-formed input")
}

fn term_of(p: &Polynomial<VecExponent>, k: usize) -> (u64, Vec<u32>) {
    (p.terms[k].coefficient.i as u64, p.terms[k].exponents.exponents.clone())
}

#[test]
fn configuration_rejects_nonprime_modulus() {
    assert_eq!(GrobnerConfig::new(TermOrder::Lex, 6).unwrap_err(), GrobnerError::ConfigurationError);
    assert_eq!(GrobnerConfig::new(TermOrder::Lex, 1).unwrap_err(), GrobnerError::ConfigurationError);
    assert!(GrobnerConfig::new(TermOrder::Lex, 7).is_ok());
    assert!(GrobnerConfig::new(TermOrder::GrLex, 2).is_ok());
}

#[test]
fn canonicalization_sorts_merges_and_drops() {
    let c = cfg(TermOrder::Lex, 7);
    // 3xy + 5xy + y + 7x^2 (= 0 mod 7)  ->  xy + y
    let p = poly(
        &c,
        vec![
            term(3, &[1, 1], 7),
            term(5, &[1, 1], 7),
            term(1, &[0, 1], 7),
            term(7, &[2, 0], 7),
        ],
    );
    assert_eq!(p.terms.len(), 2);
    assert_eq!(term_of(&p, 0), (1, vec![1, 1]));
    assert_eq!(term_of(&p, 1), (1, vec![0, 1]));
}

#[test]
fn constructor_rejects_mismatched_arity() {
    let c = cfg(TermOrder::Lex, 7);
    let r = Polynomial::new(&c, vec![term(1, &[1, 0], 7), term(1, &[0, 1, 2], 7)]);
    assert_eq!(r.unwrap_err(), GrobnerError::MalformedInput);
}

#[test]
fn constructor_rejects_foreign_modulus() {
    let c = cfg(TermOrder::Lex, 7);
    let r = Polynomial::new(&c, vec![term(1, &[1, 0], 13)]);
    assert_eq!(r.unwrap_err(), GrobnerError::MalformedInput);
}

#[test]
fn term_order_lex() {
    let a = term(1, &[2, 0, 0], 7);
    let b = term(1, &[1, 5, 0], 7);
    assert_eq!(a.compare(&b, TermOrder::Lex), 1);
    assert_eq!(b.compare(&a, TermOrder::Lex), -1);
    assert_eq!(a.compare(&a, TermOrder::Lex), 0);
}

#[test]
fn term_order_grlex_prefers_degree() {
    let a = term(1, &[2, 0, 0], 7); // degree 2
    let b = term(1, &[1, 5, 0], 7); // degree 6
    assert_eq!(a.compare(&b, TermOrder::GrLex), -1);
    let c = term(1, &[0, 2, 0], 7); // degree 2, lex smaller
    assert_eq!(a.compare(&c, TermOrder::GrLex), 1);
}

#[test]
fn term_order_revlex_ties_on_reversed_vector() {
    // equal degree 3: rev(a) = [2,0,1], rev(b) = [1,2,0]
    let a = term(1, &[1, 0, 2], 7);
    let b = term(1, &[0, 2, 1], 7);
    assert_eq!(a.compare(&b, TermOrder::RevLex), 1);
    assert_eq!(b.compare(&a, TermOrder::RevLex), -1);
}

#[test]
fn addition_merges_and_cancels() {
    let c = cfg(TermOrder::Lex, 7);
    let p1 = poly(&c, vec![term(1, &[1, 0], 7), term(2, &[0, 1], 7)]);
    let p2 = poly(&c, vec![term(6, &[1, 0], 7), term(3, &[0, 1], 7)]);
    let s = p1.add(&c, &p2);
    // (1+6)x = 0, (2+3)y = 5y
    assert_eq!(s.terms.len(), 1);
    assert_eq!(term_of(&s, 0), (5, vec![0, 1]));
}

#[test]
fn subtraction_negates_unmatched_terms() {
    let c = cfg(TermOrder::Lex, 7);
    let p1 = poly(&c, vec![term(1, &[1, 0], 7), term(2, &[0, 1], 7)]);
    let p2 = poly(&c, vec![term(3, &[1, 0], 7), term(5, &[0, 0], 7)]);
    let d = p1.subtract(&c, &p2);
    // (1-3)x = 5x, 2y, -5 = 2
    assert_eq!(d.terms.len(), 3);
    assert_eq!(term_of(&d, 0), (5, vec![1, 0]));
    assert_eq!(term_of(&d, 1), (2, vec![0, 1]));
    assert_eq!(term_of(&d, 2), (2, vec![0, 0]));
}

#[test]
fn multiply_by_term_scales_both_parts() {
    let c = cfg(TermOrder::Lex, 7);
    let p = poly(&c, vec![term(2, &[1, 0], 7), term(3, &[0, 1], 7)]);
    let t = term(3, &[1, 1], 7);
    let r = p.multiply_by_term(&c, &t).unwrap();
    // 2x * 3xy = 6 x^2 y ; 3y * 3xy = 2 x y^2
    assert_eq!(r.terms.len(), 2);
    assert_eq!(term_of(&r, 0), (6, vec![2, 1]));
    assert_eq!(term_of(&r, 1), (2, vec![1, 2]));
}

#[test]
fn make_monic_divides_by_leading_coefficient() {
    let c = cfg(TermOrder::Lex, 7);
    let p = poly(&c, vec![term(3, &[2, 0], 7), term(5, &[0, 0], 7)]);
    let q = p.make_monic(&c);
    // inverse of 3 mod 7 is 5: [3, 5] -> [1, 25 % 7 = 4]
    assert_eq!(term_of(&q, 0), (1, vec![2, 0]));
    assert_eq!(term_of(&q, 1), (4, vec![0, 0]));
}

#[test]
fn modular_inverse_and_division() {
    assert_eq!(mod_inverse(3, 7), 5);
    assert_eq!(mod_inverse(1, 2), 1);
    let a = IntModP::new(6, 7);
    let b = IntModP::new(3, 7);
    let q = a.d(&b);
    assert_eq!(q.i, 2);
    let z = IntModP::new(0, 7);
    assert_eq!(a.try_d(&z).unwrap_err(), GrobnerError::DivisionByZero);
    assert_eq!(a.try_d(&b).unwrap().i, 2);
}

#[test]
fn int_mod_p_field_operations() {
    let a = IntModP::new(5, 7);
    let b = IntModP::new(4, 7);
    assert_eq!(a.a(&b).i, 2);
    assert_eq!(a.s(&b).i, 1);
    assert_eq!(b.s(&a).i, 6);
    assert_eq!(a.m(&b).i, 6);
    assert!(a.is_one() == false);
    assert!(IntModP::new(8, 7).is_one());
    assert!(a.zero().is_zero());
    assert!(b.lt(&a));
    assert!(a.gt(&b));
    assert!(a.e(&a.copy()));
    assert!(!a.e(&b));
    assert!(a.ge(&b) && b.le(&a));
}

#[test]
fn reduction_policies_differ_on_lower_terms() {
    let c = cfg(TermOrder::Lex, 7);
    // f = x + y, divisor set { y }: the leading term is irreducible
    let f = poly(&c, vec![term(1, &[1, 0], 7), term(1, &[0, 1], 7)]);
    let divs = vec![poly(&c, vec![term(1, &[0, 1], 7)])];
    let fast = f.reduce(&c, &divs, ReductionPolicy::StopOnIrreducible, 100).unwrap();
    assert_eq!(fast.terms.len(), 2); // returned unchanged
    let full = f.reduce(&c, &divs, ReductionPolicy::AccumulateRemainder, 100).unwrap();
    assert_eq!(full.terms.len(), 1); // the tail y was still reduced away
    assert_eq!(term_of(&full, 0), (1, vec![1, 0]));
}

#[test]
fn reduction_of_already_reduced_input_is_identity() {
    let c = cfg(TermOrder::Lex, 7);
    let f = poly(&c, vec![term(2, &[1, 0, 0], 7), term(3, &[0, 0, 1], 7)]);
    // no leading monomial of the divisors divides x or z
    let divs = vec![poly(&c, vec![term(1, &[0, 2, 0], 7), term(6, &[0, 0, 0], 7)])];
    let r = f.reduce(&c, &divs, ReductionPolicy::AccumulateRemainder, 100).unwrap();
    assert_eq!(r.terms.len(), f.terms.len());
    for k in 0..r.terms.len() {
        assert_eq!(term_of(&r, k), term_of(&f, k));
    }
}

#[test]
fn reduce_rejects_zero_divisor() {
    let c = cfg(TermOrder::Lex, 7);
    let f = poly(&c, vec![term(1, &[1], 7)]);
    let zero = poly(&c, vec![]);
    let r = f.reduce(&c, &vec![zero], ReductionPolicy::AccumulateRemainder, 100);
    assert_eq!(r.unwrap_err(), GrobnerError::MalformedInput);
}

#[test]
fn reduce_reports_exhausted_budget() {
    let c = cfg(TermOrder::Lex, 7);
    let f = poly(&c, vec![term(1, &[1], 7)]);
    let d = poly(&c, vec![term(1, &[1], 7)]);
    let r = f.reduce(&c, &vec![d], ReductionPolicy::AccumulateRemainder, 0);
    assert_eq!(r.unwrap_err(), GrobnerError::BudgetExceeded);
}

#[test]
fn packed_form_reports_exponent_overflow() {
    let c = cfg(TermOrder::Lex, 7);
    let p = Polynomial::new(
        &c,
        vec![Term {
            coefficient: IntModP::new(1, 7),
            exponents: BitPackedExponent::from_vec([200, 0, 0, 0, 0, 0]),
        }],
    )
    .unwrap();
    let t = Term {
        coefficient: IntModP::new(1, 7),
        exponents: BitPackedExponent::from_vec([100, 0, 0, 0, 0, 0]),
    };
    assert_eq!(
        p.multiply_by_term(&c, &t).unwrap_err(),
        GrobnerError::ExponentLimitExceeded
    );
}

#[test]
fn packed_layout_matches_documentation() {
    let e = BitPackedExponent::from_vec([1, 2, 3, 0, 0, 4]);
    // degree 10 in the top 16 bits
    assert_eq!(e.exponents >> 48, 10);
    assert_eq!((e.exponents >> 40) & 0xFF, 1);
    assert_eq!((e.exponents >> 32) & 0xFF, 2);
    assert_eq!((e.exponents >> 24) & 0xFF, 3);
    assert_eq!(e.exponents & 0xFF, 4);
    let raw = BitPackedExponent::new(e.exponents);
    assert_eq!(raw.exponents, e.exponents);
}

#[test]
fn prime_sieve_matches_known_primes() {
    let table = prime_sieve(20);
    let primes: Vec<usize> = (0..20).filter(|i| table[*i]).collect();
    assert_eq!(primes, vec![2, 3, 5, 7, 11, 13, 17, 19]);
}

#[test]
fn find_prime_finds_smallest_congruent_one() {
    assert_eq!(find_prime_congruent_one_mod_n(6), 7);
    assert_eq!(find_prime_congruent_one_mod_n(4), 5);
    assert_eq!(find_prime_congruent_one_mod_n(1), 2);
    assert_eq!(find_prime_congruent_one_mod_n(10), 11);
}

#[test]
fn lcg_produces_expected_sequence() {
    let mut r = lcg::new(12345, 1345, 16645, 1013904);
    // (16645 * 12345 + 1013904) % 1345 == 1269
    assert_eq!(r.next_int(), 1269);
    let next = (16645i64 * 1269 + 1013904) % 1345;
    assert_eq!(r.next_int() as i64, next);
    // machine remainder semantics: the result keeps the dividend's sign
    let mut n = lcg::new(-7, -5, 3, 1);
    assert_eq!(n.next_int(), (3i32 * -7 + 1) % -5);
    let mut n2 = lcg::new(-7, 5, 3, 1);
    assert_eq!(n2.next_int(), (3i32 * -7 + 1) % 5);
}

#[test]
fn make_monic_of_zero_polynomial_is_zero() {
    let c = cfg(TermOrder::Lex, 7);
    let zero = poly(&c, vec![]);
    let q = zero.make_monic(&c);
    assert!(q.is_zero());
}

#[test]
fn canonical_equality_ignores_nothing() {
    let c = cfg(TermOrder::Lex, 7);
    let p1 = poly(&c, vec![term(1, &[1, 0], 7), term(2, &[0, 1], 7)]);
    let p2 = poly(&c, vec![term(2, &[0, 1], 7), term(8, &[1, 0], 7)]);
    let p3 = poly(&c, vec![term(1, &[1, 0], 7), term(3, &[0, 1], 7)]);
    assert!(p1.canon_eq(&p2));
    assert!(!p1.canon_eq(&p3));
    let d = p1.dup();
    assert!(d.canon_eq(&p1));
}

#[test]
fn packed_invariant_check_detects_stale_degree() {
    let good = BitPackedExponent::from_vec([1, 1, 0, 0, 0, 0]);
    assert!(good.inv_check());
    // a raw word whose cached degree disagrees with its bytes
    let bad = BitPackedExponent::new(good.exponents ^ (1u64 << 48));
    assert!(!bad.inv_check());
}

#[test]
fn dense_exponent_operations() {
    let a = VecExponent::new(vec![2, 1, 0]);
    let b = VecExponent::new(vec![1, 1, 3]);
    let s = a.add(&b).unwrap();
    assert_eq!(s.exponents, vec![3, 2, 3]);
    let l = a.lcm(&b);
    assert_eq!(l.exponents, vec![2, 1, 3]);
    let d = l.sub(&a);
    assert_eq!(d.exponents, vec![0, 0, 3]);
    assert_eq!(a.degree(), 3);
    assert!(l.can_reduce(&a));
    assert!(!a.can_reduce(&b));
    assert!(a.exp_eq(&a.dup()));
    assert_eq!(a.lex_compare(&b), 1);
    assert_eq!(b.lex_compare(&a), -1);
    // reversed-priority comparison looks at the last variable first
    assert_eq!(a.rev_lex_compare(&b), -1);
}
