//! The S-polynomial generator and the Buchberger saturation loop.
//!
//! The engine seeds a work queue with all unordered index pairs, processes
//! pairs until the queue empties or the externally supplied budget runs
//! out, and finally self-reduces, normalizes and de-duplicates the basis.

use vstd::prelude::*;
use crate::config::GrobnerConfig;
use crate::config::GrobnerError;
use crate::config::cfg_wf;
use crate::exponent::IExponent;
use crate::exponent::divides_exps;
use crate::exponent::lcm_exps;
use crate::exponent::sub_exps;
use crate::poly::Polynomial;
use crate::poly::Term;
use crate::poly::coeff_of;
use crate::poly::poly_arity;
use crate::poly::poly_wf;
use crate::poly::pview;
use crate::poly::scale_view;
use crate::poly::term_wf;
use crate::poly::coeffs_scaled_by;
use crate::poly::lemma_coeff_of_absent;
use crate::poly::lemma_coeff_of_mul_congruent;
use crate::poly::lemma_coeff_of_reduced;
use crate::poly::tview;
use crate::reduce::ReductionPolicy;
use crate::reduce::cert_arity;
use crate::reduce::cert_ok;
use crate::reduce::cert_scale_poly;
use crate::reduce::cert_sub;
use crate::reduce::combo_coeff;
use crate::reduce::combo_subst;
use crate::reduce::divs_views;
use crate::reduce::fully_reduced;
use crate::reduce::in_ideal;
use crate::reduce::lemma_combo_reduced;
use crate::reduce::lemma_combo_scale;
use crate::reduce::lemma_mod_cancel_add;
use crate::reduce::reduces_to;
use crate::reduce::scale_cert;
use crate::reduce::views_arity;

verus! {

/// A nonzero normal form: the polynomial reduces to a nonzero,
/// fully reduced remainder against the divisors.
pub open spec fn has_nonzero_normal_form(
    m: nat,
    p: Seq<(nat, Seq<nat>)>,
    divs: Seq<Seq<(nat, Seq<nat>)>>,
) -> bool {
    exists|rv: Seq<(nat, Seq<nat>)>|
        rv.len() > 0 && fully_reduced(rv, divs) && reduces_to(m, p, rv, divs)
}

impl<E: IExponent> Polynomial<E> {
    /// The S-polynomial of two nonzero polynomials: each is scaled up to
    /// the least common multiple of the leading monomials, with the
    /// modular convention that avoids inversion — `p1` is scaled by
    /// `p2`'s leading coefficient and vice versa — and the results are
    /// subtracted, cancelling the leading terms.
    ///
    /// Rejects with `MalformedInput` exactly a zero input or a mismatched
    /// arity.
    pub fn s_polynomial(cfg: &GrobnerConfig, p1: &Polynomial<E>, p2: &Polynomial<E>) -> (r: Result<
        Polynomial<E>,
        GrobnerError,
    >)
        requires
            cfg_wf(*cfg),
            poly_wf(*p1, cfg.order, cfg.modulus as nat),
            poly_wf(*p2, cfg.order, cfg.modulus as nat),
        ensures
            match r {
                Ok(s) => {
                    &&& poly_wf(s, cfg.order, cfg.modulus as nat)
                    &&& forall|k: int|
                        0 <= k < s.terms@.len() ==> (#[trigger] s.terms@[k]).exponents.exps().len()
                            == poly_arity(*p1)
                    &&& forall|x: Seq<nat>|
                        (coeff_of(cfg.modulus as nat, pview(s), x) + coeff_of(
                            cfg.modulus as nat,
                            scale_view(
                                pview(*p2),
                                pview(*p1)[0].0,
                                sub_exps(
                                    lcm_exps(pview(*p1)[0].1, pview(*p2)[0].1),
                                    pview(*p2)[0].1,
                                ),
                            ),
                            x,
                        )) % (cfg.modulus as nat) == coeff_of(
                            cfg.modulus as nat,
                            scale_view(
                                pview(*p1),
                                pview(*p2)[0].0,
                                sub_exps(
                                    lcm_exps(pview(*p1)[0].1, pview(*p2)[0].1),
                                    pview(*p1)[0].1,
                                ),
                            ),
                            x,
                        )
                },
                Err(e) => e == GrobnerError::MalformedInput || e
                    == GrobnerError::ExponentLimitExceeded,
            },
            r == Err::<Polynomial<E>, GrobnerError>(GrobnerError::MalformedInput) <==> (
            p1.terms@.len() == 0 || p2.terms@.len() == 0 || poly_arity(*p1) != poly_arity(*p2)),
            r == Err::<Polynomial<E>, GrobnerError>(GrobnerError::ExponentLimitExceeded) <==> (!(
            p1.terms@.len() == 0 || p2.terms@.len() == 0 || poly_arity(*p1) != poly_arity(*p2))
                && (crate::poly::scale_overflows(
                p1.terms@,
                sub_exps(lcm_exps(pview(*p1)[0].1, pview(*p2)[0].1), pview(*p1)[0].1),
            ) || crate::poly::scale_overflows(
                p2.terms@,
                sub_exps(lcm_exps(pview(*p1)[0].1, pview(*p2)[0].1), pview(*p2)[0].1),
            ))),
    {
        let ghost m = cfg.modulus as nat;
        if p1.terms.len() == 0 || p2.terms.len() == 0 {
            return Err(GrobnerError::MalformedInput);
        }
        proof {
            assert(term_wf(p1.terms@[0], m, poly_arity(*p1)));
            assert(term_wf(p2.terms@[0], m, poly_arity(*p2)));
        }
        if p1.terms[0].exponents.arity() != p2.terms[0].exponents.arity() {
            return Err(GrobnerError::MalformedInput);
        }
        let lcm_exp = p1.terms[0].lcm(&p2.terms[0]);
        proof {
            assert(divides_exps(p1.terms@[0].exponents.exps(), lcm_exp.exps()));
            assert(divides_exps(p2.terms@[0].exponents.exps(), lcm_exp.exps()));
        }
        let shift1 = lcm_exp.sub(&p1.terms[0].exponents);
        let shift2 = lcm_exp.sub(&p2.terms[0].exponents);
        proof {
            assert(pview(*p1)[0] == crate::poly::tview(p1.terms@[0]));
            assert(pview(*p2)[0] == crate::poly::tview(p2.terms@[0]));
            assert(shift1.exps() == sub_exps(
                lcm_exps(pview(*p1)[0].1, pview(*p2)[0].1),
                pview(*p1)[0].1,
            ));
            assert(shift2.exps() == sub_exps(
                lcm_exps(pview(*p1)[0].1, pview(*p2)[0].1),
                pview(*p2)[0].1,
            ));
        }
        let scale1 = Term { coefficient: p2.terms[0].coefficient.copy(), exponents: shift1 };
        let scaled1 = match p1.multiply_by_term(cfg, &scale1) {
            Ok(s) => s,
            Err(_) => {
                return Err(GrobnerError::ExponentLimitExceeded);
            },
        };
        let scale2 = Term { coefficient: p1.terms[0].coefficient.copy(), exponents: shift2 };
        let scaled2 = match p2.multiply_by_term(cfg, &scale2) {
            Ok(s) => s,
            Err(_) => {
                return Err(GrobnerError::ExponentLimitExceeded);
            },
        };
        let s = scaled1.subtract(cfg, &scaled2);
        proof {
            assert(pview(*p1)[0] == crate::poly::tview(p1.terms@[0]));
            assert(pview(*p2)[0] == crate::poly::tview(p2.terms@[0]));
            assert(shift1.exps().len() == poly_arity(*p1));
            assert(shift2.exps().len() == poly_arity(*p1));
            let lm1 = pview(*p1)[0].1;
            let lm2 = pview(*p2)[0].1;
            let lv = lcm_exps(lm1, lm2);
            assert(lcm_exp.exps() == lv);
            assert(scale1.coefficient.i as nat == pview(*p2)[0].0);
            assert(scale1.exponents.exps() == sub_exps(lv, lm1));
            assert(scale2.coefficient.i as nat == pview(*p1)[0].0);
            assert(scale2.exponents.exps() == sub_exps(lv, lm2));
            assert forall|x: Seq<nat>|
                (coeff_of(m, pview(s), x) + coeff_of(
                    m,
                    scale_view(pview(*p2), pview(*p1)[0].0, sub_exps(lv, lm2)),
                    x,
                )) % m == coeff_of(
                    m,
                    scale_view(pview(*p1), pview(*p2)[0].0, sub_exps(lv, lm1)),
                    x,
                ) by {
                assert(coeff_of(m, pview(scaled1), x) == coeff_of(
                    m,
                    scale_view(pview(*p1), pview(*p2)[0].0, sub_exps(lv, lm1)),
                    x,
                ));
                assert(coeff_of(m, pview(scaled2), x) == coeff_of(
                    m,
                    scale_view(pview(*p2), pview(*p1)[0].0, sub_exps(lv, lm2)),
                    x,
                ));
                assert((coeff_of(m, pview(s), x) + coeff_of(m, pview(scaled2), x)) % m == coeff_of(
                    m,
                    pview(scaled1),
                    x,
                ));
            }
            assert forall|k: int| 0 <= k < s.terms@.len() implies (
            #[trigger] s.terms@[k]).exponents.exps().len() == poly_arity(*p1) by {
                assert(s.terms@[k].exponents.exps().len() == crate::poly::join_arity(
                    &scaled1,
                    &scaled2,
                ));
                if scaled1.terms@.len() > 0 {
                    assert(scaled1.terms@[0].exponents.exps().len() == shift1.exps().len());
                } else if scaled2.terms@.len() > 0 {
                    assert(scaled2.terms@[0].exponents.exps().len() == shift2.exps().len());
                } else {
                    // both scaled polynomials are zero, so the canonical
                    // difference denotes zero and must be empty
                    let x = pview(s)[0].1;
                    crate::poly::lemma_acc_views(s.terms@, cfg.order, m, poly_arity(s));
                    assert(crate::poly::acc_wf(s.terms@, cfg.order, m, poly_arity(s))) by {
                        assert(term_wf(s.terms@[0], m, poly_arity(s)));
                    }
                    crate::poly::lemma_sorted_distinct(cfg.order, m, pview(s), poly_arity(s));
                    assert(pview(s)[0] == crate::poly::tview(s.terms@[0]));
                    assert(pview(s)[0].0 > 0) by {
                        assert(term_wf(s.terms@[0], m, poly_arity(s)));
                    }
                    crate::poly::lemma_coeff_of_distinct_at(m, pview(s), 0);
                    assert((coeff_of(m, pview(s), x) + coeff_of(m, pview(scaled2), x)) % m
                        == coeff_of(m, pview(scaled1), x));
                    crate::poly::lemma_coeff_of_reduced(m, pview(s), x);
                    vstd::arithmetic::div_mod::lemma_small_mod(coeff_of(m, pview(s), x), m);
                    assert(false);
                }
            }
        }
        Ok(s)
    }
}

/// All basis elements are nonzero canonical polynomials of one arity.
pub open spec fn basis_wf<E: IExponent>(
    bs: Seq<Polynomial<E>>,
    o: crate::order::TermOrder,
    m: nat,
    ar: nat,
) -> bool {
    forall|k: int|
        0 <= k < bs.len() ==> poly_wf(#[trigger] bs[k], o, m) && bs[k].terms@.len() > 0
            && poly_arity(bs[k]) == ar
}

/// A certificate exhibits the polynomial as a combination of the base
/// views: its coefficient function is the combination's.
pub open spec fn spans<E: IExponent>(
    m: nat,
    q: Polynomial<E>,
    base: Seq<Seq<(nat, Seq<nat>)>>,
    cert: Seq<(nat, Seq<nat>, int)>,
    ar: nat,
) -> bool {
    &&& cert_ok(base, cert)
    &&& cert_arity(cert, ar)
    &&& forall|x: Seq<nat>|
        coeff_of(m, pview(q), x) == combo_coeff(m, base, cert, x)
}

/// Computes the reduced Groebner basis of the input polynomials by the
/// naive pairwise Buchberger algorithm.
///
/// Every unordered pair's S-polynomial is reduced against the current
/// basis; a nonzero, previously unseen remainder joins the basis and is
/// paired with every earlier element. When the queue empties the basis is
/// self-reduced, made monic and de-duplicated.
///
/// `budget` bounds both the number of pairs processed and the
/// cancellation steps of each division; `BudgetExceeded` reports that it
/// ran out. `MalformedInput` rejects exactly a zero input polynomial or a
/// mismatched arity. Every output polynomial is canonical, nonzero and
/// monic, no two outputs are equal, and every output lies in the ideal
/// generated by the inputs: a certificate over the input views is carried
/// through every S-polynomial, reduction and normalization step.
///
/// The converse inclusion is a property of the inputs, not of this
/// algorithm: the single self-reduction pass of finalization can drop
/// ideal content. Two proportional inputs annihilate each other there
/// (each reduces to zero against the other), leaving an empty basis, so
/// no contract clause claims that the inputs reduce to zero against the
/// output; `are_bases_equivalent` is the runtime oracle for that. For
/// the same reason no clause claims mutual reducedness of the output:
/// each element is reduced against the other pre-finalization elements,
/// whose leading monomials the pass itself may change.
#[verifier::loop_isolation(false)]
pub fn naive_grobner_basis<E: IExponent>(
    cfg: &GrobnerConfig,
    polynomials: Vec<Polynomial<E>>,
    budget: u64,
) -> (r: Result<Vec<Polynomial<E>>, GrobnerError>)
    requires
        cfg_wf(*cfg),
        forall|k: int|
            0 <= k < polynomials@.len() ==> poly_wf(
                #[trigger] polynomials@[k],
                cfg.order,
                cfg.modulus as nat,
            ),
    ensures
        match r {
            Ok(basis) => {
                &&& forall|k: int|
                    0 <= k < basis@.len() ==> poly_wf(
                        #[trigger] basis@[k],
                        cfg.order,
                        cfg.modulus as nat,
                    ) && basis@[k].terms@.len() > 0 && basis@[k].terms@[0].coefficient.i == 1
                &&& forall|i: int, j: int|
                    0 <= i < j < basis@.len() ==> pview(#[trigger] basis@[i]) != pview(
                        #[trigger] basis@[j],
                    )
                &&& forall|k: int|
                    0 <= k < basis@.len() ==> in_ideal(
                        cfg.modulus as nat,
                        pview(#[trigger] basis@[k]),
                        divs_views(polynomials@),
                    )
                &&& forall|k: int|
                    0 <= k < basis@.len() ==> poly_arity(#[trigger] basis@[k]) == poly_arity(
                        polynomials@[0],
                    )
            },
            Err(e) => e == GrobnerError::MalformedInput || e == GrobnerError::BudgetExceeded || e
                == GrobnerError::ExponentLimitExceeded,
        },
        r == Err::<Vec<Polynomial<E>>, GrobnerError>(GrobnerError::MalformedInput) <==> ((exists|k: int|
            0 <= k < polynomials@.len() && (#[trigger] polynomials@[k]).terms@.len() == 0) || (
        exists|k: int|
            0 <= k < polynomials@.len() && poly_arity(#[trigger] polynomials@[k]) != poly_arity(
                polynomials@[0],
            ))),
        polynomials@.len() == 0 ==> r is Ok,
{
    let ghost o = cfg.order;
    let ghost m = cfg.modulus as nat;
    let ghost ar = poly_arity(polynomials@[0]);
    let np = polynomials.len();
    // validate the inputs
    let mut v: usize = 0;
    while v < np
        invariant
            v <= np,
            forall|k: int|
                0 <= k < v ==> (#[trigger] polynomials@[k]).terms@.len() > 0 && poly_arity(
                    polynomials@[k],
                ) == ar,
        decreases np - v,
    {
        if polynomials[v].terms.len() == 0 {
            return Err(GrobnerError::MalformedInput);
        }
        proof {
            assert(term_wf(polynomials@[0].terms@[0], m, ar));
            assert(term_wf(
                polynomials@[v as int].terms@[0],
                m,
                poly_arity(polynomials@[v as int]),
            ));
        }
        if polynomials[v].terms[0].exponents.arity() != polynomials[0].terms[0].exponents.arity() {
            return Err(GrobnerError::MalformedInput);
        }
        v = v + 1;
    }
    let ghost iviews = divs_views(polynomials@);
    let ghost zero_e = Seq::new(ar, |i: int| 0nat);
    proof {
        assert forall|j: int, k: int|
            0 <= j < iviews.len() && 0 <= k < iviews[j].len() implies (
        #[trigger] iviews[j][k]).1.len() == ar by {
            assert(iviews[j] == pview(polynomials@[j]));
            assert(iviews[j][k] == tview(polynomials@[j].terms@[k]));
            assert(term_wf(polynomials@[j].terms@[k], m, poly_arity(polynomials@[j])));
        }
        assert(views_arity(iviews, ar));
    }
    // seed the basis and the pair queue, with a certificate exhibiting
    // each element as a combination of the inputs
    let ghost mut certs: Seq<Seq<(nat, Seq<nat>, int)>> = Seq::empty();
    let mut basis: Vec<Polynomial<E>> = Vec::new();
    let mut b: usize = 0;
    while b < np
        invariant
            b <= np,
            basis@.len() == b,
            basis_wf(basis@, o, m, ar),
            certs.len() == b,
            forall|j: int| 0 <= j < b ==> spans(m, basis@[j], iviews, #[trigger] certs[j], ar),
        decreases np - b,
    {
        let ghost before = basis@;
        let ghost certs_before = certs;
        basis.push(polynomials[b].dup());
        proof {
            assert(pview(basis@[b as int]) == pview(polynomials@[b as int]));
            assert forall|k: int| 0 <= k < basis@.len() implies poly_wf(#[trigger] basis@[k], o, m)
                && basis@[k].terms@.len() > 0 && poly_arity(basis@[k]) == ar by {
                if k < b {
                    assert(basis@[k] == before[k]);
                } else {
                    let q = basis@[b as int];
                    let p = polynomials@[b as int];
                    assert(q.terms@.len() == p.terms@.len());
                    assert forall|t: int| 0 <= t < q.terms@.len() implies term_wf(
                        #[trigger] q.terms@[t],
                        m,
                        poly_arity(q),
                    ) by {
                        assert(term_wf(p.terms@[t], m, poly_arity(p)));
                    }
                    assert forall|t: int| 0 <= t < q.terms@.len() - 1 implies crate::order::ord_cmp(
                        o,
                        (#[trigger] q.terms@[t]).exponents.exps(),
                        q.terms@[t + 1].exponents.exps(),
                    ) == 1 by {
                        assert(crate::order::ord_cmp(
                            o,
                            p.terms@[t].exponents.exps(),
                            p.terms@[t + 1].exponents.exps(),
                        ) == 1);
                    }
                }
            }
            // the identity certificate: the element is input b itself
            let cert0: Seq<(nat, Seq<nat>, int)> = seq![(1nat, zero_e, b as int)];
            assert(scale_view(iviews[b as int], 1nat, zero_e) =~= iviews[b as int]) by {
                assert forall|k: int|
                    0 <= k < iviews[b as int].len() implies #[trigger] scale_view(
                    iviews[b as int],
                    1nat,
                    zero_e,
                )[k] == iviews[b as int][k] by {
                    let tv = iviews[b as int][k];
                    assert(tv.0 * 1 == tv.0);
                    assert(crate::exponent::add_exps(tv.1, zero_e) =~= tv.1) by {
                        assert(tv.1.len() == ar);
                        assert(forall|i: int|
                            0 <= i < ar ==> #[trigger] crate::exponent::add_exps(tv.1, zero_e)[i]
                                == tv.1[i]);
                    }
                }
            }
            assert forall|x: Seq<nat>|
                coeff_of(m, pview(basis@[b as int]), x) == combo_coeff(
                    m,
                    iviews,
                    cert0,
                    x,
                ) by {
                assert(cert0[0] == (1nat, zero_e, b as int));
                assert(cert0.drop_first() =~= Seq::<(nat, Seq<nat>, int)>::empty());
                assert(combo_coeff(m, iviews, cert0.drop_first(), x) == 0);
                lemma_coeff_of_reduced(m, iviews[b as int], x);
                assert(iviews[b as int] == pview(polynomials@[b as int]));
            }
            assert(spans(m, basis@[b as int], iviews, cert0, ar));
            certs = certs.push(cert0);
            assert forall|j: int| 0 <= j < b + 1 implies spans(
                m,
                basis@[j],
                iviews,
                #[trigger] certs[j],
                ar,
            ) by {
                if j < b {
                    assert(basis@[j] == before[j]);
                    assert(certs[j] == certs_before[j]);
                }
            }
        }
        b = b + 1;
    }
    let mut pairs: Vec<(usize, usize)> = Vec::new();
    let mut i: usize = 0;
    while i < np
        invariant
            i <= np,
            np == basis@.len(),
            polynomials@.len() == 0 ==> pairs@.len() == 0,
            forall|t: int|
                0 <= t < pairs@.len() ==> (#[trigger] pairs@[t]).0 < basis@.len() && pairs@[t].1
                    < basis@.len(),
        decreases np - i,
    {
        let mut jj: usize = i + 1;
        while jj < np
            invariant
                i < jj || jj == i + 1,
                jj <= np,
                np == basis@.len(),
                i < np,
                polynomials@.len() == 0 ==> pairs@.len() == 0,
                forall|t: int|
                    0 <= t < pairs@.len() ==> (#[trigger] pairs@[t]).0 < basis@.len() && pairs@[t].1
                        < basis@.len(),
            decreases np - jj,
        {
            pairs.push((i, jj));
            jj = jj + 1;
        }
        i = i + 1;
    }
    // process pairs until the queue empties or the budget runs out
    let mut used: u64 = 0;
    while pairs.len() > 0
        invariant
            used <= budget,
            polynomials@.len() == 0 ==> pairs@.len() == 0 && basis@.len() == 0,
            basis_wf(basis@, o, m, ar),
            forall|t: int|
                0 <= t < pairs@.len() ==> (#[trigger] pairs@[t]).0 < basis@.len() && pairs@[t].1
                    < basis@.len(),
            certs.len() == basis@.len(),
            forall|j: int|
                0 <= j < basis@.len() ==> spans(m, basis@[j], iviews, #[trigger] certs[j], ar),
        decreases budget - used,
    {
        if used == budget {
            return Err(GrobnerError::BudgetExceeded);
        }
        used = used + 1;
        let pr = pairs.remove(0);
        let sp = match Polynomial::s_polynomial(cfg, &basis[pr.0], &basis[pr.1]) {
            Ok(s) => s,
            Err(e) => {
                proof {
                    assert(e != GrobnerError::MalformedInput);
                }
                return Err(e);
            },
        };
        let red = match sp.reduce(cfg, &basis, ReductionPolicy::AccumulateRemainder, budget) {
            Ok(q) => q,
            Err(e) => {
                proof {
                    if sp.terms@.len() > 0 {
                        assert(poly_arity(sp) == ar);
                    }
                    assert(e != GrobnerError::MalformedInput);
                }
                return Err(e);
            },
        };
        if !red.is_zero() {
            // only a previously unseen remainder joins the basis
            let nb = basis.len();
            let mut present: bool = false;
            let mut k: usize = 0;
            while k < nb && !present
                invariant
                    k <= nb,
                decreases nb - k, (if present {
                    0int
                } else {
                    1int
                }),
            {
                proof {
                    assert(poly_wf(basis@[k as int], o, m));
                }
                if basis[k].canon_eq(&red) {
                    present = true;
                } else {
                    k = k + 1;
                }
            }
            if !present {
                let ghost before = basis@;
                let ghost certs_before = certs;
                let new_idx = basis.len();
                proof {
                    if red.terms@.len() > 0 {
                        assert(poly_arity(red) == ar);
                    }
                    // a certificate for the new element over the inputs:
                    // the S-polynomial is a combination of two basis
                    // elements, and the reduction subtracts a combination
                    // of basis elements, each already linked to the inputs
                    let bviews = divs_views(basis@);
                    assert(views_arity(bviews, ar)) by {
                        assert forall|j: int, k: int|
                            0 <= j < bviews.len() && 0 <= k < bviews[j].len() implies (
                        #[trigger] bviews[j][k]).1.len() == ar by {
                            assert(bviews[j] == pview(basis@[j]));
                            assert(bviews[j][k] == tview(basis@[j].terms@[k]));
                            assert(term_wf(basis@[j].terms@[k], m, poly_arity(basis@[j])));
                        }
                    }
                    assert forall|j: int| 0 <= j < bviews.len() implies cert_ok(
                        iviews,
                        #[trigger] certs[j],
                    ) && cert_arity(certs[j], ar) && (forall|x: Seq<nat>|
                        coeff_of(m, bviews[j], x) == combo_coeff(m, iviews, certs[j], x)) by {
                        assert(spans(m, basis@[j], iviews, certs[j], ar));
                        assert(bviews[j] == pview(basis@[j]));
                    }
                    let i0 = pr.0 as int;
                    let j0 = pr.1 as int;
                    let p1v = pview(basis@[i0]);
                    let p2v = pview(basis@[j0]);
                    assert(p1v[0] == tview(basis@[i0].terms@[0]));
                    assert(p2v[0] == tview(basis@[j0].terms@[0]));
                    assert(term_wf(basis@[i0].terms@[0], m, ar));
                    assert(term_wf(basis@[j0].terms@[0], m, ar));
                    let lv = lcm_exps(p1v[0].1, p2v[0].1);
                    assert(lv.len() == ar && sub_exps(lv, p1v[0].1).len() == ar && sub_exps(
                        lv,
                        p2v[0].1,
                    ).len() == ar);
                    assert(forall|k: int|
                        0 <= k < p1v.len() ==> (#[trigger] p1v[k]).1.len() == ar) by {
                        assert(forall|k: int|
                            0 <= k < basis@[i0].terms@.len() ==> term_wf(
                                #[trigger] basis@[i0].terms@[k],
                                m,
                                ar,
                            ));
                        assert(forall|k: int|
                            0 <= k < p1v.len() ==> #[trigger] p1v[k] == tview(
                                basis@[i0].terms@[k],
                            ));
                    }
                    assert(forall|k: int|
                        0 <= k < p2v.len() ==> (#[trigger] p2v[k]).1.len() == ar) by {
                        assert(forall|k: int|
                            0 <= k < basis@[j0].terms@.len() ==> term_wf(
                                #[trigger] basis@[j0].terms@[k],
                                m,
                                ar,
                            ));
                        assert(forall|k: int|
                            0 <= k < p2v.len() ==> #[trigger] p2v[k] == tview(
                                basis@[j0].terms@[k],
                            ));
                    }
                    let ca = cert_scale_poly(
                        m,
                        iviews,
                        ar,
                        p1v,
                        certs[i0],
                        p2v[0].0,
                        sub_exps(lv, p1v[0].1),
                    );
                    let cb = cert_scale_poly(
                        m,
                        iviews,
                        ar,
                        p2v,
                        certs[j0],
                        p1v[0].0,
                        sub_exps(lv, p2v[0].1),
                    );
                    let csp = cert_sub(m, iviews, ar, ca, cb);
                    assert forall|x: Seq<nat>|
                        coeff_of(m, pview(sp), x) == combo_coeff(m, iviews, csp, x) by {
                        let av = coeff_of(
                            m,
                            scale_view(p1v, p2v[0].0, sub_exps(lv, p1v[0].1)),
                            x,
                        );
                        let bv = coeff_of(
                            m,
                            scale_view(p2v, p1v[0].0, sub_exps(lv, p2v[0].1)),
                            x,
                        );
                        assert((coeff_of(m, pview(sp), x) + bv) % m == av);
                        assert(combo_coeff(m, iviews, ca, x) == av);
                        assert(combo_coeff(m, iviews, cb, x) == bv);
                        assert((combo_coeff(m, iviews, csp, x) + bv) % m == av);
                        lemma_mod_cancel_add(
                            coeff_of(m, pview(sp), x) as int,
                            combo_coeff(m, iviews, csp, x) as int,
                            bv as int,
                            m as int,
                        );
                        lemma_coeff_of_reduced(m, pview(sp), x);
                        lemma_combo_reduced(m, iviews, csp, x);
                    }
                    // the S-polynomial is nonzero here, so its arity is ar
                    assert(sp.terms@.len() > 0) by {
                        if sp.terms@.len() == 0 {
                            assert(fully_reduced(pview(sp), bviews));
                            assert(pview(red) == pview(sp));
                            assert(red.terms@.len() == pview(red).len());
                        }
                    }
                    assert(poly_arity(sp) == ar);
                    let cr = choose|cert: Seq<(nat, Seq<nat>, int)>|
                        cert_ok(bviews, cert) && cert_arity(cert, poly_arity(sp)) && forall|
                            x: Seq<nat>,
                        |
                            coeff_of(m, pview(sp), x) == (coeff_of(m, pview(red), x) + combo_coeff(
                                m,
                                bviews,
                                cert,
                                x,
                            )) % m;
                    let dr = combo_subst(m, bviews, iviews, certs, cr, ar);
                    let cred = cert_sub(m, iviews, ar, csp, dr);
                    assert forall|x: Seq<nat>|
                        coeff_of(m, pview(red), x) == combo_coeff(m, iviews, cred, x) by {
                        assert(coeff_of(m, pview(sp), x) == (coeff_of(m, pview(red), x)
                            + combo_coeff(m, bviews, cr, x)) % m);
                        assert(combo_coeff(m, bviews, cr, x) == combo_coeff(m, iviews, dr, x));
                        assert((combo_coeff(m, iviews, cred, x) + combo_coeff(m, iviews, dr, x))
                            % m == combo_coeff(m, iviews, csp, x));
                        assert(combo_coeff(m, iviews, csp, x) == coeff_of(m, pview(sp), x));
                        lemma_mod_cancel_add(
                            coeff_of(m, pview(red), x) as int,
                            combo_coeff(m, iviews, cred, x) as int,
                            combo_coeff(m, iviews, dr, x) as int,
                            m as int,
                        );
                        lemma_coeff_of_reduced(m, pview(red), x);
                        lemma_combo_reduced(m, iviews, cred, x);
                    }
                    certs = certs.push(cred);
                }
                basis.push(red);
                proof {
                    assert forall|kk: int| 0 <= kk < basis@.len() implies poly_wf(
                        #[trigger] basis@[kk],
                        o,
                        m,
                    ) && basis@[kk].terms@.len() > 0 && poly_arity(basis@[kk]) == ar by {
                        if kk < new_idx {
                            assert(basis@[kk] == before[kk]);
                        }
                    }
                    assert forall|j: int| 0 <= j < basis@.len() implies spans(
                        m,
                        basis@[j],
                        iviews,
                        #[trigger] certs[j],
                        ar,
                    ) by {
                        if j < new_idx {
                            assert(basis@[j] == before[j]);
                            assert(certs[j] == certs_before[j]);
                        }
                    }
                }
                let mut t: usize = 0;
                while t < new_idx
                    invariant
                        t <= new_idx,
                        new_idx < basis@.len(),
                        forall|tt: int|
                            0 <= tt < pairs@.len() ==> (#[trigger] pairs@[tt]).0 < basis@.len()
                                && pairs@[tt].1 < basis@.len(),
                    decreases new_idx - t,
                {
                    pairs.push((t, new_idx));
                    t = t + 1;
                }
            }
        }
    }
    // finalize: self-reduce, normalize to monic, de-duplicate
    let nb = basis.len();
    let mut reduced_basis: Vec<Polynomial<E>> = Vec::new();
    let ghost mut rcerts: Seq<Seq<(nat, Seq<nat>, int)>> = Seq::empty();
    let mut idx: usize = 0;
    while idx < nb
        invariant
            idx <= nb,
            nb == basis@.len(),
            basis_wf(basis@, o, m, ar),
            certs.len() == basis@.len(),
            forall|j: int|
                0 <= j < basis@.len() ==> spans(m, basis@[j], iviews, #[trigger] certs[j], ar),
            rcerts.len() == reduced_basis@.len(),
            forall|j: int|
                0 <= j < reduced_basis@.len() ==> spans(
                    m,
                    reduced_basis@[j],
                    iviews,
                    #[trigger] rcerts[j],
                    ar,
                ),
            forall|k: int|
                0 <= k < reduced_basis@.len() ==> poly_wf(#[trigger] reduced_basis@[k], o, m)
                    && reduced_basis@[k].terms@.len() > 0
                    && reduced_basis@[k].terms@[0].coefficient.i == 1 && poly_arity(
                    reduced_basis@[k],
                ) == ar,
            forall|a: int, bb: int|
                0 <= a < bb < reduced_basis@.len() ==> pview(#[trigger] reduced_basis@[a]) != pview(
                    #[trigger] reduced_basis@[bb],
                ),
        decreases nb - idx,
    {
        // reduce against every element not canonically equal to this one
        let mut excl: Vec<Polynomial<E>> = Vec::new();
        let ghost mut ecerts: Seq<Seq<(nat, Seq<nat>, int)>> = Seq::empty();
        let mut k: usize = 0;
        while k < nb
            invariant
                k <= nb,
                forall|t: int|
                    0 <= t < excl@.len() ==> poly_wf(#[trigger] excl@[t], o, m)
                        && excl@[t].terms@.len() > 0 && poly_arity(excl@[t]) == ar,
                ecerts.len() == excl@.len(),
                forall|t: int|
                    0 <= t < excl@.len() ==> spans(m, excl@[t], iviews, #[trigger] ecerts[t], ar),
            decreases nb - k,
        {
            proof {
                assert(poly_wf(basis@[k as int], o, m));
                assert(poly_wf(basis@[idx as int], o, m));
            }
            if !basis[k].canon_eq(&basis[idx]) {
                let ghost before = excl@;
                let d = basis[k].dup();
                proof {
                    assert(pview(d) == pview(basis@[k as int]));
                    assert forall|t: int| 0 <= t < d.terms@.len() implies term_wf(
                        #[trigger] d.terms@[t],
                        m,
                        poly_arity(d),
                    ) by {
                        assert(term_wf(basis@[k as int].terms@[t], m, ar));
                    }
                    assert forall|t: int| 0 <= t < d.terms@.len() - 1 implies crate::order::ord_cmp(
                        o,
                        (#[trigger] d.terms@[t]).exponents.exps(),
                        d.terms@[t + 1].exponents.exps(),
                    ) == 1 by {
                        assert(crate::order::ord_cmp(
                            o,
                            basis@[k as int].terms@[t].exponents.exps(),
                            basis@[k as int].terms@[t + 1].exponents.exps(),
                        ) == 1);
                    }
                }
                let ghost ecerts_before = ecerts;
                let ghost excl_before = excl@;
                excl.push(d);
                proof {
                    ecerts = ecerts.push(certs[k as int]);
                    assert(spans(m, basis@[k as int], iviews, certs[k as int], ar));
                    assert forall|t: int| 0 <= t < excl@.len() implies spans(
                        m,
                        excl@[t],
                        iviews,
                        #[trigger] ecerts[t],
                        ar,
                    ) by {
                        if t < excl_before.len() {
                            assert(excl@[t] == excl_before[t]);
                            assert(ecerts[t] == ecerts_before[t]);
                        } else {
                            assert(excl@[t] == d && ecerts[t] == certs[k as int]);
                            assert(pview(d) == pview(basis@[k as int]));
                        }
                    }
                }
            }
            k = k + 1;
        }
        let red = match basis[idx].reduce(cfg, &excl, ReductionPolicy::AccumulateRemainder, budget) {
            Ok(q) => q,
            Err(e) => {
                proof {
                    assert(e != GrobnerError::MalformedInput);
                }
                return Err(e);
            },
        };
        if !red.is_zero() {
            let mon = red.make_monic(cfg);
            let nr = reduced_basis.len();
            let mut present: bool = false;
            let mut k2: usize = 0;
            while k2 < nr && !present
                invariant
                    k2 <= nr,
                    nr == reduced_basis@.len(),
                    present ==> k2 < nr && pview(reduced_basis@[k2 as int]) == pview(mon),
                    forall|t: int|
                        0 <= t < k2 ==> pview(#[trigger] reduced_basis@[t]) != pview(mon),
                decreases nr - k2, (if present {
                    0int
                } else {
                    1int
                }),
            {
                proof {
                    assert(poly_wf(reduced_basis@[k2 as int], o, m));
                }
                if reduced_basis[k2].canon_eq(&mon) {
                    present = true;
                } else {
                    k2 = k2 + 1;
                }
            }
            if !present {
                let ghost before = reduced_basis@;
                let ghost rcerts_before = rcerts;
                proof {
                    // link the monic element to the inputs: subtract the
                    // reduction combination from this element's
                    // certificate, then scale by the normalizing factor
                    let eviews = divs_views(excl@);
                    assert(views_arity(eviews, ar)) by {
                        assert forall|j: int, kk: int|
                            0 <= j < eviews.len() && 0 <= kk < eviews[j].len() implies (
                        #[trigger] eviews[j][kk]).1.len() == ar by {
                            assert(eviews[j] == pview(excl@[j]));
                            assert(eviews[j][kk] == tview(excl@[j].terms@[kk]));
                            assert(term_wf(excl@[j].terms@[kk], m, poly_arity(excl@[j])));
                        }
                    }
                    assert forall|j: int| 0 <= j < eviews.len() implies cert_ok(
                        iviews,
                        #[trigger] ecerts[j],
                    ) && cert_arity(ecerts[j], ar) && (forall|x: Seq<nat>|
                        coeff_of(m, eviews[j], x) == combo_coeff(m, iviews, ecerts[j], x)) by {
                        assert(spans(m, excl@[j], iviews, ecerts[j], ar));
                        assert(eviews[j] == pview(excl@[j]));
                    }
                    assert(poly_arity(basis@[idx as int]) == ar);
                    let cr2 = choose|cert: Seq<(nat, Seq<nat>, int)>|
                        cert_ok(eviews, cert) && cert_arity(
                            cert,
                            poly_arity(basis@[idx as int]),
                        ) && forall|x: Seq<nat>|
                            coeff_of(m, pview(basis@[idx as int]), x) == (coeff_of(
                                m,
                                pview(red),
                                x,
                            ) + combo_coeff(m, eviews, cert, x)) % m;
                    let dr2 = combo_subst(m, eviews, iviews, ecerts, cr2, ar);
                    let cred2 = cert_sub(m, iviews, ar, certs[idx as int], dr2);
                    assert forall|x: Seq<nat>|
                        coeff_of(m, pview(red), x) == combo_coeff(m, iviews, cred2, x) by {
                        assert(spans(m, basis@[idx as int], iviews, certs[idx as int], ar));
                        assert(coeff_of(m, pview(basis@[idx as int]), x) == (coeff_of(
                            m,
                            pview(red),
                            x,
                        ) + combo_coeff(m, eviews, cr2, x)) % m);
                        assert(combo_coeff(m, eviews, cr2, x) == combo_coeff(m, iviews, dr2, x));
                        assert((combo_coeff(m, iviews, cred2, x) + combo_coeff(m, iviews, dr2, x))
                            % m == combo_coeff(m, iviews, certs[idx as int], x));
                        assert(combo_coeff(m, iviews, certs[idx as int], x) == coeff_of(
                            m,
                            pview(basis@[idx as int]),
                            x,
                        ));
                        lemma_mod_cancel_add(
                            coeff_of(m, pview(red), x) as int,
                            combo_coeff(m, iviews, cred2, x) as int,
                            combo_coeff(m, iviews, dr2, x) as int,
                            m as int,
                        );
                        lemma_coeff_of_reduced(m, pview(red), x);
                        lemma_combo_reduced(m, iviews, cred2, x);
                    }
                    // scale by the monic normalization factor
                    let sc = choose|sc: nat|
                        coeffs_scaled_by(mon.terms@, red.terms@, sc, m);
                    let cmon = scale_cert(cred2, sc, zero_e);
                    assert(cert_ok(iviews, cmon) && cert_arity(cmon, ar)) by {
                        assert(forall|kk: int|
                            0 <= kk < cmon.len() ==> #[trigger] cmon[kk] == ((cred2[kk].0
                                * sc) as nat, crate::exponent::add_exps(cred2[kk].1, zero_e),
                            cred2[kk].2));
                        assert(forall|kk: int|
                            0 <= kk < cmon.len() ==> (#[trigger] cmon[kk]).1.len() == ar);
                    }
                    assert forall|x: Seq<nat>|
                        coeff_of(m, pview(mon), x) == combo_coeff(m, iviews, cmon, x) by {
                        lemma_combo_scale(m, iviews, cred2, sc, zero_e, x);
                        assert(forall|kk: int|
                            0 <= kk < mon.terms@.len() ==> (#[trigger] pview(mon)[kk]).1 == pview(
                                red,
                            )[kk].1 && pview(mon)[kk].1.len() == ar) by {
                            assert(forall|kk: int|
                                0 <= kk < mon.terms@.len() ==> #[trigger] pview(mon)[kk] == tview(
                                    mon.terms@[kk],
                                ) && pview(red)[kk] == tview(red.terms@[kk]));
                            assert(forall|kk: int|
                                0 <= kk < red.terms@.len() ==> term_wf(
                                    #[trigger] red.terms@[kk],
                                    m,
                                    ar,
                                ));
                        }
                        if divides_exps(zero_e, x) {
                            assert(sub_exps(x, zero_e) =~= x);
                            assert(coeff_of(m, pview(mon), x) == (sc * coeff_of(
                                m,
                                pview(red),
                                x,
                            )) % m) by {
                                assert(coeffs_scaled_by(mon.terms@, red.terms@, sc, m));
                                assert(forall|kk: int|
                                    0 <= kk < mon.terms@.len() ==> ((#[trigger] pview(
                                        mon,
                                    )[kk]).0 as int) == ((pview(red)[kk].0 * sc) as int) % (
                                    m as int)) by {
                                    assert(forall|kk: int|
                                        0 <= kk < mon.terms@.len() ==> #[trigger] pview(
                                            mon,
                                        )[kk] == tview(mon.terms@[kk]) && pview(red)[kk] == tview(
                                            red.terms@[kk],
                                        ));
                                }
                                lemma_coeff_of_mul_congruent(m, pview(red), pview(mon), sc, x);
                            }
                        } else {
                            assert(x.len() != ar) by {
                                if x.len() == ar {
                                    assert(forall|i: int|
                                        0 <= i < x.len() ==> zero_e[i] <= x[i]);
                                }
                            }
                            assert(forall|kk: int|
                                0 <= kk < pview(mon).len() ==> (#[trigger] pview(mon)[kk]).1 != x);
                            lemma_coeff_of_absent(m, pview(mon), x);
                        }
                    }
                    assert(spans(m, mon, iviews, cmon, ar));
                    rcerts = rcerts.push(cmon);
                    assert(poly_arity(mon) == ar) by {
                        assert(mon.terms@[0].exponents.exps() == red.terms@[0].exponents.exps());
                        assert(red.terms@[0].exponents.exps().len() == ar);
                    }
                }
                reduced_basis.push(mon);
                proof {
                    assert forall|a: int, bb: int|
                        0 <= a < bb < reduced_basis@.len() implies pview(
                        #[trigger] reduced_basis@[a]) != pview(#[trigger] reduced_basis@[bb]) by {
                        if bb < before.len() {
                            assert(reduced_basis@[a] == before[a]);
                            assert(reduced_basis@[bb] == before[bb]);
                        } else {
                            assert(reduced_basis@[a] == before[a]);
                            assert(reduced_basis@[bb] == mon);
                        }
                    }
                    assert forall|j: int| 0 <= j < reduced_basis@.len() implies spans(
                        m,
                        reduced_basis@[j],
                        iviews,
                        #[trigger] rcerts[j],
                        ar,
                    ) by {
                        if j < before.len() {
                            assert(reduced_basis@[j] == before[j]);
                            assert(rcerts[j] == rcerts_before[j]);
                        }
                    }
                }
            }
        }
        idx = idx + 1;
    }
    proof {
        assert forall|k: int| 0 <= k < reduced_basis@.len() implies in_ideal(
            m,
            pview(#[trigger] reduced_basis@[k]),
            iviews,
        ) by {
            let cert = rcerts[k];
            assert(spans(m, reduced_basis@[k], iviews, cert, ar));
            let empty_view = Seq::<(nat, Seq<nat>)>::empty();
            assert forall|x: Seq<nat>|
                coeff_of(m, pview(reduced_basis@[k]), x) == (coeff_of(m, empty_view, x)
                    + combo_coeff(m, iviews, cert, x)) % m by {
                assert(coeff_of(m, empty_view, x) == 0);
                lemma_combo_reduced(m, iviews, cert, x);
            }
            assert(reduces_to(m, pview(reduced_basis@[k]), empty_view, iviews));
        }
    }
    Ok(reduced_basis)
}

/// The verification oracle: true only when every element of each set
/// reduces to zero against the other, so each generates an ideal
/// containing the other's elements. A false answer exhibits an element
/// with a nonzero fully reduced normal form modulo the other set.
///
/// The answer is an algorithmic check, not an ideal-equality decision:
/// over a set that is not a Groebner basis, normal forms are not unique,
/// so an element of the ideal can still leave a nonzero remainder. The
/// set holding `x` and `x*y + y`, checked against itself, reduces its
/// second element to the remainder `y` (the scan cancels against `x`
/// first), so even identical sets can compare as false. The contract
/// therefore states what each answer proves, not an equivalence.
#[verifier::loop_isolation(false)]
pub fn are_bases_equivalent<E: IExponent>(
    cfg: &GrobnerConfig,
    set_a: &Vec<Polynomial<E>>,
    set_b: &Vec<Polynomial<E>>,
    budget: u64,
) -> (r: Result<bool, GrobnerError>)
    requires
        cfg_wf(*cfg),
        forall|k: int|
            0 <= k < set_a@.len() ==> poly_wf(#[trigger] set_a@[k], cfg.order, cfg.modulus as nat),
        forall|k: int|
            0 <= k < set_b@.len() ==> poly_wf(#[trigger] set_b@[k], cfg.order, cfg.modulus as nat),
    ensures
        match r {
            Ok(eq) => {
                &&& eq ==> (forall|k: int|
                    0 <= k < set_a@.len() ==> in_ideal(
                        cfg.modulus as nat,
                        pview(#[trigger] set_a@[k]),
                        divs_views(set_b@),
                    )) && (forall|k: int|
                    0 <= k < set_b@.len() ==> in_ideal(
                        cfg.modulus as nat,
                        pview(#[trigger] set_b@[k]),
                        divs_views(set_a@),
                    ))
                &&& !eq ==> ((exists|k: int|
                    0 <= k < set_a@.len() && has_nonzero_normal_form(
                        cfg.modulus as nat,
                        pview(#[trigger] set_a@[k]),
                        divs_views(set_b@),
                    )) || (exists|k: int|
                    0 <= k < set_b@.len() && has_nonzero_normal_form(
                        cfg.modulus as nat,
                        pview(#[trigger] set_b@[k]),
                        divs_views(set_a@),
                    )))
            },
            Err(e) => e == GrobnerError::MalformedInput || e == GrobnerError::BudgetExceeded || e
                == GrobnerError::ExponentLimitExceeded,
        },
        r == Err::<bool, GrobnerError>(GrobnerError::MalformedInput) <==> ((exists|k: int|
            0 <= k < (set_a@ + set_b@).len() && (#[trigger] (set_a@ + set_b@)[k]).terms@.len()
                == 0) || (exists|k: int|
            0 <= k < (set_a@ + set_b@).len() && poly_arity(#[trigger] (set_a@ + set_b@)[k])
                != poly_arity((set_a@ + set_b@)[0]))),
        set_a@.len() == 0 && set_b@.len() == 0 ==> r == Ok::<bool, GrobnerError>(true),
        !((exists|k: int|
            0 <= k < (set_a@ + set_b@).len() && (#[trigger] (set_a@ + set_b@)[k]).terms@.len()
                == 0) || (exists|k: int|
            0 <= k < (set_a@ + set_b@).len() && poly_arity(#[trigger] (set_a@ + set_b@)[k])
                != poly_arity((set_a@ + set_b@)[0]))) && set_a@.len() > 0 && fully_reduced(
            pview(set_a@[0]),
            divs_views(set_b@),
        ) ==> r == Ok::<bool, GrobnerError>(false),
{
    let ghost o = cfg.order;
    let ghost m = cfg.modulus as nat;
    let ghost all = set_a@ + set_b@;
    let ghost first_stays: bool = set_a@.len() > 0 && set_a@[0].terms@.len() > 0 && fully_reduced(
        pview(set_a@[0]),
        divs_views(set_b@),
    );
    let na = set_a.len();
    let nb = set_b.len();
    // validate both sets together
    let mut va: usize = 0;
    while va < na
        invariant
            va <= na,
            forall|k: int|
                0 <= k < va ==> (#[trigger] all[k]).terms@.len() > 0 && poly_arity(all[k])
                    == poly_arity(all[0]),
        decreases na - va,
    {
        proof {
            assert(all[va as int] == set_a@[va as int]);
        }
        if set_a[va].terms.len() == 0 {
            return Err(GrobnerError::MalformedInput);
        }
        let first: &Polynomial<E> = if na > 0 {
            &set_a[0]
        } else {
            &set_b[0]
        };
        proof {
            assert(all[0] == *first);
            assert(term_wf(set_a@[va as int].terms@[0], m, poly_arity(set_a@[va as int])));
            assert(first.terms@.len() > 0);
            assert(term_wf(first.terms@[0], m, poly_arity(*first)));
        }
        if set_a[va].terms[0].exponents.arity() != first.terms[0].exponents.arity() {
            return Err(GrobnerError::MalformedInput);
        }
        va = va + 1;
    }
    let mut vb: usize = 0;
    while vb < nb
        invariant
            vb <= nb,
            forall|k: int|
                0 <= k < na + vb ==> (#[trigger] all[k]).terms@.len() > 0 && poly_arity(all[k])
                    == poly_arity(all[0]),
        decreases nb - vb,
    {
        proof {
            assert(all[na + vb] == set_b@[vb as int]);
        }
        if set_b[vb].terms.len() == 0 {
            return Err(GrobnerError::MalformedInput);
        }
        let first: &Polynomial<E> = if na > 0 {
            &set_a[0]
        } else {
            &set_b[0]
        };
        proof {
            assert(all[0] == *first);
            assert(term_wf(set_b@[vb as int].terms@[0], m, poly_arity(set_b@[vb as int])));
            assert(first.terms@.len() > 0);
            assert(term_wf(first.terms@[0], m, poly_arity(*first)));
        }
        if set_b[vb].terms[0].exponents.arity() != first.terms[0].exponents.arity() {
            return Err(GrobnerError::MalformedInput);
        }
        vb = vb + 1;
    }
    // every element of A must reduce to zero against B
    let mut ka: usize = 0;
    while ka < na
        invariant
            ka <= na,
            forall|k: int|
                0 <= k < ka ==> in_ideal(m, pview(#[trigger] set_a@[k]), divs_views(set_b@)),
            first_stays ==> ka == 0,
        decreases na - ka,
    {
        proof {
            assert(all[ka as int] == set_a@[ka as int]);
            if set_a@[ka as int].terms@.len() > 0 {
                assert forall|j: int| 0 <= j < set_b@.len() implies poly_arity(
                    #[trigger] set_b@[j],
                ) == poly_arity(set_a@[ka as int]) by {
                    assert(all[na + j] == set_b@[j]);
                }
            }
            assert(forall|j: int|
                0 <= j < set_b@.len() ==> (#[trigger] set_b@[j]).terms@.len() > 0) by {
                assert(forall|j: int|
                    0 <= j < set_b@.len() ==> #[trigger] set_b@[j] == all[na + j]);
            }
        }
        let red = match set_a[ka].reduce(cfg, set_b, ReductionPolicy::AccumulateRemainder, budget) {
            Ok(q) => q,
            Err(e) => {
                proof {
                    assert(e != GrobnerError::MalformedInput);
                    // the first element of a set whose head is already
                    // fully reduced is never the one that runs out
                    if first_stays {
                        assert(ka == 0);
                        assert(crate::reduce::divisors_ok(&set_a@[0], set_b@));
                        assert(false);
                    }
                }
                return Err(e);
            },
        };
        if !red.is_zero() {
            proof {
                assert(has_nonzero_normal_form(m, pview(set_a@[ka as int]), divs_views(set_b@)))
                    by {
                    assert(pview(red).len() > 0);
                    assert(fully_reduced(pview(red), divs_views(set_b@)));
                    assert(reduces_to(m, pview(set_a@[ka as int]), pview(red), divs_views(set_b@)));
                }
            }
            return Ok(false);
        }
        proof {
            if first_stays {
                assert(ka == 0);
                assert(pview(red) == pview(set_a@[0]));
                assert(pview(red).len() == set_a@[0].terms@.len());
                assert(false);
            }
        }
        proof {
            assert(in_ideal(m, pview(set_a@[ka as int]), divs_views(set_b@))) by {
                assert(pview(red).len() == 0);
                assert(reduces_to(m, pview(set_a@[ka as int]), pview(red), divs_views(set_b@)));
            }
        }
        ka = ka + 1;
    }
    proof {
        // a head that stays nonzero would have ended the first loop early
        if first_stays {
            assert(na > 0);
            assert(false);
        }
        if set_a@.len() > 0 && fully_reduced(pview(set_a@[0]), divs_views(set_b@)) && !(
        (exists|k: int|
            0 <= k < all.len() && (#[trigger] all[k]).terms@.len() == 0) || (exists|k: int|
            0 <= k < all.len() && poly_arity(#[trigger] all[k]) != poly_arity(all[0]))) {
            assert(set_a@[0].terms@.len() > 0) by {
                assert(all[0] == set_a@[0]);
            }
            assert(first_stays);
        }
    }
    // and symmetrically for B against A
    let mut kb: usize = 0;
    while kb < nb
        invariant
            kb <= nb,
            forall|k: int|
                0 <= k < na ==> in_ideal(m, pview(#[trigger] set_a@[k]), divs_views(set_b@)),
            forall|k: int|
                0 <= k < kb ==> in_ideal(m, pview(#[trigger] set_b@[k]), divs_views(set_a@)),
        decreases nb - kb,
    {
        proof {
            assert(all[na + kb] == set_b@[kb as int]);
            if set_b@[kb as int].terms@.len() > 0 {
                assert forall|j: int| 0 <= j < set_a@.len() implies poly_arity(
                    #[trigger] set_a@[j],
                ) == poly_arity(set_b@[kb as int]) by {
                    assert(all[j] == set_a@[j]);
                }
            }
            assert(forall|j: int|
                0 <= j < set_a@.len() ==> (#[trigger] set_a@[j]).terms@.len() > 0) by {
                assert(forall|j: int| 0 <= j < set_a@.len() ==> #[trigger] set_a@[j] == all[j]);
            }
        }
        let red = match set_b[kb].reduce(cfg, set_a, ReductionPolicy::AccumulateRemainder, budget) {
            Ok(q) => q,
            Err(e) => {
                proof {
                    assert(e != GrobnerError::MalformedInput);
                }
                return Err(e);
            },
        };
        if !red.is_zero() {
            proof {
                assert(has_nonzero_normal_form(m, pview(set_b@[kb as int]), divs_views(set_a@)))
                    by {
                    assert(pview(red).len() > 0);
                    assert(fully_reduced(pview(red), divs_views(set_a@)));
                    assert(reduces_to(m, pview(set_b@[kb as int]), pview(red), divs_views(set_a@)));
                }
            }
            return Ok(false);
        }
        proof {
            assert(in_ideal(m, pview(set_b@[kb as int]), divs_views(set_a@))) by {
                assert(pview(red).len() == 0);
                assert(reduces_to(m, pview(set_b@[kb as int]), pview(red), divs_views(set_a@)));
            }
        }
        kb = kb + 1;
    }
    Ok(true)
}

} // verus!
