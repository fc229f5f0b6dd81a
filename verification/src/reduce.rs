//! Multivariate division with remainder: repeatedly cancels the leading
//! term of the dividend against the first divisor whose leading monomial
//! divides it.
//!
//! Both termination policies of the division are explicit. Stopping at the
//! first irreducible leading term is a documented fast path; accumulating
//! the remainder and reducing the rest is the complete division required
//! for correctness and is the default of every caller in this crate.
//!
//! Every successful reduction returns, in its contract, a *certificate*:
//! a sequence of (coefficient, monomial, divisor index) triples whose
//! combination, added to the remainder, denotes the dividend. A dividend
//! that reduces to zero is therefore proved to lie in the ideal generated
//! by the divisors.

use vstd::prelude::*;
use vstd::arithmetic::div_mod::lemma_add_mod_noop;
use vstd::arithmetic::div_mod::lemma_add_mod_noop_right;
use vstd::arithmetic::div_mod::lemma_mod_twice;
use vstd::arithmetic::div_mod::lemma_small_mod;
use crate::config::GrobnerConfig;
use crate::config::GrobnerError;
use crate::config::cfg_wf;
use crate::exponent::IExponent;
use crate::exponent::add_exps;
use crate::exponent::divides_exps;
use crate::exponent::sub_exps;
use crate::modular::lemma_prime_gcd;
use crate::poly::Polynomial;
use crate::poly::Term;
use crate::poly::acc_wf;
use crate::poly::canon_terms;
use crate::poly::coeff_of;
use crate::poly::lemma_canonical_unique;
use crate::poly::lemma_acc_views;
use crate::poly::lemma_coeff_of_absent;
use crate::poly::lemma_coeff_of_distinct_at;
use crate::poly::lemma_coeff_of_insert;
use crate::poly::lemma_coeff_of_reduced;
use crate::poly::lemma_sorted_distinct;
use crate::poly::poly_arity;
use crate::poly::poly_wf;
use crate::poly::pview;
use crate::poly::scale_view;
use crate::poly::term_wf;
use crate::poly::terms_view;
use crate::poly::tview;

verus! {

/// The two termination policies of the division.
#[derive(Copy, Clone, Debug, PartialEq, Eq, Structural)]
pub enum ReductionPolicy {
    /// Return as soon as the leading term is irreducible by every
    /// divisor: a fast path that ignores lower-order terms.
    StopOnIrreducible,
    /// Move an irreducible leading term into a remainder accumulator and
    /// keep reducing the rest; the complete multivariate division.
    AccumulateRemainder,
}

/// The views of a divisor list.
pub open spec fn divs_views<E: IExponent>(ds: Seq<Polynomial<E>>) -> Seq<Seq<(nat, Seq<nat>)>> {
    ds.map_values(|d: Polynomial<E>| pview(d))
}

/// Every certificate entry points at a divisor.
pub open spec fn cert_ok(divs: Seq<Seq<(nat, Seq<nat>)>>, cert: Seq<(nat, Seq<nat>, int)>) -> bool {
    forall|k: int| 0 <= k < cert.len() ==> 0 <= (#[trigger] cert[k]).2 < divs.len()
}

/// The coefficient, at monomial `x`, of the combination a certificate
/// denotes: the sum of each entry's divisor scaled by the entry's
/// coefficient and monomial.
pub open spec fn combo_coeff(
    m: nat,
    divs: Seq<Seq<(nat, Seq<nat>)>>,
    cert: Seq<(nat, Seq<nat>, int)>,
    x: Seq<nat>,
) -> nat
    decreases cert.len(),
{
    if cert.len() == 0 {
        0
    } else {
        (coeff_of(m, scale_view(divs[cert[0].2], cert[0].0, cert[0].1), x) + combo_coeff(
            m,
            divs,
            cert.drop_first(),
            x,
        )) % m
    }
}

/// `f` reduces to `r` against the divisors: some combination of the
/// divisors accounts exactly for the difference.
pub open spec fn reduces_to(
    m: nat,
    f: Seq<(nat, Seq<nat>)>,
    r: Seq<(nat, Seq<nat>)>,
    divs: Seq<Seq<(nat, Seq<nat>)>>,
) -> bool {
    exists|cert: Seq<(nat, Seq<nat>, int)>|
        cert_ok(divs, cert) && forall|x: Seq<nat>|
            coeff_of(m, f, x) == (coeff_of(m, r, x) + combo_coeff(m, divs, cert, x)) % m
}

/// `p` lies in the ideal generated by the divisors: it reduces to zero.
pub open spec fn in_ideal(m: nat, p: Seq<(nat, Seq<nat>)>, divs: Seq<Seq<(nat, Seq<nat>)>>) -> bool {
    exists|r: Seq<(nat, Seq<nat>)>| r.len() == 0 && reduces_to(m, p, r, divs)
}

/// A monomial no divisor's leading term divides.
pub open spec fn mono_irreducible(x: Seq<nat>, divs: Seq<Seq<(nat, Seq<nat>)>>) -> bool {
    forall|j: int|
        0 <= j < divs.len() ==> !((#[trigger] divs[j]).len() > 0 && divides_exps(divs[j][0].1, x))
}

/// Every term of `s` is irreducible by every divisor.
pub open spec fn fully_reduced(s: Seq<(nat, Seq<nat>)>, divs: Seq<Seq<(nat, Seq<nat>)>>) -> bool {
    forall|k: int| 0 <= k < s.len() ==> mono_irreducible((#[trigger] s[k]).1, divs)
}

/// A certificate scaled entry by entry: every coefficient multiplied by
/// `c`, every monomial by `e`. Denotes the original combination scaled by
/// the term `(c, e)`.
pub open spec fn scale_cert(cert: Seq<(nat, Seq<nat>, int)>, c: nat, e: Seq<nat>) -> Seq<
    (nat, Seq<nat>, int),
> {
    cert.map_values(|en: (nat, Seq<nat>, int)| (((en.0 * c) as nat, add_exps(en.1, e), en.2)))
}

/// All monomials of a family of views have one arity.
pub open spec fn views_arity(ds: Seq<Seq<(nat, Seq<nat>)>>, ar: nat) -> bool {
    forall|j: int, k: int|
        0 <= j < ds.len() && 0 <= k < ds[j].len() ==> (#[trigger] ds[j][k]).1.len() == ar
}

/// All shift monomials of a certificate have one arity.
pub open spec fn cert_arity(cert: Seq<(nat, Seq<nat>, int)>, ar: nat) -> bool {
    forall|k: int| 0 <= k < cert.len() ==> (#[trigger] cert[k]).1.len() == ar
}

/// The combination's coefficient function is already reduced.
pub proof fn lemma_combo_reduced(
    m: nat,
    divs: Seq<Seq<(nat, Seq<nat>)>>,
    cert: Seq<(nat, Seq<nat>, int)>,
    x: Seq<nat>,
)
    requires
        m >= 1,
    ensures
        combo_coeff(m, divs, cert, x) % m == combo_coeff(m, divs, cert, x),
        combo_coeff(m, divs, cert, x) < m,
{
    if cert.len() == 0 {
        lemma_small_mod(0nat, m);
    } else {
        let inner = coeff_of(m, scale_view(divs[cert[0].2], cert[0].0, cert[0].1), x)
            + combo_coeff(m, divs, cert.drop_first(), x);
        lemma_mod_twice(inner as int, m as int);
        vstd::arithmetic::div_mod::lemma_mod_bound(inner as int, m as int);
    }
}

/// The combination of a concatenated certificate is the sum of the two
/// combinations.
pub proof fn lemma_combo_concat(
    m: nat,
    divs: Seq<Seq<(nat, Seq<nat>)>>,
    c1: Seq<(nat, Seq<nat>, int)>,
    c2: Seq<(nat, Seq<nat>, int)>,
    x: Seq<nat>,
)
    requires
        m >= 1,
    ensures
        combo_coeff(m, divs, c1 + c2, x) == (combo_coeff(m, divs, c1, x) + combo_coeff(
            m,
            divs,
            c2,
            x,
        )) % m,
    decreases c1.len(),
{
    if c1.len() == 0 {
        assert(c1 + c2 =~= c2);
        lemma_combo_reduced(m, divs, c2, x);
        lemma_small_mod(combo_coeff(m, divs, c2, x), m);
    } else {
        assert((c1 + c2).drop_first() =~= c1.drop_first() + c2);
        assert((c1 + c2)[0] == c1[0]);
        lemma_combo_concat(m, divs, c1.drop_first(), c2, x);
        let h = coeff_of(m, scale_view(divs[c1[0].2], c1[0].0, c1[0].1), x);
        let cs = combo_coeff(m, divs, c1.drop_first(), x);
        let ct = combo_coeff(m, divs, c2, x);
        lemma_mod_add_right(h, (cs + ct), m);
        assert((h + (cs + ct)) % m == ((h + cs) + ct) % m) by {
            assert(h + (cs + ct) == (h + cs) + ct);
        }
        lemma_mod_add_left((h + cs), ct, m);
    }
}

/// Scaling twice composes: the coefficients multiply and the monomial
/// shifts add.
pub proof fn lemma_scale_view_compose(
    s: Seq<(nat, Seq<nat>)>,
    c1: nat,
    e1: Seq<nat>,
    c2: nat,
    e2: Seq<nat>,
)
    requires
        forall|k: int| 0 <= k < s.len() ==> (#[trigger] s[k]).1.len() <= e1.len(),
    ensures
        scale_view(scale_view(s, c1, e1), c2, e2) == scale_view(
            s,
            (c1 * c2) as nat,
            add_exps(e1, e2),
        ),
{
    let lhs = scale_view(scale_view(s, c1, e1), c2, e2);
    let rhs = scale_view(s, (c1 * c2) as nat, add_exps(e1, e2));
    assert forall|k: int| 0 <= k < s.len() implies lhs[k] == rhs[k] by {
        assert(lhs[k].0 == (s[k].0 * c1) * c2);
        assert(rhs[k].0 == s[k].0 * (c1 * c2));
        assert((s[k].0 * c1) * c2 == s[k].0 * (c1 * c2)) by (nonlinear_arith);
        assert(lhs[k].1 =~= rhs[k].1) by {
            assert forall|i: int| 0 <= i < s[k].1.len() implies add_exps(
                add_exps(s[k].1, e1),
                e2,
            )[i] == add_exps(s[k].1, add_exps(e1, e2))[i] by {
                assert(add_exps(s[k].1, e1)[i] == s[k].1[i] + e1[i]);
                assert(add_exps(e1, e2)[i] == e1[i] + e2[i]);
            }
        }
    }
    assert(lhs =~= rhs);
}

/// The coefficient function of a scaled view: a coefficient appears at a
/// monomial exactly when the monomial is a multiple of the shift, and is
/// then the scaled coefficient at the quotient monomial.
pub proof fn lemma_coeff_of_scale(
    m: nat,
    s: Seq<(nat, Seq<nat>)>,
    c: nat,
    e: Seq<nat>,
    x: Seq<nat>,
)
    requires
        m >= 1,
        forall|k: int| 0 <= k < s.len() ==> (#[trigger] s[k]).1.len() == e.len(),
    ensures
        coeff_of(m, scale_view(s, c, e), x) == (if divides_exps(e, x) {
            (c * coeff_of(m, s, sub_exps(x, e))) % m
        } else {
            0
        }),
    decreases s.len(),
{
    if s.len() == 0 {
        assert(coeff_of(m, s, sub_exps(x, e)) == 0);
        assert(coeff_of(m, scale_view(s, c, e), x) == 0) by {
            assert(scale_view(s, c, e).len() == 0);
        }
        assert((c as int) * 0 == 0);
        lemma_small_mod(0nat, m);
    } else {
        let tail = s.drop_first();
        assert(scale_view(s, c, e).drop_first() =~= scale_view(tail, c, e));
        assert(forall|k: int| 0 <= k < tail.len() ==> #[trigger] tail[k] == s[k + 1]);
        lemma_coeff_of_scale(m, tail, c, e, x);
        let sh = scale_view(s, c, e)[0];
        assert(sh.0 == s[0].0 * c && sh.1 == add_exps(s[0].1, e));
        if !divides_exps(e, x) {
            assert(sh.1 != x) by {
                if sh.1 == x {
                    assert forall|i: int| 0 <= i < x.len() implies e[i] <= x[i] by {
                        assert(x[i] == s[0].1[i] + e[i]);
                    }
                }
            }
            assert(coeff_of(m, scale_view(s, c, e), x) == (0 + coeff_of(
                m,
                scale_view(tail, c, e),
                x,
            )) % m);
            lemma_coeff_of_reduced(m, scale_view(tail, c, e), x);
            lemma_small_mod(coeff_of(m, scale_view(tail, c, e), x), m);
        } else {
            let y = sub_exps(x, e);
            assert((sh.1 == x) == (s[0].1 == y)) by {
                if sh.1 == x {
                    assert(s[0].1 =~= y) by {
                        assert forall|i: int| 0 <= i < s[0].1.len() implies s[0].1[i] == y[i] by {
                            assert(x[i] == s[0].1[i] + e[i]);
                        }
                    }
                }
                if s[0].1 == y {
                    assert(sh.1 =~= x) by {
                        assert forall|i: int| 0 <= i < x.len() implies add_exps(s[0].1, e)[i]
                            == x[i] by {
                            assert(s[0].1[i] == x[i] - e[i]);
                        }
                    }
                }
            }
            let ct = coeff_of(m, tail, y);
            lemma_coeff_of_reduced(m, tail, y);
            if s[0].1 == y {
                // the head matches on both sides
                assert(coeff_of(m, scale_view(s, c, e), x) == (s[0].0 * c + (c * ct) % m) % m);
                lemma_mod_add_right((s[0].0 * c) as nat, (c * ct) as nat, m);
                assert(coeff_of(m, s, y) == (s[0].0 + ct) % m);
                vstd::arithmetic::div_mod::lemma_mul_mod_noop_right(
                    c as int,
                    (s[0].0 + ct) as int,
                    m as int,
                );
                assert((c as int) * (((s[0].0 + ct) % m) as int) % (m as int) == ((c * (s[0].0
                    + ct)) as int) % (m as int));
                assert(c * (s[0].0 + ct) == c * s[0].0 + c * ct) by (nonlinear_arith);
                assert(s[0].0 * c == c * s[0].0) by (nonlinear_arith);
            } else {
                assert(coeff_of(m, scale_view(s, c, e), x) == (0 + (c * ct) % m) % m);
                lemma_mod_twice((c * ct) as int, m as int);
                assert(coeff_of(m, s, y) == (0 + ct) % m);
                lemma_small_mod(ct, m);
                vstd::arithmetic::div_mod::lemma_mul_mod_noop_right(c as int, ct as int, m as int);
            }
        }
    }
}

/// The combination of a scaled certificate: the original combination
/// scaled as one term.
pub proof fn lemma_combo_scale(
    m: nat,
    divs: Seq<Seq<(nat, Seq<nat>)>>,
    d: Seq<(nat, Seq<nat>, int)>,
    c: nat,
    e: Seq<nat>,
    x: Seq<nat>,
)
    requires
        m >= 1,
        views_arity(divs, e.len()),
        cert_arity(d, e.len()),
        cert_ok(divs, d),
    ensures
        combo_coeff(m, divs, scale_cert(d, c, e), x) == (if divides_exps(e, x) {
            (c * combo_coeff(m, divs, d, sub_exps(x, e))) % m
        } else {
            0
        }),
    decreases d.len(),
{
    if d.len() == 0 {
        assert(scale_cert(d, c, e).len() == 0);
        assert(combo_coeff(m, divs, scale_cert(d, c, e), x) == 0);
        assert(combo_coeff(m, divs, d, sub_exps(x, e)) == 0);
        assert((c as int) * 0 == 0);
        lemma_small_mod(0nat, m);
    } else {
        let tail = d.drop_first();
        assert(scale_cert(d, c, e).drop_first() =~= scale_cert(tail, c, e));
        assert(forall|k: int| 0 <= k < tail.len() ==> #[trigger] tail[k] == d[k + 1]);
        lemma_combo_scale(m, divs, tail, c, e, x);
        let en = d[0];
        assert(scale_cert(d, c, e)[0] == ((en.0 * c) as nat, add_exps(en.1, e), en.2));
        let base = divs[en.2];
        assert(forall|k: int| 0 <= k < base.len() ==> (#[trigger] base[k]).1.len() == e.len());
        lemma_scale_view_compose(base, en.0, en.1, c, e);
        assert(scale_view(base, (en.0 * c) as nat, add_exps(en.1, e)) == scale_view(
            scale_view(base, en.0, en.1),
            c,
            e,
        ));
        let inner = scale_view(base, en.0, en.1);
        assert(forall|k: int|
            0 <= k < inner.len() ==> (#[trigger] inner[k]).1.len() == e.len());
        lemma_coeff_of_scale(m, inner, c, e, x);
        let y = sub_exps(x, e);
        if divides_exps(e, x) {
            let a1 = coeff_of(m, inner, y);
            let rest = combo_coeff(m, divs, tail, y);
            lemma_coeff_of_reduced(m, inner, y);
            lemma_combo_reduced(m, divs, tail, y);
            // ((c*a1) % m + (c*rest) % m) % m == (c*(a1 + rest)) % m
            assert(combo_coeff(m, divs, scale_cert(d, c, e), x) == ((c * a1) % m + (c * rest)
                % m) % m);
            lemma_mod_add_left((c * a1) as nat, ((c * rest) % m) as nat, m);
            lemma_mod_add_right((c * a1) as nat, (c * rest) as nat, m);
            assert(((c * a1) % m + (c * rest) % m) % m == (c * a1 + c * rest) % m);
            assert(c * a1 + c * rest == c * (a1 + rest)) by (nonlinear_arith);
            assert(combo_coeff(m, divs, d, y) == (a1 + rest) % m);
            vstd::arithmetic::div_mod::lemma_mul_mod_noop_right(
                c as int,
                (a1 + rest) as int,
                m as int,
            );
        } else {
            assert(combo_coeff(m, divs, scale_cert(d, c, e), x) == (0 + 0) % m);
            lemma_small_mod(0nat, m);
        }
    }
}

/// Rewrites a combination over intermediate polynomials as a combination
/// over base polynomials, given a certificate for each intermediate one.
pub proof fn combo_subst(
    m: nat,
    mids: Seq<Seq<(nat, Seq<nat>)>>,
    base: Seq<Seq<(nat, Seq<nat>)>>,
    certs: Seq<Seq<(nat, Seq<nat>, int)>>,
    cc: Seq<(nat, Seq<nat>, int)>,
    ar: nat,
) -> (r: Seq<(nat, Seq<nat>, int)>)
    requires
        m >= 1,
        views_arity(base, ar),
        views_arity(mids, ar),
        certs.len() == mids.len(),
        forall|j: int|
            0 <= j < mids.len() ==> cert_ok(base, #[trigger] certs[j]) && cert_arity(certs[j], ar)
                && (forall|x: Seq<nat>|
                coeff_of(m, mids[j], x) == combo_coeff(m, base, certs[j], x)),
        cert_ok(mids, cc),
        cert_arity(cc, ar),
    ensures
        cert_ok(base, r),
        cert_arity(r, ar),
        forall|x: Seq<nat>|
            combo_coeff(m, mids, cc, x) == combo_coeff(m, base, r, x),
    decreases cc.len(),
{
    if cc.len() == 0 {
        Seq::empty()
    } else {
        let en = cc[0];
        let inner = scale_cert(certs[en.2], en.0, en.1);
        assert(cert_ok(mids, cc.drop_first()) && cert_arity(cc.drop_first(), ar)) by {
            assert(forall|k: int|
                0 <= k < cc.drop_first().len() ==> #[trigger] cc.drop_first()[k] == cc[k + 1]);
        }
        let rest = combo_subst(m, mids, base, certs, cc.drop_first(), ar);
        let r = inner + rest;
        assert(cert_ok(base, inner) && cert_arity(inner, ar)) by {
            assert(forall|k: int|
                0 <= k < inner.len() ==> #[trigger] inner[k] == ((certs[en.2][k].0 * en.0) as nat,
                add_exps(certs[en.2][k].1, en.1), certs[en.2][k].2));
            assert(forall|k: int|
                0 <= k < inner.len() ==> (#[trigger] inner[k]).1.len() == ar);
        }
        assert(cert_ok(base, r) && cert_arity(r, ar)) by {
            assert(forall|k: int|
                0 <= k < r.len() ==> #[trigger] r[k] == (if k < inner.len() {
                    inner[k]
                } else {
                    rest[k - inner.len()]
                }));
        }
        assert forall|x: Seq<nat>|
            combo_coeff(m, mids, cc, x) == combo_coeff(m, base, r, x) by {
            let j = en.2;
            assert(forall|k: int|
                0 <= k < mids[j].len() ==> (#[trigger] mids[j][k]).1.len() == ar);
            lemma_coeff_of_scale(m, mids[j], en.0, en.1, x);
            lemma_combo_scale(m, base, certs[j], en.0, en.1, x);
            assert(coeff_of(m, scale_view(mids[j], en.0, en.1), x) == combo_coeff(
                m,
                base,
                inner,
                x,
            )) by {
                if divides_exps(en.1, x) {
                    assert(coeff_of(m, mids[j], sub_exps(x, en.1)) == combo_coeff(
                        m,
                        base,
                        certs[j],
                        sub_exps(x, en.1),
                    ));
                }
            }
            lemma_combo_concat(m, base, inner, rest, x);
            assert(combo_coeff(m, mids, cc, x) == (coeff_of(m, scale_view(mids[j], en.0, en.1), x)
                + combo_coeff(m, mids, cc.drop_first(), x)) % m);
            assert(combo_coeff(m, mids, cc.drop_first(), x) == combo_coeff(m, base, rest, x));
        }
        r
    }
}

/// A combination whose monomials all have one arity vanishes at every
/// monomial of another arity.
pub proof fn lemma_combo_absent(
    m: nat,
    divs: Seq<Seq<(nat, Seq<nat>)>>,
    cert: Seq<(nat, Seq<nat>, int)>,
    ar: nat,
    x: Seq<nat>,
)
    requires
        m >= 1,
        views_arity(divs, ar),
        cert_arity(cert, ar),
        cert_ok(divs, cert),
        x.len() != ar,
    ensures
        combo_coeff(m, divs, cert, x) == 0,
    decreases cert.len(),
{
    if cert.len() == 0 {
    } else {
        let tail = cert.drop_first();
        assert(forall|k: int| 0 <= k < tail.len() ==> #[trigger] tail[k] == cert[k + 1]);
        lemma_combo_absent(m, divs, tail, ar, x);
        let sv = scale_view(divs[cert[0].2], cert[0].0, cert[0].1);
        assert(forall|k: int| 0 <= k < sv.len() ==> (#[trigger] sv[k]).1 != x) by {
            assert(forall|k: int|
                0 <= k < sv.len() ==> (#[trigger] sv[k]).1.len() == ar);
        }
        lemma_coeff_of_absent(m, sv, x);
        lemma_small_mod(0nat, m);
    }
}

/// Congruences cancel a common added term.
pub proof fn lemma_mod_cancel_add(x: int, y: int, d: int, m: int)
    requires
        m > 0,
        (x + d) % m == (y + d) % m,
    ensures
        x % m == y % m,
{
    vstd::arithmetic::div_mod::lemma_sub_mod_noop(x + d, d, m);
    vstd::arithmetic::div_mod::lemma_sub_mod_noop(y + d, d, m);
    assert(((x + d) % m - d % m) % m == (x + d - d) % m);
    assert(((y + d) % m - d % m) % m == (y + d - d) % m);
}

/// The certificate of a difference: appends the negation of the second
/// combination to the first, so the result plus the second denotes the
/// first.
pub proof fn cert_sub(
    m: nat,
    divs: Seq<Seq<(nat, Seq<nat>)>>,
    ar: nat,
    ca: Seq<(nat, Seq<nat>, int)>,
    cb: Seq<(nat, Seq<nat>, int)>,
) -> (r: Seq<(nat, Seq<nat>, int)>)
    requires
        m >= 2,
        views_arity(divs, ar),
        cert_ok(divs, ca),
        cert_ok(divs, cb),
        cert_arity(ca, ar),
        cert_arity(cb, ar),
    ensures
        cert_ok(divs, r),
        cert_arity(r, ar),
        forall|x: Seq<nat>|
            (combo_coeff(m, divs, r, x) + combo_coeff(m, divs, cb, x)) % m == combo_coeff(
                m,
                divs,
                ca,
                x,
            ),
{
    let zeros = Seq::new(ar, |i: int| 0nat);
    let neg = scale_cert(cb, (m - 1) as nat, zeros);
    let r = ca + neg;
    assert(cert_ok(divs, neg) && cert_arity(neg, ar)) by {
        assert(forall|k: int|
            0 <= k < neg.len() ==> #[trigger] neg[k] == ((cb[k].0 * ((m - 1) as nat)) as nat,
            add_exps(cb[k].1, zeros), cb[k].2));
        assert(forall|k: int| 0 <= k < neg.len() ==> (#[trigger] neg[k]).1.len() == ar);
    }
    assert(cert_ok(divs, r) && cert_arity(r, ar)) by {
        assert(forall|k: int|
            0 <= k < r.len() ==> #[trigger] r[k] == (if k < ca.len() {
                ca[k]
            } else {
                neg[k - ca.len()]
            }));
    }
    assert forall|x: Seq<nat>|
        (combo_coeff(m, divs, r, x) + combo_coeff(m, divs, cb, x)) % m == combo_coeff(
            m,
            divs,
            ca,
            x,
        ) by {
        lemma_combo_concat(m, divs, ca, neg, x);
        lemma_combo_scale(m, divs, cb, (m - 1) as nat, zeros, x);
        let va = combo_coeff(m, divs, ca, x);
        let vb = combo_coeff(m, divs, cb, x);
        let vn = combo_coeff(m, divs, neg, x);
        lemma_combo_reduced(m, divs, ca, x);
        lemma_combo_reduced(m, divs, cb, x);
        if divides_exps(zeros, x) {
            assert(sub_exps(x, zeros) =~= x);
            assert(vn == (((m - 1) as nat) * vb) % m);
            // ((va + vn) % m + vb) % m == (va + (m-1)*vb + vb) % m == va
            lemma_mod_add_left((va + vn), vb, m);
            assert((va + vn + vb) % m == (va + ((m - 1) as nat) * vb % m + vb) % m);
            assert((va + ((m - 1) as nat) * vb % m + vb) % m == ((va + vb) + ((m - 1) as nat) * vb
                % m) % m) by {
                assert(va + ((m - 1) as nat) * vb % m + vb == (va + vb) + ((m - 1) as nat) * vb
                    % m);
            }
            lemma_mod_add_right((va + vb), (((m - 1) as nat) * vb) as nat, m);
            assert(((va + vb) + ((m - 1) as nat) * vb) % m == (va + m * vb) % m) by {
                assert((va + vb) + ((m - 1) as nat) * vb == va + m * vb) by (nonlinear_arith)
                    requires
                        m >= 1,
                ;
            }
            assert((va + m * vb) % m == va) by {
                vstd::arithmetic::div_mod::lemma_mod_multiples_basic(vb as int, m as int);
                lemma_mod_add_right(va, (m * vb) as nat, m);
                assert((va + (m * vb) % m) % m == (va + 0) % m) by {
                    assert(((m * vb) as int) % (m as int) == ((vb * m) as int) % (m as int)) by {
                        assert(m * vb == vb * m) by (nonlinear_arith);
                    }
                }
                lemma_small_mod(va, m);
            }
        } else {
            // x has another arity, so every combination vanishes there
            assert(x.len() != ar) by {
                if x.len() == ar {
                    assert(forall|i: int| 0 <= i < x.len() ==> zeros[i] <= x[i]);
                }
            }
            assert(vn == 0);
            lemma_combo_absent(m, divs, cb, ar, x);
            lemma_combo_absent(m, divs, ca, ar, x);
            lemma_small_mod(0nat, m);
        }
    }
    r
}

/// The certificate of a scaled polynomial: scales the polynomial's
/// certificate by the same term.
pub proof fn cert_scale_poly(
    m: nat,
    divs: Seq<Seq<(nat, Seq<nat>)>>,
    ar: nat,
    bview: Seq<(nat, Seq<nat>)>,
    cb: Seq<(nat, Seq<nat>, int)>,
    c: nat,
    e: Seq<nat>,
) -> (r: Seq<(nat, Seq<nat>, int)>)
    requires
        m >= 1,
        views_arity(divs, ar),
        cert_ok(divs, cb),
        cert_arity(cb, ar),
        e.len() == ar,
        forall|k: int| 0 <= k < bview.len() ==> (#[trigger] bview[k]).1.len() == ar,
        forall|x: Seq<nat>| coeff_of(m, bview, x) == combo_coeff(m, divs, cb, x),
    ensures
        cert_ok(divs, r),
        cert_arity(r, ar),
        forall|x: Seq<nat>|
            combo_coeff(m, divs, r, x) == coeff_of(m, scale_view(bview, c, e), x),
{
    let r = scale_cert(cb, c, e);
    assert(cert_ok(divs, r) && cert_arity(r, ar)) by {
        assert(forall|k: int|
            0 <= k < r.len() ==> #[trigger] r[k] == ((cb[k].0 * c) as nat, add_exps(cb[k].1, e),
            cb[k].2));
        assert(forall|k: int| 0 <= k < r.len() ==> (#[trigger] r[k]).1.len() == ar);
    }
    assert forall|x: Seq<nat>|
        combo_coeff(m, divs, r, x) == coeff_of(m, scale_view(bview, c, e), x) by {
        lemma_combo_scale(m, divs, cb, c, e, x);
        lemma_coeff_of_scale(m, bview, c, e, x);
    }
    r
}

/// `((a % m) + b) % m == (a + b) % m`.
pub proof fn lemma_mod_add_left(a: nat, b: nat, m: nat)
    requires
        m >= 1,
    ensures
        ((a % m) + b) % m == (a + b) % m,
{
    lemma_add_mod_noop(a as int, b as int, m as int);
    lemma_add_mod_noop((a % m) as int, b as int, m as int);
    lemma_mod_twice(a as int, m as int);
}

/// `(a + (b % m)) % m == (a + b) % m`.
pub proof fn lemma_mod_add_right(a: nat, b: nat, m: nat)
    requires
        m >= 1,
    ensures
        (a + (b % m)) % m == (a + b) % m,
{
    lemma_add_mod_noop_right(a as int, b as int, m as int);
}

/// Appending a certificate entry adds that entry's contribution.
pub proof fn lemma_combo_push(
    m: nat,
    divs: Seq<Seq<(nat, Seq<nat>)>>,
    cert: Seq<(nat, Seq<nat>, int)>,
    e: (nat, Seq<nat>, int),
    x: Seq<nat>,
)
    requires
        m >= 1,
    ensures
        combo_coeff(m, divs, cert.push(e), x) == (combo_coeff(m, divs, cert, x) + coeff_of(
            m,
            scale_view(divs[e.2], e.0, e.1),
            x,
        )) % m,
    decreases cert.len(),
{
    let sc = coeff_of(m, scale_view(divs[e.2], e.0, e.1), x);
    if cert.len() == 0 {
        assert(cert.push(e)[0] == e);
        assert(cert.push(e).drop_first() =~= cert);
        lemma_coeff_of_reduced(m, scale_view(divs[e.2], e.0, e.1), x);
        lemma_small_mod(sc, m);
    } else {
        assert(cert.push(e)[0] == cert[0]);
        assert(cert.push(e).drop_first() =~= cert.drop_first().push(e));
        lemma_combo_push(m, divs, cert.drop_first(), e, x);
        let h = coeff_of(m, scale_view(divs[cert[0].2], cert[0].0, cert[0].1), x);
        let c = combo_coeff(m, divs, cert.drop_first(), x);
        // (h + (c + sc) % m) % m == (h + c + sc) % m == ((h + c) % m + sc) % m
        lemma_mod_add_right(h, (c + sc), m);
        assert((h + (c + sc)) % m == ((h + c) + sc) % m) by {
            assert(h + (c + sc) == (h + c) + sc);
        }
        lemma_mod_add_left((h + c), sc, m);
    }
}

/// A usable divisor set for dividing `f`: every divisor has a leading
/// term, and, for a nonzero dividend, the arity matches.
pub open spec fn divisors_ok<E: IExponent>(f: &Polynomial<E>, ds: Seq<Polynomial<E>>) -> bool {
    &&& forall|j: int| 0 <= j < ds.len() ==> (#[trigger] ds[j]).terms@.len() > 0
    &&& f.terms@.len() > 0 ==> forall|j: int|
        0 <= j < ds.len() ==> poly_arity(#[trigger] ds[j]) == poly_arity(*f)
}

impl<E: IExponent> Polynomial<E> {
    /// Multivariate division of `self` by the divisor set, under the
    /// given policy and work budget.
    ///
    /// Rejects with `MalformedInput` exactly the divisor sets holding a
    /// zero polynomial or, for a nonzero dividend, a divisor of another
    /// arity. `BudgetExceeded` reports that more than `fuel` cancellation
    /// steps would be needed; `ExponentLimitExceeded` that a monomial
    /// product left the representation's range.
    #[verifier::loop_isolation(false)]
    #[verifier::rlimit(40)]
    pub fn reduce(
        &self,
        cfg: &GrobnerConfig,
        divisors: &Vec<Polynomial<E>>,
        policy: ReductionPolicy,
        fuel: u64,
    ) -> (r: Result<Polynomial<E>, GrobnerError>)
        requires
            cfg_wf(*cfg),
            poly_wf(*self, cfg.order, cfg.modulus as nat),
            forall|j: int|
                0 <= j < divisors@.len() ==> poly_wf(
                    #[trigger] divisors@[j],
                    cfg.order,
                    cfg.modulus as nat,
                ),
        ensures
            match r {
                Ok(q) => {
                    &&& poly_wf(q, cfg.order, cfg.modulus as nat)
                    &&& forall|k: int|
                        0 <= k < q.terms@.len() ==> (#[trigger] q.terms@[k]).exponents.exps().len()
                            == poly_arity(*self)
                    &&& reduces_to(
                        cfg.modulus as nat,
                        pview(*self),
                        pview(q),
                        divs_views(divisors@),
                    )
                    &&& exists|cert: Seq<(nat, Seq<nat>, int)>|
                        cert_ok(divs_views(divisors@), cert) && cert_arity(
                            cert,
                            poly_arity(*self),
                        ) && forall|x: Seq<nat>|
                            coeff_of(cfg.modulus as nat, pview(*self), x) == (coeff_of(
                                cfg.modulus as nat,
                                pview(q),
                                x,
                            ) + combo_coeff(
                                cfg.modulus as nat,
                                divs_views(divisors@),
                                cert,
                                x,
                            )) % (cfg.modulus as nat)
                    &&& policy == ReductionPolicy::AccumulateRemainder ==> fully_reduced(
                        pview(q),
                        divs_views(divisors@),
                    )
                    &&& policy == ReductionPolicy::StopOnIrreducible && q.terms@.len() > 0
                        ==> mono_irreducible(q.terms@[0].exponents.exps(), divs_views(divisors@))
                    &&& policy == ReductionPolicy::StopOnIrreducible && self.terms@.len() > 0
                        && mono_irreducible(
                        self.terms@[0].exponents.exps(),
                        divs_views(divisors@),
                    ) ==> pview(q) == pview(*self)
                    &&& fully_reduced(pview(*self), divs_views(divisors@)) ==> pview(q) == pview(
                        *self,
                    )
                },
                Err(e) => e == GrobnerError::MalformedInput || e == GrobnerError::BudgetExceeded
                    || e == GrobnerError::ExponentLimitExceeded,
            },
            r == Err::<Polynomial<E>, GrobnerError>(GrobnerError::MalformedInput) <==> !divisors_ok(
                self,
                divisors@,
            ),
            divisors_ok(self, divisors@) && fully_reduced(
                pview(*self),
                divs_views(divisors@),
            ) ==> r is Ok,
            divisors_ok(self, divisors@) && policy == ReductionPolicy::StopOnIrreducible
                && self.terms@.len() > 0 && mono_irreducible(
                self.terms@[0].exponents.exps(),
                divs_views(divisors@),
            ) ==> r is Ok,
    {
        let ghost o = cfg.order;
        let ghost m = cfg.modulus as nat;
        let ghost dviews = divs_views(divisors@);
        let ghost sar = poly_arity(*self);
        let nd = divisors.len();
        // validate the divisor set
        let mut j: usize = 0;
        while j < nd
            invariant
                j <= nd,
                forall|k: int|
                    0 <= k < j ==> (#[trigger] divisors@[k]).terms@.len() > 0 && (
                    self.terms@.len() > 0 ==> poly_arity(divisors@[k]) == sar),
            decreases nd - j,
        {
            if divisors[j].terms.len() == 0 {
                return Err(GrobnerError::MalformedInput);
            }
            if self.terms.len() > 0 {
                proof {
                    assert(term_wf(
                        divisors@[j as int].terms@[0],
                        m,
                        poly_arity(divisors@[j as int]),
                    ));
                    assert(term_wf(self.terms@[0], m, sar));
                }
                if divisors[j].terms[0].exponents.arity() != self.terms[0].exponents.arity() {
                    return Err(GrobnerError::MalformedInput);
                }
            }
            j = j + 1;
        }
        // the division loop
        let mut result: Polynomial<E> = self.dup();
        let mut remainder: Vec<Term<E>> = Vec::new();
        let mut steps: u64 = fuel;
        let mut stopped: bool = false;
        let ghost mut cert: Seq<(nat, Seq<nat>, int)> = Seq::empty();
        proof {
            assert(pview(result) =~= pview(*self));
            assert forall|x: Seq<nat>|
                (coeff_of(m, pview(result), x) + coeff_of(m, terms_view(remainder@), x)
                    + combo_coeff(m, dviews, cert, x)) % m == coeff_of(m, pview(*self), x) by {
                lemma_coeff_of_reduced(m, pview(*self), x);
                lemma_small_mod(coeff_of(m, pview(*self), x), m);
            }
        }
        while result.terms.len() > 0 && !stopped
            invariant
                poly_wf(result, o, m),
                forall|k: int|
                    0 <= k < result.terms@.len() ==> (
                    #[trigger] result.terms@[k]).exponents.exps().len() == sar,
                forall|k: int|
                    0 <= k < remainder@.len() ==> term_wf(#[trigger] remainder@[k], m, sar),
                forall|k: int|
                    0 <= k < remainder@.len() ==> mono_irreducible(
                        (#[trigger] remainder@[k]).exponents.exps(),
                        dviews,
                    ),
                cert_ok(dviews, cert),
                cert_arity(cert, sar),
                forall|x: Seq<nat>|
                    (coeff_of(m, pview(result), x) + coeff_of(m, terms_view(remainder@), x)
                        + combo_coeff(m, dviews, cert, x)) % m == coeff_of(m, pview(*self), x),
                fully_reduced(pview(*self), dviews) ==> cert == Seq::<(nat, Seq<nat>, int)>::empty()
                    && terms_view(remainder@) + pview(result) == pview(*self),
                policy == ReductionPolicy::StopOnIrreducible && self.terms@.len() > 0
                    && mono_irreducible(self.terms@[0].exponents.exps(), dviews) ==> pview(result)
                    == pview(*self) && remainder@.len() == 0,
                policy == ReductionPolicy::StopOnIrreducible ==> remainder@.len() == 0,
                stopped ==> policy == ReductionPolicy::StopOnIrreducible && result.terms@.len() > 0
                    && mono_irreducible(result.terms@[0].exponents.exps(), dviews),
            decreases steps, result.terms@.len(), (if stopped {
                0int
            } else {
                1int
            }),
        {
            // scan the divisors for one whose leading monomial divides ours
            let mut dj: usize = 0;
            let mut found: bool = false;
            while dj < nd && !found
                invariant
                    dj <= nd,
                    result.terms@.len() > 0,
                    forall|k: int|
                        0 <= k < dj ==> !divides_exps(
                            (#[trigger] divisors@[k]).terms@[0].exponents.exps(),
                            result.terms@[0].exponents.exps(),
                        ),
                    found ==> dj < nd && divides_exps(
                        divisors@[dj as int].terms@[0].exponents.exps(),
                        result.terms@[0].exponents.exps(),
                    ),
                decreases nd - dj, (if found {
                    0int
                } else {
                    1int
                }),
            {
                proof {
                    assert(term_wf(
                        divisors@[dj as int].terms@[0],
                        m,
                        poly_arity(divisors@[dj as int]),
                    ));
                    assert(term_wf(result.terms@[0], m, poly_arity(result)));
                }
                if result.terms[0].can_reduce(&divisors[dj].terms[0]) {
                    found = true;
                } else {
                    dj = dj + 1;
                }
            }
            if found {
                proof {
                    // a cancellation step happens only when neither
                    // success-owed situation holds
                    assert(dviews[dj as int] == pview(divisors@[dj as int]));
                    if fully_reduced(pview(*self), dviews) {
                        assert(pview(*self)[remainder@.len() as int].1
                            == result.terms@[0].exponents.exps()) by {
                            assert(terms_view(remainder@) + pview(result) == pview(*self));
                            assert(pview(*self)[remainder@.len() as int] == pview(result)[0]);
                        }
                        assert(mono_irreducible(result.terms@[0].exponents.exps(), dviews));
                        assert(false);
                    }
                    if policy == ReductionPolicy::StopOnIrreducible && self.terms@.len() > 0
                        && mono_irreducible(self.terms@[0].exponents.exps(), dviews) {
                        assert(pview(result) == pview(*self));
                        assert(pview(result)[0] == pview(*self)[0]);
                        assert(result.terms@[0].exponents.exps()
                            == self.terms@[0].exponents.exps()) by {
                            assert(pview(result)[0] == tview(result.terms@[0]));
                            assert(pview(*self)[0] == tview(self.terms@[0]));
                        }
                        assert(false);
                    }
                }
                // one cancellation step
                if steps == 0 {
                    return Err(GrobnerError::BudgetExceeded);
                }
                steps = steps - 1;
                proof {
                    assert(term_wf(result.terms@[0], m, poly_arity(result)));
                    assert(term_wf(
                        divisors@[dj as int].terms@[0],
                        m,
                        poly_arity(divisors@[dj as int]),
                    ));
                    lemma_prime_gcd(m, divisors@[dj as int].terms@[0].coefficient.i as nat);
                }
                let quotient_coeff = result.terms[0].coefficient.d(&divisors[dj].terms[0].coefficient);
                let quotient_exp = result.terms[0].exponents.sub(&divisors[dj].terms[0].exponents);
                let qt = Term { coefficient: quotient_coeff, exponents: quotient_exp };
                let scaled = match divisors[dj].multiply_by_term(cfg, &qt) {
                    Ok(s) => s,
                    Err(_) => {
                        return Err(GrobnerError::ExponentLimitExceeded);
                    },
                };
                let newres = result.subtract(cfg, &scaled);
                proof {
                    let ghost e = (
                        quotient_coeff.i as nat,
                        quotient_exp.exps(),
                        dj as int,
                    );
                    let oldcert = cert;
                    cert = cert.push(e);
                    assert(dviews[dj as int] == pview(divisors@[dj as int]));
                    assert forall|x: Seq<nat>|
                        (coeff_of(m, pview(newres), x) + coeff_of(m, terms_view(remainder@), x)
                            + combo_coeff(m, dviews, cert, x)) % m == coeff_of(
                            m,
                            pview(*self),
                            x,
                        ) by {
                        lemma_combo_push(m, dviews, oldcert, e, x);
                        let rn = coeff_of(m, pview(newres), x);
                        let rold = coeff_of(m, pview(result), x);
                        let rem = coeff_of(m, terms_view(remainder@), x);
                        let cc = combo_coeff(m, dviews, oldcert, x);
                        let sc = coeff_of(m, scale_view(dviews[dj as int], e.0, e.1), x);
                        // from multiply_by_term: coeff_of(scaled) == sc
                        assert(coeff_of(m, pview(scaled), x) == sc);
                        // from subtract: (rn + sc) % m == rold
                        assert((rn + coeff_of(m, pview(scaled), x)) % m == rold);
                        // combo with the new entry
                        assert(combo_coeff(m, dviews, cert, x) == (cc + sc) % m);
                        // rearrange
                        lemma_mod_add_right(rn + rem, (cc + sc), m);
                        assert((rn + rem + (cc + sc)) % m == ((rn + sc) + rem + cc) % m) by {
                            assert(rn + rem + (cc + sc) == (rn + sc) + rem + cc);
                        }
                        lemma_mod_add_left((rn + sc), (rem + cc), m);
                        assert(((rn + sc) + rem + cc) % m == ((rn + sc) % m + (rem + cc)) % m) by {
                            assert((rn + sc) + rem + cc == (rn + sc) + (rem + cc));
                            lemma_mod_add_left((rn + sc), (rem + cc), m);
                        }
                        assert(((rold + rem) + cc) % m == coeff_of(m, pview(*self), x)) by {
                            assert(rold + rem + cc == (rold + rem) + cc);
                        }
                    }
                }
                result = newres;
            } else {
                // the leading term is irreducible by every divisor
                proof {
                    assert forall|jj: int| 0 <= jj < dviews.len() implies !((
                    #[trigger] dviews[jj]).len() > 0 && divides_exps(
                        dviews[jj][0].1,
                        result.terms@[0].exponents.exps(),
                    )) by {
                        assert(dviews[jj] == pview(divisors@[jj]));
                        assert(dviews[jj][0] == tview(divisors@[jj].terms@[0]));
                    }
                    assert(mono_irreducible(result.terms@[0].exponents.exps(), dviews));
                }
                match policy {
                    ReductionPolicy::StopOnIrreducible => {
                        stopped = true;
                    },
                    ReductionPolicy::AccumulateRemainder => {
                        let ghost oldres = result.terms@;
                        let ghost oldrem = remainder@;
                        let t0 = result.terms.remove(0);
                        remainder.push(t0);
                        proof {
                            assert(term_wf(oldres[0], m, sar));
                            assert forall|k: int|
                                0 <= k < result.terms@.len() implies #[trigger] result.terms@[k]
                                == oldres[k + 1] by {}
                            assert forall|k: int| 0 <= k < result.terms@.len() implies term_wf(
                                #[trigger] result.terms@[k],
                                m,
                                poly_arity(result),
                            ) by {
                                assert(term_wf(oldres[k + 1], m, sar));
                                if result.terms@.len() > 0 {
                                    assert(poly_arity(result)
                                        == result.terms@[0].exponents.exps().len());
                                }
                            }
                            assert(poly_wf(result, o, m));
                            // the coefficient bookkeeping
                            assert forall|x: Seq<nat>|
                                (coeff_of(m, pview(result), x) + coeff_of(
                                    m,
                                    terms_view(remainder@),
                                    x,
                                ) + combo_coeff(m, dviews, cert, x)) % m == coeff_of(
                                    m,
                                    pview(*self),
                                    x,
                                ) by {
                                let tv0 = tview(t0);
                                let hc: nat = if tv0.1 == x {
                                    tv0.0
                                } else {
                                    0
                                };
                                assert(terms_view(oldres) =~= terms_view(result.terms@).insert(
                                    0,
                                    tv0,
                                ));
                                lemma_coeff_of_insert(m, terms_view(result.terms@), 0, tv0, x);
                                assert(terms_view(remainder@) =~= terms_view(oldrem).insert(
                                    oldrem.len() as int,
                                    tv0,
                                ));
                                lemma_coeff_of_insert(
                                    m,
                                    terms_view(oldrem),
                                    oldrem.len() as int,
                                    tv0,
                                    x,
                                );
                                let rn = coeff_of(m, terms_view(result.terms@), x);
                                let ro = coeff_of(m, terms_view(oldres), x);
                                let qo = coeff_of(m, terms_view(oldrem), x);
                                let qn = coeff_of(m, terms_view(remainder@), x);
                                let cc = combo_coeff(m, dviews, cert, x);
                                assert(ro == (hc + rn) % m);
                                assert(qn == (hc + qo) % m);
                                // (rn + qn + cc) % m == (ro + qo + cc) % m
                                lemma_mod_add_left((hc + qo), (rn + cc), m);
                                assert((rn + qn + cc) % m == (rn + (hc + qo) % m + cc) % m);
                                assert((rn + (hc + qo) % m + cc) % m == ((hc + qo) % m + (rn + cc))
                                    % m) by {
                                    assert(rn + (hc + qo) % m + cc == (hc + qo) % m + (rn + cc));
                                }
                                assert(((hc + qo) + (rn + cc)) % m == ((hc + rn) % m + (qo + cc))
                                    % m) by {
                                    lemma_mod_add_left((hc + rn), (qo + cc), m);
                                    assert((hc + qo) + (rn + cc) == (hc + rn) + (qo + cc));
                                }
                                assert(((hc + rn) % m + (qo + cc)) % m == (ro + qo + cc) % m) by {
                                    assert(ro == (hc + rn) % m);
                                    assert(ro + (qo + cc) == ro + qo + cc);
                                }
                            }
                            // the no-op tracking for an already-reduced input
                            if fully_reduced(pview(*self), dviews) {
                                assert(terms_view(remainder@) + pview(result) =~= terms_view(
                                    oldrem,
                                ) + terms_view(oldres));
                            }
                        }
                    },
                }
            }
        }
        // assemble the result
        if stopped {
            proof {
                assert forall|x: Seq<nat>|
                    coeff_of(m, pview(*self), x) == (coeff_of(m, pview(result), x) + combo_coeff(
                        m,
                        dviews,
                        cert,
                        x,
                    )) % m by {
                    assert(terms_view(remainder@).len() == 0);
                    assert((coeff_of(m, pview(result), x) + 0 + combo_coeff(m, dviews, cert, x))
                        % m == coeff_of(m, pview(*self), x));
                }
                assert(reduces_to(m, pview(*self), pview(result), dviews));
                assert(cert_ok(dviews, cert) && cert_arity(cert, sar) && forall|x: Seq<nat>|
                    coeff_of(m, pview(*self), x) == (coeff_of(m, pview(result), x) + combo_coeff(
                        m,
                        dviews,
                        cert,
                        x,
                    )) % m);
                if fully_reduced(pview(*self), dviews) {
                    assert(terms_view(remainder@) + pview(result) =~= pview(result));
                    assert(pview(result) == pview(*self));
                }
            }
            return Ok(result);
        }
        let q = canon_terms(cfg, &remainder, Ghost(sar));
        proof {
            // irreducibility carries over: the canonical result's monomials
            // all occur in the remainder
            lemma_acc_views(q.terms@, o, m, sar);
            lemma_sorted_distinct(o, m, pview(q), sar);
            assert(acc_wf(q.terms@, o, m, sar)) by {
                if q.terms@.len() > 0 {
                    assert(term_wf(q.terms@[0], m, sar));
                }
            }
            assert forall|k: int| 0 <= k < q.terms@.len() implies mono_irreducible(
                (#[trigger] pview(q)[k]).1,
                dviews,
            ) by {
                let x = pview(q)[k].1;
                assert(term_wf(q.terms@[k], m, poly_arity(q)));
                lemma_coeff_of_distinct_at(m, pview(q), k);
                assert(coeff_of(m, pview(q), x) == pview(q)[k].0);
                assert(pview(q)[k].0 > 0) by {
                    assert(pview(q)[k] == tview(q.terms@[k]));
                }
                assert(coeff_of(m, terms_view(remainder@), x) != 0);
                if forall|kk: int|
                    0 <= kk < remainder@.len() ==> (#[trigger] terms_view(remainder@)[kk]).1 != x {
                    lemma_coeff_of_absent(m, terms_view(remainder@), x);
                    assert(false);
                }
                let kk = choose|kk: int|
                    0 <= kk < remainder@.len() && (#[trigger] terms_view(remainder@)[kk]).1 == x;
                assert(terms_view(remainder@)[kk] == tview(remainder@[kk]));
                assert(mono_irreducible(remainder@[kk].exponents.exps(), dviews));
            }
            assert(fully_reduced(pview(q), dviews)) by {
                assert(forall|k: int|
                    0 <= k < pview(q).len() ==> (#[trigger] pview(q)[k]).1 == pview(q)[k].1);
            }
            // the certificate carries over through canonicalization
            assert forall|x: Seq<nat>|
                coeff_of(m, pview(*self), x) == (coeff_of(m, pview(q), x) + combo_coeff(
                    m,
                    dviews,
                    cert,
                    x,
                )) % m by {
                assert(coeff_of(m, pview(q), x) == coeff_of(m, terms_view(remainder@), x));
                assert((0 + coeff_of(m, terms_view(remainder@), x) + combo_coeff(
                    m,
                    dviews,
                    cert,
                    x,
                )) % m == coeff_of(m, pview(*self), x));
            }
            assert(reduces_to(m, pview(*self), pview(q), dviews));
            assert(cert_ok(dviews, cert) && cert_arity(cert, sar) && forall|x: Seq<nat>|
                coeff_of(m, pview(*self), x) == (coeff_of(m, pview(q), x) + combo_coeff(
                    m,
                    dviews,
                    cert,
                    x,
                )) % m);
            // an already fully reduced dividend comes back unchanged
            if fully_reduced(pview(*self), dviews) {
                assert(terms_view(remainder@) =~= pview(*self));
                lemma_acc_views(self.terms@, o, m, sar);
                assert(acc_wf(self.terms@, o, m, sar)) by {
                    if self.terms@.len() > 0 {
                        assert(term_wf(self.terms@[0], m, sar));
                    }
                }
                assert forall|x: Seq<nat>|
                    coeff_of(m, pview(q), x) == coeff_of(m, pview(*self), x) by {}
                lemma_canonical_unique(o, m, pview(q), pview(*self), sar);
            }
        }
        Ok(q)
    }
}

} // verus!
