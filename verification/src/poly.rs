//! Canonical polynomials: sequences of (coefficient, monomial) terms in
//! strictly descending term order, with duplicate monomials merged and zero
//! coefficients dropped.
//!
//! Every contract is stated against `coeff_of`, the mathematical
//! coefficient function of a term sequence: the sum, modulo the field
//! modulus, of the coefficients attached to a monomial. Two canonical
//! polynomials with the same coefficient function are equal
//! ([`lemma_canonical_unique`]), so a contract that fixes the coefficient
//! function and canonicality pins the result completely.

use vstd::prelude::*;
use vstd::pervasive::VecAdditionalExecFns;
use vstd::arithmetic::div_mod::lemma_add_mod_noop;
use vstd::arithmetic::div_mod::lemma_add_mod_noop_right;
use vstd::arithmetic::div_mod::lemma_mod_bound;
use vstd::arithmetic::div_mod::lemma_mod_twice;
use vstd::arithmetic::div_mod::lemma_mul_mod_noop_left;
use vstd::arithmetic::div_mod::lemma_mul_mod_noop_right;
use vstd::arithmetic::div_mod::lemma_small_mod;
use crate::config::GrobnerConfig;
use crate::config::GrobnerError;
use crate::config::cfg_wf;
use crate::exponent::IExponent;
use crate::int_mod_p::IntModP;
use crate::int_mod_p::imod_wf;
use crate::order::TermOrder;
use crate::order::lemma_ord_cmp_antisym;
use crate::order::lemma_ord_cmp_eq;
use crate::order::lemma_ord_cmp_range;
use crate::order::lemma_ord_cmp_trans;
use crate::order::ord_cmp;

verus! {

/// A coefficient paired with a monomial.
#[derive(Debug)]
pub struct Term<E: IExponent> {
    pub coefficient: IntModP,
    pub exponents: E,
}

/// An ordered sequence of terms; canonical when produced by this module's
/// constructors.
#[derive(Debug)]
pub struct Polynomial<E: IExponent> {
    pub terms: Vec<Term<E>>,
}

/// The view of one term: its coefficient as a natural number and its
/// exponent vector.
pub open spec fn tview<E: IExponent>(t: Term<E>) -> (nat, Seq<nat>) {
    (t.coefficient.i as nat, t.exponents.exps())
}

/// The view of a term sequence.
pub open spec fn terms_view<E: IExponent>(s: Seq<Term<E>>) -> Seq<(nat, Seq<nat>)> {
    s.map_values(|t: Term<E>| tview(t))
}

/// The view of a polynomial.
pub open spec fn pview<E: IExponent>(q: Polynomial<E>) -> Seq<(nat, Seq<nat>)> {
    terms_view(q.terms@)
}

/// The coefficient of monomial `x` in the term sequence `s`, modulo `m`:
/// the semantics a term sequence denotes.
pub open spec fn coeff_of(m: nat, s: Seq<(nat, Seq<nat>)>, x: Seq<nat>) -> nat
    decreases s.len(),
{
    if s.len() == 0 {
        0
    } else {
        ((if s[0].1 == x {
            s[0].0
        } else {
            0
        }) + coeff_of(m, s.drop_first(), x)) % m
    }
}

/// A term usable as input for a computation under modulus `m`: its
/// representation invariant holds and its coefficient lives in the
/// configured field. The coefficient need not be reduced or nonzero.
pub open spec fn term_in_ok<E: IExponent>(t: Term<E>, m: nat) -> bool {
    t.exponents.inv() && t.coefficient.p == m
}

/// A term of a canonical polynomial: additionally its coefficient is
/// reduced and nonzero, and its arity is fixed.
pub open spec fn term_wf<E: IExponent>(t: Term<E>, m: nat, arity: nat) -> bool {
    &&& t.exponents.inv()
    &&& t.exponents.exps().len() == arity
    &&& t.coefficient.p == m
    &&& 0 < t.coefficient.i < m
}

/// The arity of a polynomial: the length of its first monomial, zero for
/// the zero polynomial.
pub open spec fn poly_arity<E: IExponent>(q: Polynomial<E>) -> nat {
    if q.terms@.len() == 0 {
        0
    } else {
        q.terms@[0].exponents.exps().len()
    }
}

/// A canonical polynomial: all terms well formed with one shared arity,
/// strictly descending in the term order.
pub open spec fn poly_wf<E: IExponent>(q: Polynomial<E>, o: TermOrder, m: nat) -> bool {
    &&& forall|k: int|
        0 <= k < q.terms@.len() ==> term_wf(#[trigger] q.terms@[k], m, poly_arity(q))
    &&& forall|k: int|
        0 <= k < q.terms@.len() - 1 ==> ord_cmp(
            o,
            #[trigger] q.terms@[k].exponents.exps(),
            q.terms@[k + 1].exponents.exps(),
        ) == 1
}

/// Well-formedness of a term-sequence view: reduced nonzero coefficients,
/// one arity, strictly descending monomials.
pub open spec fn views_wf(o: TermOrder, m: nat, s: Seq<(nat, Seq<nat>)>, arity: nat) -> bool {
    &&& forall|k: int| 0 <= k < s.len() ==> 0 < (#[trigger] s[k]).0 < m
    &&& forall|k: int| 0 <= k < s.len() ==> (#[trigger] s[k]).1.len() == arity
    &&& forall|k: int| 0 <= k < s.len() - 1 ==> ord_cmp(o, (#[trigger] s[k]).1, s[k + 1].1) == 1
}

/// The coefficient function is already reduced modulo `m`.
pub proof fn lemma_coeff_of_reduced(m: nat, s: Seq<(nat, Seq<nat>)>, x: Seq<nat>)
    requires
        m >= 1,
    ensures
        coeff_of(m, s, x) % m == coeff_of(m, s, x),
        coeff_of(m, s, x) < m,
{
    if s.len() == 0 {
    } else {
        let inner = (if s[0].1 == x {
            s[0].0
        } else {
            0
        }) + coeff_of(m, s.drop_first(), x);
        lemma_mod_twice(inner as int, m as int);
        lemma_mod_bound(inner as int, m as int);
    }
}

/// The coefficient function distributes over concatenation.
pub proof fn lemma_coeff_of_concat(m: nat, s: Seq<(nat, Seq<nat>)>, t: Seq<(nat, Seq<nat>)>, x: Seq<nat>)
    requires
        m >= 1,
    ensures
        coeff_of(m, s + t, x) == (coeff_of(m, s, x) + coeff_of(m, t, x)) % m,
    decreases s.len(),
{
    if s.len() == 0 {
        assert(s + t =~= t);
        lemma_coeff_of_reduced(m, t, x);
    } else {
        assert((s + t).drop_first() =~= s.drop_first() + t);
        lemma_coeff_of_concat(m, s.drop_first(), t, x);
        let h: nat = if s[0].1 == x {
            s[0].0
        } else {
            0
        };
        let cs = coeff_of(m, s.drop_first(), x);
        let ct = coeff_of(m, t, x);
        assert((s + t)[0] == s[0]);
        // left side: (h + (cs + ct) % m) % m == (h + cs + ct) % m
        lemma_add_mod_noop_right(h as int, (cs + ct) as int, m as int);
        // right side: ((h + cs) % m + ct) % m == (h + cs + ct) % m
        lemma_coeff_of_reduced(m, t, x);
        lemma_add_mod_noop((h + cs) as int, ct as int, m as int);
        lemma_small_mod(ct, m);
    }
}

/// A monomial that appears nowhere has coefficient zero.
pub proof fn lemma_coeff_of_absent(m: nat, s: Seq<(nat, Seq<nat>)>, x: Seq<nat>)
    requires
        m >= 1,
        forall|k: int| 0 <= k < s.len() ==> (#[trigger] s[k]).1 != x,
    ensures
        coeff_of(m, s, x) == 0,
    decreases s.len(),
{
    if s.len() == 0 {
    } else {
        assert(s[0].1 != x);
        assert forall|k: int| 0 <= k < s.drop_first().len() implies (
        #[trigger] s.drop_first()[k]).1 != x by {
            assert(s.drop_first()[k] == s[k + 1]);
        }
        lemma_coeff_of_absent(m, s.drop_first(), x);
        lemma_small_mod(0nat, m);
    }
}

/// Where the monomials of `s` are pairwise distinct, the coefficient
/// function reads off the stored coefficient.
pub proof fn lemma_coeff_of_distinct_at(m: nat, s: Seq<(nat, Seq<nat>)>, k: int)
    requires
        m >= 1,
        0 <= k < s.len(),
        s[k].0 < m,
        forall|i: int, j: int| 0 <= i < j < s.len() ==> (#[trigger] s[i]).1 != (#[trigger] s[j]).1,
    ensures
        coeff_of(m, s, s[k].1) == s[k].0,
    decreases s.len(),
{
    let x = s[k].1;
    if k == 0 {
        assert(forall|j: int| 0 <= j < s.drop_first().len() ==> (#[trigger] s.drop_first()[j]).1
            != x);
        lemma_coeff_of_absent(m, s.drop_first(), x);
        lemma_small_mod(s[0].0, m);
    } else {
        assert(s[0].1 != x);
        lemma_coeff_of_distinct_at(m, s.drop_first(), k - 1);
        assert(s.drop_first()[k - 1] == s[k]);
        lemma_coeff_of_reduced(m, s.drop_first(), x);
        lemma_small_mod(coeff_of(m, s.drop_first(), x), m);
    }
}

/// Strictly descending adjacent monomials order every pair.
pub proof fn lemma_sorted_pairwise(o: TermOrder, m: nat, s: Seq<(nat, Seq<nat>)>, arity: nat, i: int, j: int)
    requires
        views_wf(o, m, s, arity),
        0 <= i < j < s.len(),
    ensures
        ord_cmp(o, s[i].1, s[j].1) == 1,
    decreases j - i,
{
    if j == i + 1 {
    } else {
        lemma_sorted_pairwise(o, m, s, arity, i, j - 1);
        lemma_ord_cmp_trans(o, s[i].1, s[j - 1].1, s[j].1);
    }
}

/// The monomials of a well-formed view are pairwise distinct.
pub proof fn lemma_sorted_distinct(o: TermOrder, m: nat, s: Seq<(nat, Seq<nat>)>, arity: nat)
    requires
        views_wf(o, m, s, arity),
    ensures
        forall|i: int, j: int| 0 <= i < j < s.len() ==> (#[trigger] s[i]).1 != (#[trigger] s[j]).1,
{
    assert forall|i: int, j: int| 0 <= i < j < s.len() implies (#[trigger] s[i]).1 != (
    #[trigger] s[j]).1 by {
        lemma_sorted_pairwise(o, m, s, arity, i, j);
        lemma_ord_cmp_eq(o, s[i].1, s[j].1);
    }
}

/// Two canonical views with the same coefficient function are equal: the
/// canonical form of a polynomial is unique, so identical inputs yield an
/// identical canonical result wherever the coefficient function is pinned.
pub proof fn lemma_canonical_unique(o: TermOrder, m: nat, a: Seq<(nat, Seq<nat>)>, b: Seq<(nat, Seq<nat>)>, arity: nat)
    requires
        m >= 1,
        views_wf(o, m, a, arity),
        views_wf(o, m, b, arity),
        forall|x: Seq<nat>| coeff_of(m, a, x) == coeff_of(m, b, x),
    ensures
        a == b,
    decreases a.len(),
{
    lemma_sorted_distinct(o, m, a, arity);
    lemma_sorted_distinct(o, m, b, arity);
    if a.len() == 0 && b.len() == 0 {
        assert(a =~= b);
    } else if a.len() == 0 {
        lemma_coeff_of_distinct_at(m, b, 0);
        assert(coeff_of(m, a, b[0].1) == 0);
        assert(false);
    } else if b.len() == 0 {
        lemma_coeff_of_distinct_at(m, a, 0);
        assert(coeff_of(m, b, a[0].1) == 0);
        assert(false);
    } else {
        // the leading monomials agree
        lemma_ord_cmp_range(o, a[0].1, b[0].1);
        if ord_cmp(o, a[0].1, b[0].1) == 1 {
            lemma_coeff_of_distinct_at(m, a, 0);
            assert forall|k: int| 0 <= k < b.len() implies (#[trigger] b[k]).1 != a[0].1 by {
                if k > 0 {
                    lemma_sorted_pairwise(o, m, b, arity, 0, k);
                    lemma_ord_cmp_trans(o, a[0].1, b[0].1, b[k].1);
                }
                lemma_ord_cmp_eq(o, a[0].1, b[k].1);
                lemma_ord_cmp_antisym(o, a[0].1, b[k].1);
            }
            lemma_coeff_of_absent(m, b, a[0].1);
            assert(false);
        }
        if ord_cmp(o, a[0].1, b[0].1) == -1 {
            lemma_ord_cmp_antisym(o, a[0].1, b[0].1);
            lemma_coeff_of_distinct_at(m, b, 0);
            assert forall|k: int| 0 <= k < a.len() implies (#[trigger] a[k]).1 != b[0].1 by {
                if k > 0 {
                    lemma_sorted_pairwise(o, m, a, arity, 0, k);
                    lemma_ord_cmp_trans(o, b[0].1, a[0].1, a[k].1);
                }
                lemma_ord_cmp_eq(o, b[0].1, a[k].1);
                lemma_ord_cmp_antisym(o, b[0].1, a[k].1);
            }
            lemma_coeff_of_absent(m, a, b[0].1);
            assert(false);
        }
        lemma_ord_cmp_eq(o, a[0].1, b[0].1);
        assert(a[0].1 == b[0].1);
        // the leading coefficients agree
        lemma_coeff_of_distinct_at(m, a, 0);
        lemma_coeff_of_distinct_at(m, b, 0);
        assert(a[0].0 == b[0].0);
        // the tails have the same coefficient function
        let ta = a.drop_first();
        let tb = b.drop_first();
        assert(views_wf(o, m, ta, arity)) by {
            assert(forall|k: int| 0 <= k < ta.len() ==> #[trigger] ta[k] == a[k + 1]);
        }
        assert(views_wf(o, m, tb, arity)) by {
            assert(forall|k: int| 0 <= k < tb.len() ==> #[trigger] tb[k] == b[k + 1]);
        }
        assert forall|x: Seq<nat>| coeff_of(m, ta, x) == coeff_of(m, tb, x) by {
            lemma_coeff_of_reduced(m, ta, x);
            lemma_coeff_of_reduced(m, tb, x);
            if x == a[0].1 {
                assert(forall|k: int| 0 <= k < ta.len() ==> (#[trigger] ta[k]).1 != x);
                assert(forall|k: int| 0 <= k < tb.len() ==> (#[trigger] tb[k]).1 != x);
                lemma_coeff_of_absent(m, ta, x);
                lemma_coeff_of_absent(m, tb, x);
            } else {
                assert(coeff_of(m, a, x) == (0 + coeff_of(m, ta, x)) % m);
                assert(coeff_of(m, b, x) == (0 + coeff_of(m, tb, x)) % m);
            }
        }
        lemma_canonical_unique(o, m, ta, tb, arity);
        assert forall|i: int| 0 <= i < a.len() implies a[i] == b[i] by {
            if i > 0 {
                assert(a[i] == ta[i - 1]);
                assert(b[i] == tb[i - 1]);
            }
        }
        assert(a =~= b);
    }
}

/// Leading-term monotonicity: in a canonical polynomial the leading term
/// compares at least as great as every term, strictly greater than every
/// later one, under the active order.
pub proof fn lemma_leading_term_dominates<E: IExponent>(
    q: Polynomial<E>,
    o: TermOrder,
    m: nat,
    k: int,
)
    requires
        poly_wf(q, o, m),
        0 <= k < q.terms@.len(),
    ensures
        ord_cmp(o, q.terms@[0].exponents.exps(), q.terms@[k].exponents.exps()) >= 0,
        k > 0 ==> ord_cmp(o, q.terms@[0].exponents.exps(), q.terms@[k].exponents.exps()) == 1,
{
    let v = terms_view(q.terms@);
    assert(views_wf(o, m, v, poly_arity(q))) by {
        assert(forall|t: int| 0 <= t < q.terms@.len() ==> #[trigger] v[t] == tview(q.terms@[t]));
    }
    if k > 0 {
        lemma_sorted_pairwise(o, m, v, poly_arity(q), 0, k);
        assert(v[0].1 == q.terms@[0].exponents.exps());
        assert(v[k].1 == q.terms@[k].exponents.exps());
    } else {
        lemma_ord_cmp_eq(o, q.terms@[0].exponents.exps(), q.terms@[k].exponents.exps());
    }
}

/// Representation independence: two canonical polynomials, in any two
/// monomial representations, that denote the same coefficient function
/// are term-for-term identical as views. Every constructor and operation
/// of this crate pins its result's coefficient function by the argument
/// views alone, so the dense and the packed representation yield
/// identical canonical results wherever both fit.
pub proof fn lemma_packed_dense_equivalence<E1: IExponent, E2: IExponent>(
    a: Polynomial<E1>,
    b: Polynomial<E2>,
    o: TermOrder,
    m: nat,
    arity: nat,
)
    requires
        m >= 1,
        poly_wf(a, o, m),
        poly_wf(b, o, m),
        forall|k: int|
            0 <= k < a.terms@.len() ==> (#[trigger] a.terms@[k]).exponents.exps().len() == arity,
        forall|k: int|
            0 <= k < b.terms@.len() ==> (#[trigger] b.terms@[k]).exponents.exps().len() == arity,
        forall|x: Seq<nat>| coeff_of(m, pview(a), x) == coeff_of(m, pview(b), x),
    ensures
        pview(a) == pview(b),
{
    let va = pview(a);
    let vb = pview(b);
    assert(views_wf(o, m, va, arity)) by {
        assert(forall|t: int| 0 <= t < a.terms@.len() ==> #[trigger] va[t] == tview(a.terms@[t]));
        assert(forall|t: int|
            0 <= t < a.terms@.len() ==> term_wf(#[trigger] a.terms@[t], m, poly_arity(a)));
    }
    assert(views_wf(o, m, vb, arity)) by {
        assert(forall|t: int| 0 <= t < b.terms@.len() ==> #[trigger] vb[t] == tview(b.terms@[t]));
        assert(forall|t: int|
            0 <= t < b.terms@.len() ==> term_wf(#[trigger] b.terms@[t], m, poly_arity(b)));
    }
    lemma_canonical_unique(o, m, va, vb, arity);
}

/// Inserting a term adds its contribution to the coefficient function.
pub proof fn lemma_coeff_of_insert(m: nat, s: Seq<(nat, Seq<nat>)>, j: int, t: (nat, Seq<nat>), x: Seq<nat>)
    requires
        m >= 1,
        0 <= j <= s.len(),
    ensures
        coeff_of(m, s.insert(j, t), x) == ((if t.1 == x {
            t.0
        } else {
            0
        }) + coeff_of(m, s, x)) % m,
{
    let a = s.take(j);
    let c = s.skip(j);
    let tb: nat = if t.1 == x {
        t.0
    } else {
        0
    };
    assert(s =~= a + c);
    assert(s.insert(j, t) =~= (a + seq![t]) + c);
    lemma_coeff_of_concat(m, a + seq![t], c, x);
    lemma_coeff_of_concat(m, a, seq![t], x);
    lemma_coeff_of_concat(m, a, c, x);
    assert(seq![t].drop_first() =~= Seq::<(nat, Seq<nat>)>::empty());
    assert(coeff_of(m, Seq::<(nat, Seq<nat>)>::empty(), x) == 0);
    assert(seq![t][0] == t);
    assert(coeff_of(m, seq![t], x) == (tb + 0) % m);
    let ca = coeff_of(m, a, x);
    let cc = coeff_of(m, c, x);
    lemma_coeff_of_reduced(m, a, x);
    lemma_coeff_of_reduced(m, c, x);
    // (ca + tb % m) % m == (ca + tb) % m
    lemma_add_mod_noop_right(ca as int, tb as int, m as int);
    // ((ca + tb) % m + cc) % m == (ca + tb + cc) % m
    lemma_add_mod_noop((ca + tb) as int, cc as int, m as int);
    lemma_small_mod(cc, m);
    // (tb + (ca + cc) % m) % m == (tb + ca + cc) % m
    lemma_add_mod_noop_right(tb as int, (ca + cc) as int, m as int);
}

/// Removing a term takes its contribution out of the coefficient function.
pub proof fn lemma_coeff_of_remove(m: nat, s: Seq<(nat, Seq<nat>)>, j: int, x: Seq<nat>)
    requires
        m >= 1,
        0 <= j < s.len(),
    ensures
        coeff_of(m, s, x) == ((if s[j].1 == x {
            s[j].0
        } else {
            0
        }) + coeff_of(m, s.remove(j), x)) % m,
{
    assert(s =~= s.remove(j).insert(j, s[j]));
    lemma_coeff_of_insert(m, s.remove(j), j, s[j], x);
}

/// Exec three-way comparison of two monomials under a term order, as a
/// sign agreeing with `ord_cmp`.
pub fn ord_compare<E: IExponent>(order: TermOrder, a: &E, b: &E) -> (r: i32)
    requires
        a.inv(),
        b.inv(),
        a.exps().len() == b.exps().len(),
    ensures
        r as int == ord_cmp(order, a.exps(), b.exps()),
{
    match order {
        TermOrder::Lex => a.lex_compare(b),
        TermOrder::GrLex => {
            let da = a.degree();
            let db = b.degree();
            if da < db {
                -1
            } else if da > db {
                1
            } else {
                a.lex_compare(b)
            }
        },
        TermOrder::RevLex => {
            let da = a.degree();
            let db = b.degree();
            if da < db {
                -1
            } else if da > db {
                1
            } else {
                a.rev_lex_compare(b)
            }
        },
    }
}

/// The contribution of one term view to the coefficient of monomial `x`.
pub open spec fn tcontrib(t: (nat, Seq<nat>), x: Seq<nat>) -> nat {
    if t.1 == x {
        t.0
    } else {
        0
    }
}

/// The invariant of the canonical accumulator: well-formed terms of one
/// arity, strictly descending.
pub open spec fn acc_wf<E: IExponent>(s: Seq<Term<E>>, o: TermOrder, m: nat, arity: nat) -> bool {
    &&& forall|k: int| 0 <= k < s.len() ==> term_wf(#[trigger] s[k], m, arity)
    &&& forall|k: int|
        0 <= k < s.len() - 1 ==> ord_cmp(
            o,
            (#[trigger] s[k]).exponents.exps(),
            s[k + 1].exponents.exps(),
        ) == 1
}

/// Bridges the accumulator invariant to the view-level one.
pub proof fn lemma_acc_views<E: IExponent>(s: Seq<Term<E>>, o: TermOrder, m: nat, arity: nat)
    requires
        acc_wf(s, o, m, arity),
    ensures
        views_wf(o, m, terms_view(s), arity),
{
    let v = terms_view(s);
    assert(forall|k: int| 0 <= k < s.len() ==> #[trigger] v[k] == tview(s[k]));
}

impl<E: IExponent> Term<E> {
    /// Pairs a coefficient with a monomial.
    pub fn from_exponents(coefficient: IntModP, exponents: E) -> (r: Term<E>)
        ensures
            r.coefficient == coefficient,
            r.exponents == exponents,
    {
        Term { coefficient, exponents }
    }

    /// An independent copy with the same view.
    pub fn dup(&self) -> (r: Term<E>)
        requires
            self.exponents.inv(),
        ensures
            r.coefficient == self.coefficient,
            r.exponents.exps() == self.exponents.exps(),
            r.exponents.inv(),
            tview(r) == tview(*self),
    {
        Term { coefficient: self.coefficient.copy(), exponents: self.exponents.dup() }
    }

    /// Compares two terms' monomials under the given order, as a sign.
    pub fn compare(&self, other: &Term<E>, order: TermOrder) -> (r: i32)
        requires
            self.exponents.inv(),
            other.exponents.inv(),
            self.exponents.exps().len() == other.exponents.exps().len(),
        ensures
            r as int == ord_cmp(order, self.exponents.exps(), other.exponents.exps()),
    {
        ord_compare(order, &self.exponents, &other.exponents)
    }

    /// Whether the divisor's leading monomial divides this term's.
    pub fn can_reduce(&self, divisor_leading: &Term<E>) -> (r: bool)
        requires
            self.exponents.inv(),
            divisor_leading.exponents.inv(),
            self.exponents.exps().len() == divisor_leading.exponents.exps().len(),
        ensures
            r == crate::exponent::divides_exps(
                divisor_leading.exponents.exps(),
                self.exponents.exps(),
            ),
    {
        self.exponents.can_reduce(&divisor_leading.exponents)
    }

    /// The least common multiple of two terms' monomials.
    pub fn lcm(&self, other: &Term<E>) -> (r: E)
        requires
            self.exponents.inv(),
            other.exponents.inv(),
            self.exponents.exps().len() == other.exponents.exps().len(),
        ensures
            r.inv(),
            r.exps() == crate::exponent::lcm_exps(self.exponents.exps(), other.exponents.exps()),
    {
        self.exponents.lcm(&other.exponents)
    }
}

/// Folds one term into the canonical accumulator: merges it into a term
/// with the same monomial, drops a cancelled term, or inserts it at its
/// order position.
#[verifier::loop_isolation(false)]
#[verifier::rlimit(100)]
fn canon_insert<E: IExponent>(
    cfg: &GrobnerConfig,
    out: &mut Vec<Term<E>>,
    t: &Term<E>,
    Ghost(arity): Ghost<nat>,
)
    requires
        cfg_wf(*cfg),
        acc_wf(old(out)@, cfg.order, cfg.modulus as nat, arity),
        t.exponents.inv(),
        t.exponents.exps().len() == arity,
        t.coefficient.p == cfg.modulus,
    ensures
        acc_wf(final(out)@, cfg.order, cfg.modulus as nat, arity),
        forall|x: Seq<nat>|
            coeff_of(cfg.modulus as nat, terms_view(final(out)@), x) == (coeff_of(
                cfg.modulus as nat,
                terms_view(old(out)@),
                x,
            ) + tcontrib(tview(*t), x)) % (cfg.modulus as nat),
{
    let ghost o = cfg.order;
    let ghost m = cfg.modulus as nat;
    let ghost s0 = terms_view(old(out)@);
    let ghost mono = t.exponents.exps();
    proof {
        lemma_acc_views(old(out)@, o, m, arity);
    }
    let c = IntModP::new(t.coefficient.i, t.coefficient.p);
    assert(c.i as nat == (t.coefficient.i as nat) % m);
    if c.i == 0 {
        // the contribution vanishes modulo m
        assert forall|x: Seq<nat>|
            coeff_of(m, terms_view(out@), x) == (coeff_of(m, s0, x) + tcontrib(tview(*t), x))
                % m by {
            lemma_coeff_of_reduced(m, s0, x);
            lemma_add_mod_noop_right(
                coeff_of(m, s0, x) as int,
                tcontrib(tview(*t), x) as int,
                m as int,
            );
            assert(tview(*t).1 == mono);
            if tview(*t).1 == x {
                assert(tcontrib(tview(*t), x) == t.coefficient.i as nat);
                assert(((t.coefficient.i as nat) as int) % (m as int) == c.i as int);
            } else {
                lemma_small_mod(0nat, m);
            }
            assert(tcontrib(tview(*t), x) % m == 0);
            lemma_small_mod(coeff_of(m, s0, x), m);
        }
        return ;
    }
    let n = out.len();
    let mut j: usize = 0;
    while j < n
        invariant
            j <= n,
            n == out@.len(),
            out@ == old(out)@,
            t.exponents.inv(),
            mono == t.exponents.exps(),
            acc_wf(out@, o, m, arity),
            forall|k: int| 0 <= k < j ==> (#[trigger] out@[k]).exponents.exps() != mono,
        decreases n - j,
    {
        proof {
            assert(term_wf(out@[j as int], m, arity));
            assert(s0[j as int] == tview(out@[j as int]));
        }
        if out[j].exponents.exp_eq(&t.exponents) {
            // merge into the matching term
            let oldc = out[j].coefficient.copy();
            let newc = oldc.a(&c);
            let ghost cj = s0[j as int].0;
            assert(cj == oldc.i as nat);
            assert(newc.i as nat == ((cj + c.i as nat) as int) % (m as int));
            if newc.i == 0 {
                let ghost s_new = s0.remove(j as int);
                out.remove(j);
                proof {
                    assert(terms_view(out@) =~= s_new);
                    assert forall|k: int| 0 <= k < out@.len() implies #[trigger] out@[k]
                        == old(out)@[if k < j {
                        k
                    } else {
                        k + 1
                    }] by {}
                    assert forall|k: int| 0 <= k < out@.len() - 1 implies ord_cmp(
                        o,
                        (#[trigger] out@[k]).exponents.exps(),
                        out@[k + 1].exponents.exps(),
                    ) == 1 by {
                        lemma_acc_views(old(out)@, o, m, arity);
                        if k == j - 1 {
                            lemma_sorted_pairwise(o, m, s0, arity, k, k + 2);
                        }
                    }
                    assert(acc_wf(out@, o, m, arity));
                    assert forall|x: Seq<nat>|
                        coeff_of(m, terms_view(out@), x) == (coeff_of(m, s0, x) + tcontrib(
                            tview(*t),
                            x,
                        )) % m by {
                        lemma_coeff_of_remove(m, s0, j as int, x);
                        lemma_coeff_of_reduced(m, s_new, x);
                        let cs = coeff_of(m, s_new, x);
                        let tb = tcontrib(tview(*t), x);
                        let hj = tcontrib(s0[j as int], x);
                        // goal: cs == ((hj + cs) % m + tb) % m
                        lemma_add_mod_noop((hj + cs) as int, tb as int, m as int);
                        lemma_small_mod(tb % m, m);
                        lemma_mod_twice(tb as int, m as int);
                        assert(((hj + cs) % m + tb) % m == ((hj + cs) % m + tb % m) % m) by {
                            lemma_add_mod_noop_right(((hj + cs) % m) as int, tb as int, m as int);
                        }
                        if s0[j as int].1 == x {
                            assert(hj == cj && tb == t.coefficient.i as nat);
                            // hj + tb ≡ cj + c.i ≡ 0 (mod m)
                            lemma_add_mod_noop_right(cj as int, t.coefficient.i as int, m as int);
                            assert(((cj + t.coefficient.i as nat) as int) % (m as int) == ((cj
                                + c.i as nat) as int) % (m as int));
                            lemma_add_mod_noop(hj as int, cs as int, m as int);
                            lemma_small_mod(cs, m);
                            assert(((hj + cs) % m + tb) % m == (hj + cs + tb) % m) by {
                                lemma_add_mod_noop((hj + cs) as int, tb as int, m as int);
                                lemma_small_mod(tb % m, m);
                                lemma_add_mod_noop_right(
                                    ((hj + cs) % m) as int,
                                    tb as int,
                                    m as int,
                                );
                            }
                            assert((hj + cs + tb) % m == (cs + (hj + tb)) % m) by {
                                assert(hj + cs + tb == cs + (hj + tb));
                            }
                            lemma_add_mod_noop_right(cs as int, (hj + tb) as int, m as int);
                            assert((cs + (hj + tb)) % m == (cs + ((hj + tb) % m)) % m);
                            assert(((hj + tb) as int) % (m as int) == 0);
                            lemma_small_mod(cs, m);
                        } else {
                            assert(hj == 0 && tb == 0);
                            lemma_small_mod(cs, m);
                            lemma_mod_twice(cs as int, m as int);
                        }
                    }
                }
            } else {
                let e2 = out[j].exponents.dup();
                let ghost tv2 = (newc.i as nat, mono);
                out.set(j, Term { coefficient: newc, exponents: e2 });
                proof {
                    let s_new = terms_view(out@);
                    assert(s_new =~= s0.update(j as int, tv2));
                    assert forall|k: int| 0 <= k < out@.len() implies (
                    #[trigger] out@[k]).exponents.exps() == old(out)@[k].exponents.exps() by {}
                    assert(acc_wf(out@, o, m, arity)) by {
                        assert(forall|k: int|
                            0 <= k < out@.len() && k != j ==> #[trigger] out@[k] == old(out)@[k]);
                    }
                    let rest = s0.remove(j as int);
                    assert(s_new =~= rest.insert(j as int, tv2));
                    assert forall|x: Seq<nat>|
                        coeff_of(m, s_new, x) == (coeff_of(m, s0, x) + tcontrib(tview(*t), x))
                            % m by {
                        lemma_coeff_of_remove(m, s0, j as int, x);
                        lemma_coeff_of_insert(m, rest, j as int, tv2, x);
                        let cr = coeff_of(m, rest, x);
                        let tb = tcontrib(tview(*t), x);
                        let hj = tcontrib(s0[j as int], x);
                        let h2 = tcontrib(tv2, x);
                        // lhs == (h2 + cr) % m ; rhs == ((hj + cr) % m + tb) % m
                        lemma_coeff_of_reduced(m, rest, x);
                        lemma_add_mod_noop((hj + cr) as int, tb as int, m as int);
                        lemma_mod_twice(tb as int, m as int);
                        lemma_add_mod_noop_right(((hj + cr) % m) as int, tb as int, m as int);
                        assert(((hj + cr) % m + tb) % m == (hj + cr + tb) % m) by {
                            lemma_add_mod_noop((hj + cr) as int, tb as int, m as int);
                            lemma_small_mod(cr, m);
                        }
                        if s0[j as int].1 == x {
                            assert(hj == cj && tb == t.coefficient.i as nat && h2 == newc.i as nat);
                            assert((hj + cr + tb) % m == (cr + (cj + tb)) % m) by {
                                assert(hj + cr + tb == cr + (cj + tb));
                            }
                            lemma_add_mod_noop_right(cr as int, (cj + tb) as int, m as int);
                            lemma_add_mod_noop_right(cj as int, tb as int, m as int);
                            assert(((cj + tb) as int) % (m as int) == ((cj + c.i as nat) as int) % (
                            m as int));
                            assert(((cj + tb) % m) == newc.i as nat);
                            lemma_add_mod_noop_right(cr as int, (newc.i as nat) as int, m as int);
                            assert((cr + (cj + tb)) % m == (cr + newc.i as nat) % m);
                            assert((h2 + cr) % m == (cr + h2) % m);
                        } else {
                            assert(hj == 0 && tb == 0 && h2 == 0);
                        }
                    }
                }
            }
            return ;
        }
        j = j + 1;
    }
    // no matching monomial: insert at the order position
    let mut k: usize = 0;
    let mut done: bool = false;
    while k < n && !done
        invariant
            k <= n,
            forall|kk: int|
                0 <= kk < k ==> ord_cmp(o, (#[trigger] out@[kk]).exponents.exps(), mono) == 1,
            done ==> k < n && ord_cmp(o, mono, out@[k as int].exponents.exps()) == 1,
        decreases n - k, (if done {
            0int
        } else {
            1int
        }),
    {
        proof {
            assert(term_wf(out@[k as int], m, arity));
        }
        let cmpv = ord_compare(cfg.order, &t.exponents, &out[k].exponents);
        if cmpv == 1 {
            done = true;
        } else {
            proof {
                let ek = out@[k as int].exponents.exps();
                lemma_ord_cmp_range(o, mono, ek);
                lemma_ord_cmp_eq(o, mono, ek);
                assert(ord_cmp(o, mono, ek) == -1);
                lemma_ord_cmp_antisym(o, mono, ek);
            }
            k = k + 1;
        }
    }
    let tnew = Term { coefficient: c, exponents: t.exponents.dup() };
    let ghost tvc = (c.i as nat, mono);
    out.insert(k, tnew);
    proof {
        let s_new = terms_view(out@);
        assert(s_new =~= s0.insert(k as int, tvc));
        assert forall|kk: int| 0 <= kk < out@.len() implies #[trigger] out@[kk] == (if kk < k {
            old(out)@[kk]
        } else if kk == k {
            tnew
        } else {
            old(out)@[kk - 1]
        }) by {}
        assert(term_wf(tnew, m, arity));
        assert forall|kk: int| 0 <= kk < out@.len() - 1 implies ord_cmp(
            o,
            (#[trigger] out@[kk]).exponents.exps(),
            out@[kk + 1].exponents.exps(),
        ) == 1 by {}
        assert(acc_wf(out@, o, m, arity));
        assert forall|x: Seq<nat>|
            coeff_of(m, s_new, x) == (coeff_of(m, s0, x) + tcontrib(tview(*t), x)) % m by {
            lemma_coeff_of_insert(m, s0, k as int, tvc, x);
            let cs = coeff_of(m, s0, x);
            let tb = tcontrib(tview(*t), x);
            let hb = tcontrib(tvc, x);
            lemma_coeff_of_reduced(m, s0, x);
            // (hb + cs) % m == (cs + tb) % m since hb == tb % m
            lemma_add_mod_noop_right(cs as int, tb as int, m as int);
            assert(tview(*t).1 == mono);
            if mono == x {
                assert(hb == c.i as nat && tb == t.coefficient.i as nat);
            } else {
                lemma_small_mod(0nat, m);
            }
            assert(hb == tb % m);
            assert((hb + cs) % m == (cs + hb) % m);
            assert((cs + (tb % m)) % m == (cs + tb) % m);
        }
    }
}

/// Termwise congruent sequences with the same monomials have the same
/// coefficient function.
pub proof fn lemma_coeff_of_congruent(m: nat, s: Seq<(nat, Seq<nat>)>, t: Seq<(nat, Seq<nat>)>, x: Seq<nat>)
    requires
        m >= 1,
        s.len() == t.len(),
        forall|k: int|
            0 <= k < s.len() ==> (#[trigger] s[k]).1 == (#[trigger] t[k]).1 && s[k].0 % m == t[k].0
                % m,
    ensures
        coeff_of(m, s, x) == coeff_of(m, t, x),
    decreases s.len(),
{
    if s.len() == 0 {
    } else {
        assert(forall|k: int|
            0 <= k < s.drop_first().len() ==> #[trigger] s.drop_first()[k] == s[k + 1]
                && #[trigger] t.drop_first()[k] == t[k + 1]);
        lemma_coeff_of_congruent(m, s.drop_first(), t.drop_first(), x);
        let c = coeff_of(m, s.drop_first(), x);
        let hs: nat = if s[0].1 == x {
            s[0].0
        } else {
            0
        };
        let ht: nat = if t[0].1 == x {
            t[0].0
        } else {
            0
        };
        assert(hs % m == ht % m) by {
            if s[0].1 != x {
                lemma_small_mod(0nat, m);
            }
        }
        lemma_add_mod_noop(hs as int, c as int, m as int);
        lemma_add_mod_noop(ht as int, c as int, m as int);
    }
}

/// A sequence whose coefficients cancel another's termwise denotes its
/// additive inverse.
pub proof fn lemma_coeff_of_cancel(m: nat, s: Seq<(nat, Seq<nat>)>, t: Seq<(nat, Seq<nat>)>, x: Seq<nat>)
    requires
        m >= 1,
        s.len() == t.len(),
        forall|k: int|
            0 <= k < s.len() ==> (#[trigger] s[k]).1 == (#[trigger] t[k]).1 && ((s[k].0 + t[k].0)
                % m) == 0,
    ensures
        (coeff_of(m, s, x) + coeff_of(m, t, x)) % m == 0,
    decreases s.len(),
{
    if s.len() == 0 {
        lemma_small_mod(0nat, m);
    } else {
        assert(forall|k: int|
            0 <= k < s.drop_first().len() ==> #[trigger] s.drop_first()[k] == s[k + 1]
                && #[trigger] t.drop_first()[k] == t[k + 1]);
        lemma_coeff_of_cancel(m, s.drop_first(), t.drop_first(), x);
        let cs = coeff_of(m, s.drop_first(), x);
        let ct = coeff_of(m, t.drop_first(), x);
        let hs: nat = if s[0].1 == x {
            s[0].0
        } else {
            0
        };
        let ht: nat = if t[0].1 == x {
            t[0].0
        } else {
            0
        };
        assert((hs + ht) % m == 0) by {
            if s[0].1 != x {
                lemma_small_mod(0nat, m);
            }
        }
        // ((hs + cs) % m + (ht + ct) % m) % m == (hs + ht + cs + ct) % m == 0
        lemma_add_mod_noop((hs + cs) as int, (ht + ct) as int, m as int);
        assert((hs + cs + (ht + ct)) % m == (((hs + ht) + (cs + ct)) as int) % (m as int)) by {
            assert(hs + cs + (ht + ct) == (hs + ht) + (cs + ct));
        }
        lemma_add_mod_noop((hs + ht) as int, (cs + ct) as int, m as int);
        lemma_mod_twice((cs + ct) as int, m as int);
        lemma_small_mod(0nat, m);
    }
}

/// A sequence whose coefficients are another's multiplied by one scalar,
/// on the same monomials, denotes the scaled coefficient function.
pub proof fn lemma_coeff_of_mul_congruent(
    m: nat,
    s: Seq<(nat, Seq<nat>)>,
    t: Seq<(nat, Seq<nat>)>,
    sc: nat,
    x: Seq<nat>,
)
    requires
        m >= 1,
        s.len() == t.len(),
        forall|k: int|
            0 <= k < s.len() ==> (#[trigger] t[k]).1 == (#[trigger] s[k]).1 && (t[k].0 as int) == ((
            s[k].0 * sc) as int) % (m as int),
    ensures
        coeff_of(m, t, x) == (sc * coeff_of(m, s, x)) % m,
    decreases s.len(),
{
    if s.len() == 0 {
        assert(sc * 0 == 0);
        lemma_small_mod(0nat, m);
    } else {
        assert(forall|k: int|
            0 <= k < s.drop_first().len() ==> #[trigger] s.drop_first()[k] == s[k + 1]
                && #[trigger] t.drop_first()[k] == t[k + 1]);
        lemma_coeff_of_mul_congruent(m, s.drop_first(), t.drop_first(), sc, x);
        let cs = coeff_of(m, s.drop_first(), x);
        let ct = coeff_of(m, t.drop_first(), x);
        assert(ct == (sc * cs) % m);
        let hs: nat = if s[0].1 == x {
            s[0].0
        } else {
            0
        };
        let ht: nat = if t[0].1 == x {
            t[0].0
        } else {
            0
        };
        // (ht + (sc*cs) % m) % m == (sc*hs + sc*cs) % m == (sc*(hs + cs)) % m
        lemma_add_mod_noop_right(ht as int, (sc * cs) as int, m as int);
        assert((ht + (sc * cs) % m) % m == (ht + sc * cs) % m);
        if s[0].1 == x {
            assert((ht as int) == ((hs * sc) as int) % (m as int));
            lemma_add_mod_noop(ht as int, (sc * cs) as int, m as int);
            lemma_mod_twice(ht as int, m as int);
            assert((ht + sc * cs) % m == ((hs * sc) % m + sc * cs) % m) by {
                lemma_add_mod_noop((hs * sc) as int, (sc * cs) as int, m as int);
                lemma_mod_twice((hs * sc) as int, m as int);
                lemma_add_mod_noop(((hs * sc) % m) as int, (sc * cs) as int, m as int);
            }
            assert(((hs * sc) % m + sc * cs) % m == (hs * sc + sc * cs) % m) by {
                lemma_add_mod_noop((hs * sc) as int, (sc * cs) as int, m as int);
                lemma_mod_twice((hs * sc) as int, m as int);
                lemma_add_mod_noop(((hs * sc) % m) as int, (sc * cs) as int, m as int);
            }
            assert(hs * sc + sc * cs == sc * (hs + cs)) by (nonlinear_arith);
        } else {
            assert(ht == 0 && hs == 0);
            assert((0 + sc * cs) % m == (sc * (0 + cs)) % m);
        }
        vstd::arithmetic::div_mod::lemma_mul_mod_noop_right(
            sc as int,
            (hs + cs) as int,
            m as int,
        );
        assert(((sc as int) * (((hs + cs) % m) as int)) % (m as int) == ((sc * (hs + cs)) as int)
            % (m as int));
    }
}

/// Each term scaled by a coefficient and a monomial: the view of a
/// polynomial multiplied by one term.
pub open spec fn scale_view(s: Seq<(nat, Seq<nat>)>, c: nat, e: Seq<nat>) -> Seq<(nat, Seq<nat>)> {
    s.map_values(|tv: (nat, Seq<nat>)| (((tv.0 * c) as nat, crate::exponent::add_exps(tv.1, e))))
}

/// Multiplying the monomials of `s` by `e` would leave the
/// representation's exponent range somewhere.
pub open spec fn scale_overflows<E: IExponent>(s: Seq<Term<E>>, e: Seq<nat>) -> bool {
    exists|k: int, i: int|
        0 <= k < s.len() && 0 <= i < e.len() && (#[trigger] s[k].exponents.exps()[i]) + e[i]
            > E::cap()
}

/// The arity of the first term of a sequence, zero when empty.
pub open spec fn arity0<E: IExponent>(s: Seq<Term<E>>) -> nat {
    if s.len() == 0 {
        0
    } else {
        s[0].exponents.exps().len()
    }
}

/// Input acceptable to the canonicalizing constructor: intact
/// representations, coefficients of the configured field, one arity.
pub open spec fn terms_input_ok<E: IExponent>(s: Seq<Term<E>>, m: nat) -> bool {
    &&& forall|k: int| 0 <= k < s.len() ==> (#[trigger] s[k]).exponents.inv()
    &&& forall|k: int| 0 <= k < s.len() ==> (#[trigger] s[k]).coefficient.p == m
    &&& forall|k: int|
        0 <= k < s.len() ==> (#[trigger] s[k]).exponents.exps().len() == arity0(s)
}

/// Canonicalizes a validated term sequence.
#[verifier::loop_isolation(false)]
pub(crate) fn canon_terms<E: IExponent>(
    cfg: &GrobnerConfig,
    input: &Vec<Term<E>>,
    Ghost(arity): Ghost<nat>,
) -> (r: Polynomial<E>)
    requires
        cfg_wf(*cfg),
        forall|k: int| 0 <= k < input@.len() ==> (#[trigger] input@[k]).exponents.inv(),
        forall|k: int|
            0 <= k < input@.len() ==> (#[trigger] input@[k]).exponents.exps().len() == arity,
        forall|k: int| 0 <= k < input@.len() ==> (#[trigger] input@[k]).coefficient.p == cfg.modulus,
    ensures
        poly_wf(r, cfg.order, cfg.modulus as nat),
        forall|k: int|
            0 <= k < r.terms@.len() ==> (#[trigger] r.terms@[k]).exponents.exps().len() == arity,
        forall|x: Seq<nat>|
            coeff_of(cfg.modulus as nat, pview(r), x) == coeff_of(
                cfg.modulus as nat,
                terms_view(input@),
                x,
            ),
{
    let ghost m = cfg.modulus as nat;
    let mut out: Vec<Term<E>> = Vec::new();
    assert(terms_view(out@) =~= terms_view(input@.take(0)));
    let n = input.len();
    let mut idx: usize = 0;
    while idx < n
        invariant
            idx <= n,
            acc_wf(out@, cfg.order, m, arity),
            forall|x: Seq<nat>|
                coeff_of(m, terms_view(out@), x) == coeff_of(
                    m,
                    terms_view(input@.take(idx as int)),
                    x,
                ),
        decreases n - idx,
    {
        let ghost prev = terms_view(out@);
        let ghost prev_in = terms_view(input@.take(idx as int));
        canon_insert(cfg, &mut out, &input[idx], Ghost(arity));
        proof {
            let tv = tview(input@[idx as int]);
            assert(prev_in.len() == idx);
            assert(terms_view(input@.take(idx + 1)) =~= prev_in.insert(idx as int, tv));
            assert forall|x: Seq<nat>|
                coeff_of(m, terms_view(out@), x) == coeff_of(
                    m,
                    terms_view(input@.take(idx + 1)),
                    x,
                ) by {
                lemma_coeff_of_insert(m, prev_in, idx as int, tv, x);
            }
        }
        idx = idx + 1;
    }
    assert(input@.take(n as int) =~= input@);
    let r = Polynomial { terms: out };
    assert(poly_wf(r, cfg.order, m)) by {
        if r.terms@.len() > 0 {
            assert(term_wf(r.terms@[0], m, arity));
            assert(poly_arity(r) == arity);
        }
    }
    r
}

impl<E: IExponent> Polynomial<E> {
    /// The canonicalizing constructor: merges terms sharing a monomial by
    /// field addition, drops zero coefficients, and sorts strictly
    /// descending in the configured order. Rejects exactly the inputs with
    /// a broken representation, a coefficient of another field, or a
    /// mismatched arity.
    pub fn new(cfg: &GrobnerConfig, terms: Vec<Term<E>>) -> (r: Result<Polynomial<E>, GrobnerError>)
        requires
            cfg_wf(*cfg),
        ensures
            match r {
                Ok(q) => {
                    &&& poly_wf(q, cfg.order, cfg.modulus as nat)
                    &&& forall|k: int|
                        0 <= k < q.terms@.len() ==> (#[trigger] q.terms@[k]).exponents.exps().len()
                            == arity0(terms@)
                    &&& forall|x: Seq<nat>|
                        coeff_of(cfg.modulus as nat, pview(q), x) == coeff_of(
                            cfg.modulus as nat,
                            terms_view(terms@),
                            x,
                        )
                },
                Err(e) => e == GrobnerError::MalformedInput,
            },
            r is Err <==> !terms_input_ok(terms@, cfg.modulus as nat),
    {
        let n = terms.len();
        let mut k: usize = 0;
        while k < n
            invariant
                k <= n,
                n == terms@.len(),
                forall|kk: int|
                    0 <= kk < k ==> (#[trigger] terms@[kk]).exponents.inv() && terms@[kk].coefficient.p
                        == cfg.modulus,
            decreases n - k,
        {
            if !terms[k].exponents.inv_check() || terms[k].coefficient.p != cfg.modulus as u128 {
                return Err(GrobnerError::MalformedInput);
            }
            k = k + 1;
        }
        if n == 0 {
            let q = canon_terms(cfg, &terms, Ghost(arity0(terms@)));
            return Ok(q);
        }
        let ar = terms[0].exponents.arity();
        let mut k2: usize = 1;
        while k2 < n
            invariant
                1 <= k2 <= n,
                n == terms@.len(),
                n > 0,
                ar == arity0(terms@),
                forall|kk: int|
                    0 <= kk < n ==> (#[trigger] terms@[kk]).exponents.inv() && terms@[kk].coefficient.p
                        == cfg.modulus,
                forall|kk: int|
                    0 <= kk < k2 ==> (#[trigger] terms@[kk]).exponents.exps().len() == arity0(
                        terms@,
                    ),
            decreases n - k2,
        {
            if terms[k2].exponents.arity() != ar {
                return Err(GrobnerError::MalformedInput);
            }
            k2 = k2 + 1;
        }
        let q = canon_terms(cfg, &terms, Ghost(arity0(terms@)));
        Ok(q)
    }

    /// Whether this is the zero polynomial: the empty term sequence.
    pub fn is_zero(&self) -> (r: bool)
        ensures
            r == (self.terms@.len() == 0),
    {
        self.terms.len() == 0
    }

    /// An independent copy with the same view.
    pub fn dup(&self) -> (r: Polynomial<E>)
        requires
            forall|k: int| 0 <= k < self.terms@.len() ==> (#[trigger] self.terms@[k]).exponents.inv(),
        ensures
            r.terms@.len() == self.terms@.len(),
            forall|k: int|
                0 <= k < r.terms@.len() ==> (#[trigger] r.terms@[k]).coefficient
                    == self.terms@[k].coefficient && r.terms@[k].exponents.exps()
                    == self.terms@[k].exponents.exps() && r.terms@[k].exponents.inv(),
            pview(r) == pview(*self),
    {
        let n = self.terms.len();
        let mut v: Vec<Term<E>> = Vec::new();
        let mut i: usize = 0;
        while i < n
            invariant
                i <= n,
                n == self.terms@.len(),
                forall|k: int|
                    0 <= k < self.terms@.len() ==> (#[trigger] self.terms@[k]).exponents.inv(),
                v@.len() == i,
                forall|k: int|
                    0 <= k < i ==> (#[trigger] v@[k]).coefficient == self.terms@[k].coefficient
                        && v@[k].exponents.exps() == self.terms@[k].exponents.exps()
                        && v@[k].exponents.inv(),
            decreases n - i,
        {
            v.push(self.terms[i].dup());
            i = i + 1;
        }
        let r = Polynomial { terms: v };
        assert(pview(r) =~= pview(*self));
        r
    }

    /// Canonical equality: the two polynomials have the same view.
    pub fn canon_eq(&self, other: &Polynomial<E>) -> (r: bool)
        requires
            forall|k: int| 0 <= k < self.terms@.len() ==> (#[trigger] self.terms@[k]).exponents.inv(),
            forall|k: int|
                0 <= k < other.terms@.len() ==> (#[trigger] other.terms@[k]).exponents.inv(),
        ensures
            r == (pview(*self) == pview(*other)),
    {
        let n = self.terms.len();
        if other.terms.len() != n {
            assert(pview(*self).len() != pview(*other).len());
            return false;
        }
        let mut i: usize = 0;
        while i < n
            invariant
                i <= n,
                n == self.terms@.len(),
                n == other.terms@.len(),
                forall|k: int|
                    0 <= k < self.terms@.len() ==> (#[trigger] self.terms@[k]).exponents.inv(),
                forall|k: int|
                    0 <= k < other.terms@.len() ==> (#[trigger] other.terms@[k]).exponents.inv(),
                forall|k: int| 0 <= k < i ==> pview(*self)[k] == pview(*other)[k],
            decreases n - i,
        {
            let a = &self.terms[i];
            let b = &other.terms[i];
            if a.coefficient.i != b.coefficient.i {
                assert(pview(*self)[i as int] != pview(*other)[i as int]);
                return false;
            }
            if !a.exponents.exp_eq(&b.exponents) {
                assert(pview(*self)[i as int] != pview(*other)[i as int]);
                return false;
            }
            assert(pview(*self)[i as int] == pview(*other)[i as int]);
            i = i + 1;
        }
        assert(pview(*self) =~= pview(*other));
        true
    }
}

/// The coefficients of `r` are those of `s` multiplied by the scalar
/// `sc`, term for term, modulo `m`.
pub open spec fn coeffs_scaled_by<E: IExponent>(
    r: Seq<Term<E>>,
    s: Seq<Term<E>>,
    sc: nat,
    m: nat,
) -> bool {
    sc < m && r.len() == s.len() && forall|k: int|
        0 <= k < r.len() ==> ((#[trigger] r[k]).coefficient.i as int) == ((s[k].coefficient.i
            * sc) as int) % (m as int)
}

/// The arity shared by two compatible polynomials, preferring the left
/// one's.
pub open spec fn join_arity<E: IExponent>(a: &Polynomial<E>, b: &Polynomial<E>) -> nat {
    if a.terms@.len() > 0 {
        poly_arity(*a)
    } else {
        poly_arity(*b)
    }
}

/// The two polynomials can take part in one operation: either is zero or
/// they share the arity.
pub open spec fn poly_compat<E: IExponent>(a: &Polynomial<E>, b: &Polynomial<E>) -> bool {
    a.terms@.len() == 0 || b.terms@.len() == 0 || poly_arity(*a) == poly_arity(*b)
}

impl<E: IExponent> Polynomial<E> {
    /// The sum: merges the term lists with field addition on shared
    /// monomials and re-canonicalizes.
    #[verifier::loop_isolation(false)]
    pub fn add(&self, cfg: &GrobnerConfig, other: &Polynomial<E>) -> (r: Polynomial<E>)
        requires
            cfg_wf(*cfg),
            poly_wf(*self, cfg.order, cfg.modulus as nat),
            poly_wf(*other, cfg.order, cfg.modulus as nat),
            poly_compat(self, other),
        ensures
            poly_wf(r, cfg.order, cfg.modulus as nat),
            forall|k: int|
                0 <= k < r.terms@.len() ==> (#[trigger] r.terms@[k]).exponents.exps().len()
                    == join_arity(self, other),
            forall|x: Seq<nat>|
                coeff_of(cfg.modulus as nat, pview(r), x) == (coeff_of(
                    cfg.modulus as nat,
                    pview(*self),
                    x,
                ) + coeff_of(cfg.modulus as nat, pview(*other), x)) % (cfg.modulus as nat),
    {
        let ghost m = cfg.modulus as nat;
        let mut v: Vec<Term<E>> = self.dup().terms;
        let n = other.terms.len();
        let mut i: usize = 0;
        while i < n
            invariant
                i <= n,
                n == other.terms@.len(),
                v@.len() == self.terms@.len() + i,
                forall|k: int|
                    0 <= k < self.terms@.len() ==> (#[trigger] v@[k]).coefficient
                        == self.terms@[k].coefficient && v@[k].exponents.exps()
                        == self.terms@[k].exponents.exps() && v@[k].exponents.inv(),
                forall|k: int|
                    self.terms@.len() <= k < v@.len() ==> (#[trigger] v@[k]).coefficient
                        == other.terms@[k - self.terms@.len()].coefficient && v@[k].exponents.exps()
                        == other.terms@[k - self.terms@.len()].exponents.exps()
                        && v@[k].exponents.inv(),
            decreases n - i,
        {
            proof {
                assert(term_wf(other.terms@[i as int], m, poly_arity(*other)));
            }
            v.push(other.terms[i].dup());
            i = i + 1;
        }
        proof {
            assert(terms_view(v@) =~= pview(*self) + pview(*other));
            assert forall|k: int| 0 <= k < v@.len() implies (#[trigger] v@[k]).exponents.inv()
                && v@[k].exponents.exps().len() == join_arity(self, other) && v@[k].coefficient.p
                == cfg.modulus by {
                if k < self.terms@.len() {
                    assert(term_wf(self.terms@[k], m, poly_arity(*self)));
                } else {
                    assert(term_wf(
                        other.terms@[k - self.terms@.len()],
                        m,
                        poly_arity(*other),
                    ));
                }
            }
        }
        let r = canon_terms(cfg, &v, Ghost(join_arity(self, other)));
        proof {
            assert forall|x: Seq<nat>|
                coeff_of(m, pview(r), x) == (coeff_of(m, pview(*self), x) + coeff_of(
                    m,
                    pview(*other),
                    x,
                )) % m by {
                lemma_coeff_of_concat(m, pview(*self), pview(*other), x);
            }
        }
        r
    }

    /// The difference: field subtraction on shared monomials, negation of
    /// unmatched terms, re-canonicalized. The result is the unique
    /// canonical polynomial whose sum with `other` denotes `self`.
    #[verifier::loop_isolation(false)]
    pub fn subtract(&self, cfg: &GrobnerConfig, other: &Polynomial<E>) -> (r: Polynomial<E>)
        requires
            cfg_wf(*cfg),
            poly_wf(*self, cfg.order, cfg.modulus as nat),
            poly_wf(*other, cfg.order, cfg.modulus as nat),
            poly_compat(self, other),
        ensures
            poly_wf(r, cfg.order, cfg.modulus as nat),
            forall|k: int|
                0 <= k < r.terms@.len() ==> (#[trigger] r.terms@[k]).exponents.exps().len()
                    == join_arity(self, other),
            forall|x: Seq<nat>|
                (coeff_of(cfg.modulus as nat, pview(r), x) + coeff_of(
                    cfg.modulus as nat,
                    pview(*other),
                    x,
                )) % (cfg.modulus as nat) == coeff_of(cfg.modulus as nat, pview(*self), x),
    {
        let ghost m = cfg.modulus as nat;
        let mut v: Vec<Term<E>> = self.dup().terms;
        let n = other.terms.len();
        let mut i: usize = 0;
        while i < n
            invariant
                i <= n,
                n == other.terms@.len(),
                v@.len() == self.terms@.len() + i,
                cfg_wf(*cfg),
                poly_wf(*other, cfg.order, m),
                forall|k: int|
                    0 <= k < self.terms@.len() ==> (#[trigger] v@[k]).coefficient
                        == self.terms@[k].coefficient && v@[k].exponents.exps()
                        == self.terms@[k].exponents.exps() && v@[k].exponents.inv(),
                forall|k: int|
                    self.terms@.len() <= k < v@.len() ==> ((#[trigger] v@[k]).coefficient.i as nat)
                        == m - other.terms@[k - self.terms@.len()].coefficient.i
                        && v@[k].coefficient.p == cfg.modulus && v@[k].exponents.exps()
                        == other.terms@[k - self.terms@.len()].exponents.exps()
                        && v@[k].exponents.inv(),
            decreases n - i,
        {
            proof {
                assert(term_wf(other.terms@[i as int], m, poly_arity(*other)));
            }
            let t = &other.terms[i];
            let neg = Term {
                coefficient: IntModP { i: cfg.modulus as u128 - t.coefficient.i, p: t.coefficient.p },
                exponents: t.exponents.dup(),
            };
            v.push(neg);
            i = i + 1;
        }
        let ghost negv = terms_view(v@).skip(self.terms@.len() as int);
        proof {
            assert(terms_view(v@) =~= pview(*self) + negv);
            assert forall|k: int| 0 <= k < v@.len() implies (#[trigger] v@[k]).exponents.inv()
                && v@[k].exponents.exps().len() == join_arity(self, other) && v@[k].coefficient.p
                == cfg.modulus by {
                if k < self.terms@.len() {
                    assert(term_wf(self.terms@[k], m, poly_arity(*self)));
                } else {
                    assert(term_wf(
                        other.terms@[k - self.terms@.len()],
                        m,
                        poly_arity(*other),
                    ));
                }
            }
        }
        let r = canon_terms(cfg, &v, Ghost(join_arity(self, other)));
        proof {
            let so = pview(*other);
            assert(negv.len() == so.len());
            assert forall|k: int| 0 <= k < negv.len() implies (#[trigger] negv[k]).1 == (
            #[trigger] so[k]).1 && ((negv[k].0 + so[k].0) % m) == 0 by {
                assert(term_wf(other.terms@[k], m, poly_arity(*other)));
                assert(negv[k] == tview(v@[k + self.terms@.len()]));
                assert(negv[k].0 + so[k].0 == m);
                vstd::arithmetic::div_mod::lemma_mod_self_0(m as int);
            }
            assert forall|x: Seq<nat>|
                (coeff_of(m, pview(r), x) + coeff_of(m, so, x)) % m == coeff_of(
                    m,
                    pview(*self),
                    x,
                ) by {
                lemma_coeff_of_concat(m, pview(*self), negv, x);
                lemma_coeff_of_cancel(m, negv, so, x);
                let cs = coeff_of(m, pview(*self), x);
                let cn = coeff_of(m, negv, x);
                let co = coeff_of(m, so, x);
                // coeff_of(r) == (cs + cn) % m ; goal ((cs + cn) % m + co) % m == cs
                lemma_add_mod_noop((cs + cn) as int, co as int, m as int);
                lemma_coeff_of_reduced(m, so, x);
                lemma_small_mod(co, m);
                assert(((cs + cn) % m + co) % m == (cs + cn + co) % m) by {
                    lemma_add_mod_noop((cs + cn) as int, co as int, m as int);
                }
                assert((cs + cn + co) % m == (cs + (cn + co)) % m) by {
                    assert(cs + cn + co == cs + (cn + co));
                }
                lemma_add_mod_noop_right(cs as int, (cn + co) as int, m as int);
                assert((cn + co) % m == 0);
                lemma_coeff_of_reduced(m, pview(*self), x);
                lemma_small_mod(cs, m);
            }
        }
        r
    }

    /// The product with one term: every coefficient multiplied by the
    /// term's coefficient, every monomial by its monomial,
    /// re-canonicalized. Fails exactly when some monomial product leaves
    /// the representation's exponent range.
    #[verifier::loop_isolation(false)]
    pub fn multiply_by_term(&self, cfg: &GrobnerConfig, term: &Term<E>) -> (r: Result<
        Polynomial<E>,
        GrobnerError,
    >)
        requires
            cfg_wf(*cfg),
            poly_wf(*self, cfg.order, cfg.modulus as nat),
            term.exponents.inv(),
            imod_wf(term.coefficient),
            term.coefficient.p == cfg.modulus,
            self.terms@.len() > 0 ==> term.exponents.exps().len() == poly_arity(*self),
        ensures
            match r {
                Ok(q) => {
                    &&& poly_wf(q, cfg.order, cfg.modulus as nat)
                    &&& forall|k: int|
                        0 <= k < q.terms@.len() ==> (#[trigger] q.terms@[k]).exponents.exps().len()
                            == poly_arity(*self) + term.exponents.exps().len() - poly_arity(*self)
                    &&& forall|x: Seq<nat>|
                        coeff_of(cfg.modulus as nat, pview(q), x) == coeff_of(
                            cfg.modulus as nat,
                            scale_view(
                                pview(*self),
                                term.coefficient.i as nat,
                                term.exponents.exps(),
                            ),
                            x,
                        )
                },
                Err(e) => e == GrobnerError::ExponentLimitExceeded,
            },
            r is Err <==> scale_overflows(self.terms@, term.exponents.exps()),
    {
        let ghost m = cfg.modulus as nat;
        let ghost sv = scale_view(pview(*self), term.coefficient.i as nat, term.exponents.exps());
        let n = self.terms.len();
        let mut v: Vec<Term<E>> = Vec::new();
        let mut i: usize = 0;
        while i < n
            invariant
                i <= n,
                n == self.terms@.len(),
                cfg_wf(*cfg),
                poly_wf(*self, cfg.order, m),
                term.exponents.inv(),
                imod_wf(term.coefficient),
                term.coefficient.p == cfg.modulus,
                self.terms@.len() > 0 ==> term.exponents.exps().len() == poly_arity(*self),
                v@.len() == i,
                forall|k: int|
                    0 <= k < i ==> ((#[trigger] v@[k]).coefficient.i as nat) == ((
                    self.terms@[k].coefficient.i * term.coefficient.i) as int) % (m as int) && v@[k].coefficient.p
                        == cfg.modulus && v@[k].exponents.exps() == crate::exponent::add_exps(
                        self.terms@[k].exponents.exps(),
                        term.exponents.exps(),
                    ) && v@[k].exponents.inv(),
                forall|k: int, idx: int|
                    0 <= k < i && 0 <= idx < term.exponents.exps().len()
                        ==> (#[trigger] self.terms@[k].exponents.exps()[idx])
                        + term.exponents.exps()[idx] <= E::cap(),
            decreases n - i,
        {
            proof {
                assert(term_wf(self.terms@[i as int], m, poly_arity(*self)));
            }
            let t = &self.terms[i];
            let nc = t.coefficient.m(&term.coefficient);
            let ne = match t.exponents.add(&term.exponents) {
                Some(e) => e,
                None => {
                    proof {
                        let idx = choose|idx: int|
                            0 <= idx < self.terms@[i as int].exponents.exps().len()
                                && self.terms@[i as int].exponents.exps()[idx]
                                + term.exponents.exps()[idx] > E::cap();
                        assert(self.terms@[i as int].exponents.exps().len()
                            == term.exponents.exps().len());
                        assert(scale_overflows(self.terms@, term.exponents.exps()));
                    }
                    return Err(GrobnerError::ExponentLimitExceeded);
                },
            };
            v.push(Term { coefficient: nc, exponents: ne });
            i = i + 1;
        }
        proof {
            assert(!scale_overflows(self.terms@, term.exponents.exps())) by {
                if scale_overflows(self.terms@, term.exponents.exps()) {
                    let (k, idx): (int, int) = choose|k: int, idx: int|
                        0 <= k < self.terms@.len() && 0 <= idx < term.exponents.exps().len() && (
                        #[trigger] self.terms@[k].exponents.exps()[idx])
                            + term.exponents.exps()[idx] > E::cap();
                    assert(false);
                }
            }
        }
        proof {
            assert(sv.len() == n);
            assert forall|k: int| 0 <= k < n implies (#[trigger] terms_view(v@)[k]).1 == (
            #[trigger] sv[k]).1 && terms_view(v@)[k].0 % m == sv[k].0 % m by {
                assert(terms_view(v@)[k] == tview(v@[k]));
                assert(sv[k].0 == pview(*self)[k].0 * term.coefficient.i);
                assert(sv[k].1 == crate::exponent::add_exps(
                    pview(*self)[k].1,
                    term.exponents.exps(),
                ));
                assert(pview(*self)[k] == tview(self.terms@[k]));
                lemma_mod_twice(
                    (self.terms@[k].coefficient.i * term.coefficient.i) as int,
                    m as int,
                );
            }
            assert forall|k: int| 0 <= k < v@.len() implies (#[trigger] v@[k]).exponents.inv()
                && v@[k].exponents.exps().len() == term.exponents.exps().len()
                && v@[k].coefficient.p == cfg.modulus by {
                assert(term_wf(self.terms@[k], m, poly_arity(*self)));
            }
        }
        let q = canon_terms(cfg, &v, Ghost(term.exponents.exps().len()));
        proof {
            assert forall|x: Seq<nat>| coeff_of(m, pview(q), x) == coeff_of(m, sv, x) by {
                lemma_coeff_of_congruent(m, terms_view(v@), sv, x);
            }
        }
        Ok(q)
    }

    /// Normalizes to a monic polynomial: every coefficient divided by the
    /// leading one, term for term. The zero polynomial stays itself.
    #[verifier::loop_isolation(false)]
    pub fn make_monic(&self, cfg: &GrobnerConfig) -> (r: Polynomial<E>)
        requires
            cfg_wf(*cfg),
            poly_wf(*self, cfg.order, cfg.modulus as nat),
        ensures
            poly_wf(r, cfg.order, cfg.modulus as nat),
            r.terms@.len() == self.terms@.len(),
            forall|k: int|
                0 <= k < r.terms@.len() ==> (#[trigger] r.terms@[k]).exponents.exps()
                    == self.terms@[k].exponents.exps(),
            forall|k: int|
                0 <= k < r.terms@.len() ==> ((#[trigger] r.terms@[k]).coefficient.i
                    * self.terms@[0].coefficient.i) as int % (cfg.modulus as int)
                    == self.terms@[k].coefficient.i as int,
            self.terms@.len() > 0 ==> r.terms@[0].coefficient.i == 1,
            exists|sc: nat| #[trigger]
                coeffs_scaled_by(r.terms@, self.terms@, sc, cfg.modulus as nat),
    {
        let ghost m = cfg.modulus as nat;
        let n = self.terms.len();
        if n == 0 {
            let d = self.dup();
            proof {
                assert(d.terms@.len() == 0);
                assert(coeffs_scaled_by(d.terms@, self.terms@, 1nat, cfg.modulus as nat));
            }
            return d;
        }
        proof {
            assert(term_wf(self.terms@[0], m, poly_arity(*self)));
            crate::modular::lemma_prime_gcd(m, self.terms@[0].coefficient.i as nat);
        }
        let lead = self.terms[0].coefficient.copy();
        let inv = crate::modular::mod_inverse(lead.i, lead.p);
        proof {
            lemma_small_mod(1nat, m);
        }
        let invm = IntModP { i: inv, p: lead.p };
        let mut v: Vec<Term<E>> = Vec::new();
        let mut i: usize = 0;
        while i < n
            invariant
                i <= n,
                n == self.terms@.len(),
                n > 0,
                cfg_wf(*cfg),
                poly_wf(*self, cfg.order, m),
                lead == self.terms@[0].coefficient,
                imod_wf(lead),
                invm.p == lead.p,
                invm.i == inv,
                inv < lead.p,
                ((lead.i as int) * (inv as int)) % (m as int) == 1,
                v@.len() == i,
                forall|k: int|
                    0 <= k < i ==> ((#[trigger] v@[k]).coefficient.i * lead.i) as int % (m as int)
                        == self.terms@[k].coefficient.i as int && v@[k].coefficient.p
                        == cfg.modulus && v@[k].exponents.exps() == self.terms@[k].exponents.exps()
                        && v@[k].exponents.inv() && 0 < v@[k].coefficient.i < m
                        && (v@[k].coefficient.i as int) == ((self.terms@[k].coefficient.i
                        * inv) as int) % (m as int),
                i > 0 ==> v@[0].coefficient.i == 1,
            decreases n - i,
        {
            proof {
                assert(term_wf(self.terms@[i as int], m, poly_arity(*self)));
            }
            let t = &self.terms[i];
            let nc = t.coefficient.m(&invm);
            proof {
                let p = m as int;
                let ci = t.coefficient.i as int;
                let vi = inv as int;
                let li = lead.i as int;
                // (nc.i * lead) % p == (c * inv * lead) % p == c
                lemma_mul_mod_noop_left(ci * vi, li, p);
                assert((nc.i as int) * li % p == ((ci * vi) * li) % p) by {
                    assert(nc.i as int == (ci * vi) % p);
                }
                assert((ci * vi) * li == ci * (li * vi)) by (nonlinear_arith);
                lemma_mul_mod_noop_right(ci, li * vi, p);
                assert((ci * (li * vi)) % p == (ci * ((li * vi) % p)) % p);
                assert((li * vi) % p == 1);
                lemma_small_mod(t.coefficient.i as nat, m);
                assert(((nc.i as int) * li) % p == ci) by {
                    assert(((ci * vi) * li) % p == (ci * (li * vi)) % p);
                    assert((ci * ((li * vi) % p)) % p == (ci * 1) % p);
                    assert(ci * 1 == ci);
                    assert(ci % p == ci);
                }
                // nonzero: a zero residue would make the product zero
                if nc.i == 0 {
                    assert((0int * li) % p == 0int) by {
                        assert(0int * li == 0);
                        lemma_small_mod(0nat, m);
                    }
                    assert(false);
                }
                if i == 0 {
                    assert(ci == li);
                    assert(nc.i as int == (li * vi) % p) by {
                        assert(nc.i as int == (ci * vi) % p);
                    }
                }
            }
            v.push(Term { coefficient: nc, exponents: t.exponents.dup() });
            i = i + 1;
        }
        let r = Polynomial { terms: v };
        proof {
            assert forall|k: int| 0 <= k < r.terms@.len() implies term_wf(
                #[trigger] r.terms@[k],
                m,
                poly_arity(r),
            ) by {
                assert(term_wf(self.terms@[k], m, poly_arity(*self)));
            }
            assert(coeffs_scaled_by(r.terms@, self.terms@, inv as nat, cfg.modulus as nat));
        }
        r
    }
}

} // verus!
