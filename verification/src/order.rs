//! The term-order policy consulted by every monomial and term comparison,
//! together with the specification-level comparison functions that all
//! contracts in this crate are stated against.
//!
//! A monomial is modelled as its exponent vector, a `Seq<nat>` with one
//! entry per variable (most significant variable first). Comparisons return
//! an integer sign: `-1` for less, `0` for equal, `1` for greater.

use vstd::prelude::*;

verus! {

/// The monomial order: plain lexicographic, graded lexicographic (total
/// degree first, lexicographic tie-break), or degree order with the
/// tie-break taken lexicographically over the reversed exponent vector
/// (inverted variable priority).
#[derive(Copy, Clone, Debug, PartialEq, Eq, Structural)]
pub enum TermOrder {
    Lex,
    GrLex,
    RevLex,
}

/// Lexicographic comparison of two exponent vectors, most significant
/// variable first. Only meaningful for vectors of equal length.
pub open spec fn lex_cmp(a: Seq<nat>, b: Seq<nat>) -> int
    decreases a.len(),
{
    if a.len() == 0 || b.len() == 0 {
        0
    } else if a[0] < b[0] {
        -1
    } else if a[0] > b[0] {
        1
    } else {
        lex_cmp(a.drop_first(), b.drop_first())
    }
}

/// The total degree of a monomial: the sum of its exponents.
pub open spec fn total_degree(a: Seq<nat>) -> nat
    decreases a.len(),
{
    if a.len() == 0 {
        0
    } else {
        (a[0] + total_degree(a.drop_first())) as nat
    }
}

/// The exponent vector with its variable priority inverted.
pub open spec fn rev_exps(a: Seq<nat>) -> Seq<nat> {
    Seq::new(a.len(), |i: int| a[a.len() - 1 - i])
}

/// The sign of an integer: -1, 0 or 1.
pub open spec fn sign(d: int) -> int {
    if d < 0 {
        -1
    } else if d > 0 {
        1
    } else {
        0
    }
}

/// Three-way comparison of two monomials under a term order.
pub open spec fn ord_cmp(o: TermOrder, a: Seq<nat>, b: Seq<nat>) -> int {
    match o {
        TermOrder::Lex => lex_cmp(a, b),
        TermOrder::GrLex => if total_degree(a) != total_degree(b) {
            sign(total_degree(a) - total_degree(b))
        } else {
            lex_cmp(a, b)
        },
        TermOrder::RevLex => if total_degree(a) != total_degree(b) {
            sign(total_degree(a) - total_degree(b))
        } else {
            lex_cmp(rev_exps(a), rev_exps(b))
        },
    }
}

pub proof fn lemma_lex_cmp_range(a: Seq<nat>, b: Seq<nat>)
    ensures
        -1 <= lex_cmp(a, b) <= 1,
    decreases a.len(),
{
    if a.len() == 0 || b.len() == 0 {
    } else if a[0] == b[0] {
        lemma_lex_cmp_range(a.drop_first(), b.drop_first());
    }
}

pub proof fn lemma_lex_cmp_antisym(a: Seq<nat>, b: Seq<nat>)
    ensures
        lex_cmp(b, a) == -lex_cmp(a, b),
    decreases a.len(),
{
    if a.len() == 0 || b.len() == 0 {
    } else if a[0] == b[0] {
        lemma_lex_cmp_antisym(a.drop_first(), b.drop_first());
    }
}

pub proof fn lemma_lex_cmp_eq(a: Seq<nat>, b: Seq<nat>)
    requires
        a.len() == b.len(),
    ensures
        lex_cmp(a, b) == 0 <==> a == b,
    decreases a.len(),
{
    if a.len() == 0 {
        assert(a =~= b);
    } else if a[0] == b[0] {
        lemma_lex_cmp_eq(a.drop_first(), b.drop_first());
        if lex_cmp(a, b) == 0 {
            assert forall|i: int| 0 <= i < a.len() implies a[i] == b[i] by {
                if i > 0 {
                    assert(a[i] == a.drop_first()[i - 1]);
                    assert(b[i] == b.drop_first()[i - 1]);
                }
            }
            assert(a =~= b);
        } else {
            assert(a.drop_first() != b.drop_first() || a[0] != b[0]);
        }
    } else {
        assert(a != b);
    }
}

pub proof fn lemma_lex_cmp_trans(a: Seq<nat>, b: Seq<nat>, c: Seq<nat>)
    requires
        a.len() == b.len(),
        b.len() == c.len(),
        lex_cmp(a, b) == 1,
        lex_cmp(b, c) == 1,
    ensures
        lex_cmp(a, c) == 1,
    decreases a.len(),
{
    if a.len() == 0 {
    } else if a[0] == b[0] && b[0] == c[0] {
        lemma_lex_cmp_trans(a.drop_first(), b.drop_first(), c.drop_first());
    } else {
        lemma_lex_cmp_range(a.drop_first(), b.drop_first());
        lemma_lex_cmp_range(b.drop_first(), c.drop_first());
    }
}

pub proof fn lemma_rev_involution(a: Seq<nat>)
    ensures
        rev_exps(rev_exps(a)) == a,
{
    assert(rev_exps(rev_exps(a)) =~= a);
}

pub proof fn lemma_ord_cmp_range(o: TermOrder, a: Seq<nat>, b: Seq<nat>)
    ensures
        -1 <= ord_cmp(o, a, b) <= 1,
{
    lemma_lex_cmp_range(a, b);
    lemma_lex_cmp_range(rev_exps(a), rev_exps(b));
}

pub proof fn lemma_ord_cmp_antisym(o: TermOrder, a: Seq<nat>, b: Seq<nat>)
    ensures
        ord_cmp(o, b, a) == -ord_cmp(o, a, b),
{
    lemma_lex_cmp_antisym(a, b);
    lemma_lex_cmp_antisym(rev_exps(a), rev_exps(b));
}

/// Two monomials of the same arity compare equal exactly when they are equal.
pub proof fn lemma_ord_cmp_eq(o: TermOrder, a: Seq<nat>, b: Seq<nat>)
    requires
        a.len() == b.len(),
    ensures
        ord_cmp(o, a, b) == 0 <==> a == b,
{
    lemma_lex_cmp_eq(a, b);
    assert(rev_exps(a).len() == rev_exps(b).len());
    lemma_lex_cmp_eq(rev_exps(a), rev_exps(b));
    if rev_exps(a) == rev_exps(b) {
        lemma_rev_involution(a);
        lemma_rev_involution(b);
    }
}

pub proof fn lemma_ord_cmp_trans(o: TermOrder, a: Seq<nat>, b: Seq<nat>, c: Seq<nat>)
    requires
        a.len() == b.len(),
        b.len() == c.len(),
        ord_cmp(o, a, b) == 1,
        ord_cmp(o, b, c) == 1,
    ensures
        ord_cmp(o, a, c) == 1,
{
    match o {
        TermOrder::Lex => lemma_lex_cmp_trans(a, b, c),
        TermOrder::GrLex => {
            if total_degree(a) == total_degree(b) && total_degree(b) == total_degree(c) {
                lemma_lex_cmp_trans(a, b, c);
            }
        },
        TermOrder::RevLex => {
            if total_degree(a) == total_degree(b) && total_degree(b) == total_degree(c) {
                lemma_lex_cmp_trans(rev_exps(a), rev_exps(b), rev_exps(c));
            }
        },
    }
}

} // verus!
