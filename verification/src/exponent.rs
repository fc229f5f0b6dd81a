//! The monomial abstraction: an exponent vector with componentwise
//! arithmetic, degree, lexicographic comparison and divisibility.
//!
//! Two interchangeable representations implement this trait: a dense,
//! variable-arity vector ([`crate::vec_exponent::VecExponent`]) and a packed
//! fixed six-variable form ([`crate::bit_packed_exponent::BitPackedExponent`]).
//! Every contract is stated over the mathematical view `exps()`, a sequence
//! of exponents with the most significant variable first, so the two
//! representations are observationally identical wherever both fit.

use vstd::prelude::*;
use crate::order::lex_cmp;
use crate::order::rev_exps;
use crate::order::total_degree;

verus! {

/// Componentwise sum of two exponent vectors of equal arity.
pub open spec fn add_exps(a: Seq<nat>, b: Seq<nat>) -> Seq<nat> {
    Seq::new(a.len(), |i: int| (a[i] + b[i]) as nat)
}

/// Componentwise difference; meaningful only when `b` divides `a`.
pub open spec fn sub_exps(a: Seq<nat>, b: Seq<nat>) -> Seq<nat> {
    Seq::new(a.len(), |i: int| (a[i] - b[i]) as nat)
}

/// Componentwise maximum: the least common multiple of two monomials.
pub open spec fn lcm_exps(a: Seq<nat>, b: Seq<nat>) -> Seq<nat> {
    Seq::new(a.len(), |i: int| if a[i] >= b[i] { a[i] } else { b[i] })
}

/// `b` divides `a`: every exponent of `b` is at most the one of `a`.
pub open spec fn divides_exps(b: Seq<nat>, a: Seq<nat>) -> bool {
    b.len() == a.len() && forall|i: int| 0 <= i < a.len() ==> b[i] <= a[i]
}

/// An exponent vector value: the monomial part of a term.
///
/// `exps()` is the mathematical view; `inv()` the representation invariant
/// (for the packed form, that the cached degree matches the byte fields);
/// `cap()` the largest exponent the representation can hold per variable.
pub trait IExponent: Sized {
    /// The exponent vector this value represents.
    spec fn exps(&self) -> Seq<nat>;

    /// The representation invariant.
    spec fn inv(&self) -> bool;

    /// The largest single exponent the representation can hold.
    spec fn cap() -> nat;

    /// Runtime check of the representation invariant.
    fn inv_check(&self) -> (r: bool)
        ensures
            r == self.inv(),
    ;

    /// The number of variables of this exponent vector.
    fn arity(&self) -> (r: usize)
        requires
            self.inv(),
        ensures
            r == self.exps().len(),
    ;

    /// An independent copy with the same view.
    fn dup(&self) -> (r: Self)
        requires
            self.inv(),
        ensures
            r.inv(),
            r.exps() == self.exps(),
    ;

    /// View equality, decidable at runtime.
    fn exp_eq(&self, o: &Self) -> (r: bool)
        requires
            self.inv(),
            o.inv(),
        ensures
            r == (self.exps() == o.exps()),
    ;

    /// Componentwise sum, used when multiplying monomials; `None` exactly
    /// when some component would exceed the representation's capacity.
    fn add(&self, o: &Self) -> (r: Option<Self>)
        requires
            self.inv(),
            o.inv(),
            self.exps().len() == o.exps().len(),
        ensures
            match r {
                Some(s) => s.inv() && s.exps() == add_exps(self.exps(), o.exps()) && forall|i: int|
                    0 <= i < self.exps().len() ==> self.exps()[i] + o.exps()[i] <= Self::cap(),
                None => exists|i: int|
                    0 <= i < self.exps().len() && self.exps()[i] + o.exps()[i] > Self::cap(),
            },
    ;

    /// Componentwise difference; the caller must have verified divisibility.
    fn sub(&self, o: &Self) -> (r: Self)
        requires
            self.inv(),
            o.inv(),
            divides_exps(o.exps(), self.exps()),
        ensures
            r.inv(),
            r.exps() == sub_exps(self.exps(), o.exps()),
    ;

    /// Componentwise maximum, with the cached degree recomputed.
    fn lcm(&self, o: &Self) -> (r: Self)
        requires
            self.inv(),
            o.inv(),
            self.exps().len() == o.exps().len(),
        ensures
            r.inv(),
            r.exps() == lcm_exps(self.exps(), o.exps()),
    ;

    /// The total degree of the monomial.
    fn degree(&self) -> (r: u64)
        requires
            self.inv(),
        ensures
            r as nat == total_degree(self.exps()),
    ;

    /// Plain lexicographic comparison, most significant variable first,
    /// as a sign.
    fn lex_compare(&self, o: &Self) -> (r: i32)
        requires
            self.inv(),
            o.inv(),
            self.exps().len() == o.exps().len(),
        ensures
            r as int == lex_cmp(self.exps(), o.exps()),
    ;

    /// Lexicographic comparison of the reversed exponent vectors, as a
    /// sign; the tie-break of the degree-reverse order.
    fn rev_lex_compare(&self, o: &Self) -> (r: i32)
        requires
            self.inv(),
            o.inv(),
            self.exps().len() == o.exps().len(),
        ensures
            r as int == lex_cmp(rev_exps(self.exps()), rev_exps(o.exps())),
    ;

    /// Whether a term with divisor's monomial can reduce one with this
    /// monomial: every divisor exponent is at most the corresponding one.
    fn can_reduce(&self, divisor: &Self) -> (r: bool)
        requires
            self.inv(),
            divisor.inv(),
            self.exps().len() == divisor.exps().len(),
        ensures
            r == divides_exps(divisor.exps(), self.exps()),
    ;
}

} // verus!
