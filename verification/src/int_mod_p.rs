//! Integers modulo a fixed prime: the coefficient field of the basis
//! computation. Values are kept canonically reduced into `[0, p)`.

use vstd::prelude::*;
use vstd::arithmetic::div_mod::lemma_mod_bound;
use vstd::arithmetic::div_mod::lemma_mul_mod_noop_left;
use vstd::arithmetic::div_mod::lemma_mul_mod_noop_right;
use vstd::arithmetic::div_mod::lemma_small_mod;
use crate::config::GrobnerError;
use crate::modular::gcd;
use crate::modular::mod_inverse;

verus! {

/// A residue `i` modulo `p`.
#[derive(Copy, Clone, Debug)]
pub struct IntModP {
    pub i: u128,
    pub p: u128,
}

/// A usable field value: the modulus is positive and small enough that a
/// product of two residues fits the machine word, and the residue is
/// reduced.
pub open spec fn imod_wf(x: IntModP) -> bool {
    1 <= x.p <= 0x1_0000_0000_0000_0000 && x.i < x.p
}

impl IntModP {
    /// A value reduced into `[0, p)`.
    pub fn new(i: u128, p: u128) -> (r: IntModP)
        requires
            1 <= p <= 0x1_0000_0000_0000_0000,
        ensures
            r.i == i % p,
            r.p == p,
            imod_wf(r),
    {
        proof {
            lemma_mod_bound(i as int, p as int);
        }
        IntModP { i: i % p, p }
    }

    /// An identical copy.
    pub fn copy(&self) -> (r: IntModP)
        ensures
            r == *self,
    {
        IntModP { i: self.i, p: self.p }
    }

    /// Field addition.
    pub fn a(&self, o: &IntModP) -> (r: IntModP)
        requires
            imod_wf(*self),
            imod_wf(*o),
            self.p == o.p,
        ensures
            imod_wf(r),
            r.p == self.p,
            r.i as int == ((self.i + o.i) as int) % (self.p as int),
    {
        Self::new(self.i + o.i, self.p)
    }

    /// Field addition in place.
    pub fn ae(&mut self, o: &IntModP)
        requires
            imod_wf(*old(self)),
            imod_wf(*o),
            old(self).p == o.p,
        ensures
            imod_wf(*final(self)),
            final(self).p == old(self).p,
            final(self).i as int == ((old(self).i + o.i) as int) % (old(self).p as int),
    {
        let r = self.a(o);
        self.i = r.i;
    }

    /// Field subtraction.
    pub fn s(&self, o: &IntModP) -> (r: IntModP)
        requires
            imod_wf(*self),
            imod_wf(*o),
            self.p == o.p,
        ensures
            imod_wf(r),
            r.p == self.p,
            r.i as int == ((self.i + self.p - o.i) as int) % (self.p as int),
    {
        Self::new(self.i + self.p - o.i, self.p)
    }

    /// Field subtraction in place.
    pub fn se(&mut self, o: &IntModP)
        requires
            imod_wf(*old(self)),
            imod_wf(*o),
            old(self).p == o.p,
        ensures
            imod_wf(*final(self)),
            final(self).p == old(self).p,
            final(self).i as int == ((old(self).i + old(self).p - o.i) as int) % (old(
                self,
            ).p as int),
    {
        let r = self.s(o);
        self.i = r.i;
    }

    /// Field multiplication.
    pub fn m(&self, o: &IntModP) -> (r: IntModP)
        requires
            imod_wf(*self),
            imod_wf(*o),
            self.p == o.p,
        ensures
            imod_wf(r),
            r.p == self.p,
            r.i as int == ((self.i * o.i) as int) % (self.p as int),
    {
        proof {
            assert((self.i as int) * (o.i as int) < 0x1_0000_0000_0000_0000_0000_0000_0000_0000)
                by (nonlinear_arith)
                requires
                    0 <= (self.i as int) < 0x1_0000_0000_0000_0000,
                    0 <= (o.i as int) < 0x1_0000_0000_0000_0000,
            ;
        }
        Self::new(self.i * o.i, self.p)
    }

    /// Field multiplication in place.
    pub fn me(&mut self, o: &IntModP)
        requires
            imod_wf(*old(self)),
            imod_wf(*o),
            old(self).p == o.p,
        ensures
            imod_wf(*final(self)),
            final(self).p == old(self).p,
            final(self).i as int == ((old(self).i * o.i) as int) % (old(self).p as int),
    {
        let r = self.m(o);
        self.i = r.i;
    }

    /// Field division through the modular inverse of the divisor. The
    /// result is the unique residue whose product with the divisor gives
    /// back the dividend.
    pub fn d(&self, o: &IntModP) -> (r: IntModP)
        requires
            imod_wf(*self),
            imod_wf(*o),
            self.p == o.p,
            o.i != 0,
            gcd(self.p as nat, o.i as nat) == 1,
        ensures
            imod_wf(r),
            r.p == self.p,
            ((r.i * o.i) as int) % (self.p as int) == self.i as int,
    {
        let pi = self.p;
        let inv = mod_inverse(o.i, pi);
        proof {
            assert((self.i as int) * (inv as int) < 0x1_0000_0000_0000_0000_0000_0000_0000_0000)
                by (nonlinear_arith)
                requires
                    0 <= (self.i as int) < 0x1_0000_0000_0000_0000,
                    0 <= (inv as int) < 0x1_0000_0000_0000_0000,
            ;
        }
        let r = Self::new(self.i * inv, pi);
        proof {
            let p = pi as int;
            let si = self.i as int;
            let oi = o.i as int;
            let vi = inv as int;
            // (r.i * o.i) % p == (s * v * o) % p == (s * ((v * o) % p)) % p == s % p == s
            lemma_mul_mod_noop_left(si * vi, oi, p);
            assert((r.i as int) * oi % p == ((si * vi) * oi) % p);
            assert((si * vi) * oi == si * (vi * oi)) by (nonlinear_arith);
            lemma_mul_mod_noop_right(si, vi * oi, p);
            assert((si * (vi * oi)) % p == (si * ((vi * oi) % p)) % p);
            assert((vi * oi) % p == (oi * vi) % p) by (nonlinear_arith)
                requires
                    p > 0,
            ;
            assert((oi * vi) % p == 1int % p);
            if p >= 2 {
                lemma_small_mod(1nat, p as nat);
                assert((si * 1) % p == si % p);
                lemma_small_mod(self.i as nat, p as nat);
            } else {
                // p == 1 has no nonzero residues, excluded by o.i != 0
                assert(false);
            }
        }
        r
    }

    /// Field division in place.
    pub fn de(&mut self, o: &IntModP)
        requires
            imod_wf(*old(self)),
            imod_wf(*o),
            old(self).p == o.p,
            o.i != 0,
            gcd(old(self).p as nat, o.i as nat) == 1,
        ensures
            imod_wf(*final(self)),
            final(self).p == old(self).p,
            ((final(self).i * o.i) as int) % (old(self).p as int) == old(self).i as int,
    {
        let r = self.d(o);
        self.i = r.i;
    }

    /// Recoverable field division: reports `DivisionByZero` exactly when
    /// the divisor is the additive zero, instead of treating it as fatal.
    pub fn try_d(&self, o: &IntModP) -> (r: Result<IntModP, GrobnerError>)
        requires
            imod_wf(*self),
            imod_wf(*o),
            self.p == o.p,
            o.i != 0 ==> gcd(self.p as nat, o.i as nat) == 1,
        ensures
            match r {
                Ok(q) => imod_wf(q) && q.p == self.p && ((q.i * o.i) as int) % (self.p as int)
                    == self.i as int,
                Err(e) => e == GrobnerError::DivisionByZero,
            },
            r is Err <==> o.i == 0,
    {
        if o.i == 0 {
            Err(GrobnerError::DivisionByZero)
        } else {
            Ok(self.d(o))
        }
    }

    /// Whether this is the additive zero.
    pub fn is_zero(&self) -> (r: bool)
        ensures
            r == (self.i == 0),
    {
        self.i == 0
    }

    /// Whether this is the multiplicative one.
    pub fn is_one(&self) -> (r: bool)
        ensures
            r == (self.i == 1),
    {
        self.i == 1
    }

    /// The additive zero of this field.
    pub fn zero(&self) -> (r: IntModP)
        ensures
            r.i == 0,
            r.p == self.p,
    {
        IntModP { i: 0, p: self.p }
    }

    /// The multiplicative one of this field.
    pub fn one(&self) -> (r: IntModP)
        requires
            imod_wf(*self),
        ensures
            r.p == self.p,
            r.i as int == 1int % (self.p as int),
            imod_wf(r),
    {
        proof {
            lemma_mod_bound(1int, self.p as int);
        }
        IntModP { i: 1 % self.p, p: self.p }
    }
}

/// Comparisons on a field whose values carry a natural magnitude.
pub trait IOrdered: Sized {
    /// The magnitude compared by the four order tests.
    spec fn ord_val(&self) -> nat;

    /// What the equality test means.
    spec fn eq_spec(&self, o: &Self) -> bool;

    fn lt(&self, o: &Self) -> (r: bool)
        ensures
            r == (self.ord_val() < o.ord_val()),
    ;

    fn le(&self, o: &Self) -> (r: bool)
        ensures
            r == (self.ord_val() <= o.ord_val()),
    ;

    fn gt(&self, o: &Self) -> (r: bool)
        ensures
            r == (self.ord_val() > o.ord_val()),
    ;

    fn ge(&self, o: &Self) -> (r: bool)
        ensures
            r == (self.ord_val() >= o.ord_val()),
    ;

    fn e(&self, o: &Self) -> (r: bool)
        ensures
            r == self.eq_spec(o),
    ;
}

impl IOrdered for IntModP {
    open spec fn ord_val(&self) -> nat {
        self.i as nat
    }

    open spec fn eq_spec(&self, o: &Self) -> bool {
        self.i == o.i && self.p == o.p
    }

    fn lt(&self, o: &Self) -> (r: bool) {
        self.i < o.i
    }

    fn le(&self, o: &Self) -> (r: bool) {
        self.i <= o.i
    }

    fn gt(&self, o: &Self) -> (r: bool) {
        self.i > o.i
    }

    fn ge(&self, o: &Self) -> (r: bool) {
        self.i >= o.i
    }

    fn e(&self, o: &Self) -> (r: bool) {
        self.i == o.i && self.p == o.p
    }
}

} // verus!
