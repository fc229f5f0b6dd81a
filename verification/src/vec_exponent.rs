//! The dense monomial representation: one `u32` exponent per declared
//! variable, arbitrary arity.

use vstd::prelude::*;
use crate::exponent::IExponent;
use crate::exponent::add_exps;
use crate::exponent::divides_exps;
use crate::exponent::lcm_exps;
use crate::exponent::sub_exps;
use crate::order::lex_cmp;
use crate::order::rev_exps;
use crate::order::total_degree;

verus! {

/// A dense exponent vector, most significant variable first.
#[derive(Debug)]
pub struct VecExponent {
    pub exponents: Vec<u32>,
}

/// `total_degree` grows by the pushed exponent.
pub proof fn lemma_total_degree_push(s: Seq<nat>, x: nat)
    ensures
        total_degree(s.push(x)) == total_degree(s) + x,
    decreases s.len(),
{
    if s.len() == 0 {
        assert(s.push(x).drop_first() =~= s);
    } else {
        assert(s.push(x).drop_first() =~= s.drop_first().push(x));
        lemma_total_degree_push(s.drop_first(), x);
    }
}

/// Every exponent at most `c` bounds the degree by `len * c`.
pub proof fn lemma_total_degree_bound(s: Seq<nat>, c: nat)
    requires
        forall|i: int| 0 <= i < s.len() ==> s[i] <= c,
    ensures
        total_degree(s) <= s.len() * c,
    decreases s.len(),
{
    if s.len() == 0 {
    } else {
        assert(forall|i: int| 0 <= i < s.drop_first().len() ==> s.drop_first()[i] <= c);
        lemma_total_degree_bound(s.drop_first(), c);
        assert(s.len() * c == (s.len() - 1) * c + c) by (nonlinear_arith);
    }
}

/// Equal prefixes leave the lexicographic comparison to the suffixes.
pub proof fn lemma_lex_cmp_skip(a: Seq<nat>, b: Seq<nat>, i: int)
    requires
        a.len() == b.len(),
        0 <= i < a.len(),
        a[i] == b[i],
    ensures
        lex_cmp(a.skip(i), b.skip(i)) == lex_cmp(a.skip(i + 1), b.skip(i + 1)),
{
    assert(a.skip(i).len() > 0);
    assert(a.skip(i)[0] == a[i]);
    assert(b.skip(i)[0] == b[i]);
    assert(a.skip(i).drop_first() =~= a.skip(i + 1));
    assert(b.skip(i).drop_first() =~= b.skip(i + 1));
}

impl VecExponent {
    /// Wraps a plain exponent vector.
    pub fn new(exponents: Vec<u32>) -> (r: Self)
        ensures
            r.exponents == exponents,
    {
        VecExponent { exponents }
    }
}

impl IExponent for VecExponent {
    open spec fn exps(&self) -> Seq<nat> {
        self.exponents@.map_values(|x: u32| x as nat)
    }

    open spec fn inv(&self) -> bool {
        self.exponents@.len() <= 0xFFFF_FFFF
    }

    open spec fn cap() -> nat {
        u32::MAX as nat
    }

    fn inv_check(&self) -> (r: bool) {
        self.exponents.len() <= 0xFFFF_FFFF
    }

    fn arity(&self) -> (r: usize) {
        self.exponents.len()
    }

    fn dup(&self) -> (r: Self) {
        let n = self.exponents.len();
        let mut v: Vec<u32> = Vec::new();
        let mut i: usize = 0;
        while i < n
            invariant
                i <= n,
                n == self.exponents@.len(),
                v@ =~= self.exponents@.take(i as int),
            decreases n - i,
        {
            v.push(self.exponents[i]);
            i = i + 1;
        }
        assert(v@ =~= self.exponents@);
        let r = VecExponent { exponents: v };
        assert(r.exps() =~= self.exps());
        r
    }

    fn exp_eq(&self, o: &Self) -> (r: bool) {
        let n = self.exponents.len();
        if o.exponents.len() != n {
            assert(self.exps().len() != o.exps().len());
            return false;
        }
        let mut i: usize = 0;
        while i < n
            invariant
                i <= n,
                n == self.exponents@.len(),
                n == o.exponents@.len(),
                forall|j: int| 0 <= j < i ==> self.exponents@[j] == o.exponents@[j],
            decreases n - i,
        {
            if self.exponents[i] != o.exponents[i] {
                assert(self.exps()[i as int] != o.exps()[i as int]);
                return false;
            }
            i = i + 1;
        }
        assert(self.exps() =~= o.exps());
        true
    }

    fn add(&self, o: &Self) -> (r: Option<Self>) {
        let n = self.exponents.len();
        let mut v: Vec<u32> = Vec::new();
        let mut i: usize = 0;
        while i < n
            invariant
                i <= n,
                n == self.exponents@.len(),
                n == o.exponents@.len(),
                v@.len() == i,
                forall|j: int| 0 <= j < i ==> v@[j] == self.exponents@[j] + o.exponents@[j],
            decreases n - i,
        {
            let a = self.exponents[i];
            let b = o.exponents[i];
            if a > u32::MAX - b {
                assert(self.exps()[i as int] + o.exps()[i as int] > Self::cap());
                return None;
            }
            v.push(a + b);
            i = i + 1;
        }
        let r = VecExponent { exponents: v };
        assert(r.exps() =~= add_exps(self.exps(), o.exps()));
        assert forall|j: int| 0 <= j < self.exps().len() implies self.exps()[j] + o.exps()[j]
            <= Self::cap() by {
            assert(v@[j] == self.exponents@[j] + o.exponents@[j]);
            assert(v@[j] <= u32::MAX);
        }
        Some(r)
    }

    fn sub(&self, o: &Self) -> (r: Self) {
        let n = self.exponents.len();
        let mut v: Vec<u32> = Vec::new();
        let mut i: usize = 0;
        while i < n
            invariant
                i <= n,
                n == self.exponents@.len(),
                n == o.exponents@.len(),
                divides_exps(o.exps(), self.exps()),
                v@.len() == i,
                forall|j: int| 0 <= j < i ==> v@[j] == self.exponents@[j] - o.exponents@[j],
            decreases n - i,
        {
            assert(o.exps()[i as int] <= self.exps()[i as int]);
            v.push(self.exponents[i] - o.exponents[i]);
            i = i + 1;
        }
        let r = VecExponent { exponents: v };
        assert(r.exps() =~= sub_exps(self.exps(), o.exps()));
        r
    }

    fn lcm(&self, o: &Self) -> (r: Self) {
        let n = self.exponents.len();
        let mut v: Vec<u32> = Vec::new();
        let mut i: usize = 0;
        while i < n
            invariant
                i <= n,
                n == self.exponents@.len(),
                n == o.exponents@.len(),
                v@.len() == i,
                forall|j: int| 0 <= j < i ==> v@[j] == if self.exponents@[j] >= o.exponents@[j] {
                    self.exponents@[j]
                } else {
                    o.exponents@[j]
                },
            decreases n - i,
        {
            let a = self.exponents[i];
            let b = o.exponents[i];
            v.push(if a >= b {
                a
            } else {
                b
            });
            i = i + 1;
        }
        let r = VecExponent { exponents: v };
        assert(r.exps() =~= lcm_exps(self.exps(), o.exps()));
        r
    }

    fn degree(&self) -> (r: u64) {
        let n = self.exponents.len();
        let mut acc: u64 = 0;
        let mut i: usize = 0;
        while i < n
            invariant
                i <= n,
                n == self.exponents@.len(),
                n <= 0xFFFF_FFFF,
                acc as nat == total_degree(self.exps().take(i as int)),
                acc as nat <= i * 0xFFFF_FFFF,
            decreases n - i,
        {
            proof {
                assert(self.exps().take(i + 1) =~= self.exps().take(i as int).push(
                    self.exps()[i as int],
                ));
                lemma_total_degree_push(self.exps().take(i as int), self.exps()[i as int]);
                assert((i + 1) * 0xFFFF_FFFF == i * 0xFFFF_FFFF + 0xFFFF_FFFF) by (nonlinear_arith);
                assert(i * 0xFFFF_FFFF <= 0xFFFF_FFFF * 0xFFFF_FFFF) by (nonlinear_arith)
                    requires
                        0 <= i <= 0xFFFF_FFFF,
                ;
            }
            acc = acc + self.exponents[i] as u64;
            i = i + 1;
        }
        assert(self.exps().take(n as int) =~= self.exps());
        acc
    }

    fn lex_compare(&self, o: &Self) -> (r: i32) {
        let n = self.exponents.len();
        assert(self.exps().skip(0) =~= self.exps());
        assert(o.exps().skip(0) =~= o.exps());
        let mut i: usize = 0;
        while i < n
            invariant
                i <= n,
                n == self.exponents@.len(),
                n == o.exponents@.len(),
                lex_cmp(self.exps(), o.exps()) == lex_cmp(
                    self.exps().skip(i as int),
                    o.exps().skip(i as int),
                ),
            decreases n - i,
        {
            let a = self.exponents[i];
            let b = o.exponents[i];
            if a < b {
                assert(self.exps().skip(i as int)[0] < o.exps().skip(i as int)[0]);
                return -1;
            }
            if a > b {
                assert(self.exps().skip(i as int)[0] > o.exps().skip(i as int)[0]);
                return 1;
            }
            proof {
                lemma_lex_cmp_skip(self.exps(), o.exps(), i as int);
            }
            i = i + 1;
        }
        assert(self.exps().skip(n as int).len() == 0);
        0
    }

    fn rev_lex_compare(&self, o: &Self) -> (r: i32) {
        let n = self.exponents.len();
        let ghost ra = rev_exps(self.exps());
        let ghost rb = rev_exps(o.exps());
        assert(ra.skip(0) =~= ra);
        assert(rb.skip(0) =~= rb);
        let mut i: usize = 0;
        while i < n
            invariant
                i <= n,
                n == self.exponents@.len(),
                n == o.exponents@.len(),
                ra == rev_exps(self.exps()),
                rb == rev_exps(o.exps()),
                lex_cmp(ra, rb) == lex_cmp(ra.skip(i as int), rb.skip(i as int)),
            decreases n - i,
        {
            let a = self.exponents[n - 1 - i];
            let b = o.exponents[n - 1 - i];
            proof {
                assert(ra[i as int] == self.exps()[n - 1 - i as int]);
                assert(rb[i as int] == o.exps()[n - 1 - i as int]);
            }
            if a < b {
                assert(ra.skip(i as int)[0] < rb.skip(i as int)[0]);
                return -1;
            }
            if a > b {
                assert(ra.skip(i as int)[0] > rb.skip(i as int)[0]);
                return 1;
            }
            proof {
                lemma_lex_cmp_skip(ra, rb, i as int);
            }
            i = i + 1;
        }
        assert(ra.skip(n as int).len() == 0);
        0
    }

    fn can_reduce(&self, divisor: &Self) -> (r: bool) {
        let n = self.exponents.len();
        let mut i: usize = 0;
        while i < n
            invariant
                i <= n,
                n == self.exponents@.len(),
                n == divisor.exponents@.len(),
                forall|j: int| 0 <= j < i ==> divisor.exps()[j] <= self.exps()[j],
            decreases n - i,
        {
            if self.exponents[i] < divisor.exponents[i] {
                assert(divisor.exps()[i as int] > self.exps()[i as int]);
                return false;
            }
            i = i + 1;
        }
        true
    }
}

} // verus!
