//! The packed monomial representation: a fixed arity of six variables,
//! each exponent in eight bits of one 64-bit word (most significant
//! variable in the highest exponent byte), with the total degree cached in
//! the top sixteen bits and recomputed whenever an operation produces a
//! new value.

use vstd::prelude::*;
use crate::exponent::IExponent;
use crate::exponent::add_exps;
use crate::exponent::lcm_exps;
use crate::exponent::sub_exps;
use crate::order::lex_cmp;
use crate::order::rev_exps;
use crate::order::total_degree;

verus! {

/// A six-variable monomial packed into one word: the degree in bits
/// 63..48, exponent of the most significant variable in bits 47..40, and
/// so on down to bits 7..0.
#[derive(Copy, Clone, Debug)]
pub struct BitPackedExponent {
    pub exponents: u64,
}

/// The `i`-th exponent byte of a packed word, most significant variable
/// first.
pub open spec fn pexp(v: u64, i: int) -> nat {
    ((v >> (((5 - i) * 8) as u64)) & 0xFF) as nat
}

/// The cached degree: the top sixteen bits.
pub open spec fn pdeg(v: u64) -> nat {
    (v >> 48) as nat
}

/// A six-element exponent sequence summed term by term.
pub proof fn lemma_degree6(s: Seq<nat>)
    requires
        s.len() == 6,
    ensures
        total_degree(s) == s[0] + s[1] + s[2] + s[3] + s[4] + s[5],
{
    let s1 = s.drop_first();
    let s2 = s1.drop_first();
    let s3 = s2.drop_first();
    let s4 = s3.drop_first();
    let s5 = s4.drop_first();
    let s6 = s5.drop_first();
    assert(s6.len() == 0);
    assert(s1[0] == s[1] && s2[0] == s[2] && s3[0] == s[3] && s4[0] == s[4] && s5[0] == s[5]);
    assert(total_degree(s5) == s[5] + total_degree(s6));
    assert(total_degree(s4) == s[4] + total_degree(s5));
    assert(total_degree(s3) == s[3] + total_degree(s4));
    assert(total_degree(s2) == s[2] + total_degree(s3));
    assert(total_degree(s1) == s[1] + total_degree(s2));
}

/// Lexicographic comparison of six-element sequences, byte by byte.
pub proof fn lemma_lex6(a: Seq<nat>, b: Seq<nat>)
    requires
        a.len() == 6,
        b.len() == 6,
    ensures
        lex_cmp(a, b) == (if a[0] != b[0] {
            if a[0] < b[0] {
                -1int
            } else {
                1int
            }
        } else if a[1] != b[1] {
            if a[1] < b[1] {
                -1int
            } else {
                1int
            }
        } else if a[2] != b[2] {
            if a[2] < b[2] {
                -1int
            } else {
                1int
            }
        } else if a[3] != b[3] {
            if a[3] < b[3] {
                -1int
            } else {
                1int
            }
        } else if a[4] != b[4] {
            if a[4] < b[4] {
                -1int
            } else {
                1int
            }
        } else if a[5] != b[5] {
            if a[5] < b[5] {
                -1int
            } else {
                1int
            }
        } else {
            0int
        }),
{
    let a1 = a.drop_first();
    let b1 = b.drop_first();
    let a2 = a1.drop_first();
    let b2 = b1.drop_first();
    let a3 = a2.drop_first();
    let b3 = b2.drop_first();
    let a4 = a3.drop_first();
    let b4 = b3.drop_first();
    let a5 = a4.drop_first();
    let b5 = b4.drop_first();
    assert(a1[0] == a[1] && a2[0] == a[2] && a3[0] == a[3] && a4[0] == a[4] && a5[0] == a[5]);
    assert(b1[0] == b[1] && b2[0] == b[2] && b3[0] == b[3] && b4[0] == b[4] && b5[0] == b[5]);
    assert(a5.drop_first().len() == 0);
    assert(lex_cmp(a5.drop_first(), b5.drop_first()) == 0);
    assert(lex_cmp(a5, b5) == (if a[5] < b[5] {
        -1int
    } else if a[5] > b[5] {
        1int
    } else {
        lex_cmp(a5.drop_first(), b5.drop_first())
    }));
    assert(lex_cmp(a4, b4) == (if a[4] < b[4] {
        -1int
    } else if a[4] > b[4] {
        1int
    } else {
        lex_cmp(a5, b5)
    }));
    assert(lex_cmp(a3, b3) == (if a[3] < b[3] {
        -1int
    } else if a[3] > b[3] {
        1int
    } else {
        lex_cmp(a4, b4)
    }));
    assert(lex_cmp(a2, b2) == (if a[2] < b[2] {
        -1int
    } else if a[2] > b[2] {
        1int
    } else {
        lex_cmp(a3, b3)
    }));
    assert(lex_cmp(a1, b1) == (if a[1] < b[1] {
        -1int
    } else if a[1] > b[1] {
        1int
    } else {
        lex_cmp(a2, b2)
    }));
    assert(lex_cmp(a, b) == (if a[0] < b[0] {
        -1int
    } else if a[0] > b[0] {
        1int
    } else {
        lex_cmp(a1, b1)
    }));
}

/// Packs six exponent bytes and a degree into one word.
fn pack6(e0: u64, e1: u64, e2: u64, e3: u64, e4: u64, e5: u64, d: u64) -> (r: u64)
    requires
        e0 <= 255,
        e1 <= 255,
        e2 <= 255,
        e3 <= 255,
        e4 <= 255,
        e5 <= 255,
        d <= 0xFFFF,
    ensures
        pexp(r, 0) == e0,
        pexp(r, 1) == e1,
        pexp(r, 2) == e2,
        pexp(r, 3) == e3,
        pexp(r, 4) == e4,
        pexp(r, 5) == e5,
        pdeg(r) == d,
{
    let r = (d << 48) | (e0 << 40) | (e1 << 32) | (e2 << 24) | (e3 << 16) | (e4 << 8) | e5;
    proof {
        let v = (d << 48) | (e0 << 40) | (e1 << 32) | (e2 << 24) | (e3 << 16) | (e4 << 8) | e5;
        assert(((v >> 40) & 0xFF) == e0 && ((v >> 32) & 0xFF) == e1 && ((v >> 24) & 0xFF) == e2
            && ((v >> 16) & 0xFF) == e3 && ((v >> 8) & 0xFF) == e4 && ((v >> 0) & 0xFF) == e5 && (v
            >> 48) == d) by (bit_vector)
            requires
                v == (d << 48) | (e0 << 40) | (e1 << 32) | (e2 << 24) | (e3 << 16) | (e4 << 8)
                    | e5,
                e0 <= 255,
                e1 <= 255,
                e2 <= 255,
                e3 <= 255,
                e4 <= 255,
                e5 <= 255,
                d <= 0xFFFF,
        ;
        assert(pexp(r, 0) == ((v >> 40) & 0xFF) as nat);
        assert(pexp(r, 1) == ((v >> 32) & 0xFF) as nat);
        assert(pexp(r, 2) == ((v >> 24) & 0xFF) as nat);
        assert(pexp(r, 3) == ((v >> 16) & 0xFF) as nat);
        assert(pexp(r, 4) == ((v >> 8) & 0xFF) as nat);
        assert(pexp(r, 5) == ((v >> 0) & 0xFF) as nat);
    }
    r
}

/// Reads the `i`-th exponent byte.
fn pbyte(v: u64, i: usize) -> (r: u64)
    requires
        i < 6,
    ensures
        r as nat == pexp(v, i as int),
        r <= 255,
{
    let s: u64 = (5 - i as u64) * 8;
    let r = (v >> s) & 0xFF;
    proof {
        assert((v >> s) & 0xFF <= 255) by (bit_vector);
        assert(s == ((5 - i as int) * 8) as u64);
    }
    r
}

impl BitPackedExponent {
    /// Wraps a packed word as it stands.
    pub fn new(exponents: u64) -> (r: Self)
        ensures
            r.exponents == exponents,
    {
        BitPackedExponent { exponents }
    }

    /// Packs a plain array of six exponents, computing the degree.
    pub fn from_vec(exponents: [u8; 6]) -> (r: Self)
        ensures
            r.inv(),
            r.exps().len() == 6,
            forall|i: int| 0 <= i < 6 ==> r.exps()[i] == exponents@[i],
    {
        let e0 = exponents[0] as u64;
        let e1 = exponents[1] as u64;
        let e2 = exponents[2] as u64;
        let e3 = exponents[3] as u64;
        let e4 = exponents[4] as u64;
        let e5 = exponents[5] as u64;
        let d = e0 + e1 + e2 + e3 + e4 + e5;
        let packed = pack6(e0, e1, e2, e3, e4, e5, d);
        let r = BitPackedExponent { exponents: packed };
        proof {
            lemma_degree6(r.exps());
        }
        r
    }
}

impl IExponent for BitPackedExponent {
    open spec fn exps(&self) -> Seq<nat> {
        Seq::new(6, |i: int| pexp(self.exponents, i))
    }

    open spec fn inv(&self) -> bool {
        pdeg(self.exponents) == total_degree(self.exps())
    }

    open spec fn cap() -> nat {
        255
    }

    fn inv_check(&self) -> (r: bool) {
        let v = self.exponents;
        let d = pbyte(v, 0) + pbyte(v, 1) + pbyte(v, 2) + pbyte(v, 3) + pbyte(v, 4) + pbyte(v, 5);
        proof {
            lemma_degree6(self.exps());
        }
        (v >> 48) == d
    }

    fn arity(&self) -> (r: usize) {
        6
    }

    fn dup(&self) -> (r: Self) {
        BitPackedExponent { exponents: self.exponents }
    }

    fn exp_eq(&self, o: &Self) -> (r: bool) {
        let r = self.exponents == o.exponents;
        proof {
            if !r && self.exps() == o.exps() {
                // equal views force equal bytes, and the invariant forces
                // equal degrees, hence equal words
                let a = self.exponents;
                let b = o.exponents;
                assert(forall|j: int|
                    0 <= j < 6 ==> self.exps()[j] == #[trigger] pexp(a, j) && o.exps()[j] == pexp(
                        b,
                        j,
                    ));
                assert(pexp(a, 0) == pexp(b, 0) && pexp(a, 1) == pexp(b, 1) && pexp(a, 2) == pexp(
                    b,
                    2,
                ) && pexp(a, 3) == pexp(b, 3) && pexp(a, 4) == pexp(b, 4) && pexp(a, 5) == pexp(
                    b,
                    5,
                ));
                assert(pdeg(a) == pdeg(b));
                assert(a == b) by (bit_vector)
                    requires
                        ((a >> 40) & 0xFF) == ((b >> 40) & 0xFF),
                        ((a >> 32) & 0xFF) == ((b >> 32) & 0xFF),
                        ((a >> 24) & 0xFF) == ((b >> 24) & 0xFF),
                        ((a >> 16) & 0xFF) == ((b >> 16) & 0xFF),
                        ((a >> 8) & 0xFF) == ((b >> 8) & 0xFF),
                        ((a >> 0) & 0xFF) == ((b >> 0) & 0xFF),
                        (a >> 48) == (b >> 48),
                ;
                assert(false);
            }
            if r {
                assert(self.exps() =~= o.exps());
            }
        }
        r
    }

    #[verifier::loop_isolation(false)]
    fn add(&self, o: &Self) -> (r: Option<Self>) {
        let a = self.exponents;
        let b = o.exponents;
        proof {
            assert(forall|j: int|
                0 <= j < 6 ==> self.exps()[j] == #[trigger] pexp(a, j) && o.exps()[j] == pexp(
                    b,
                    j,
                ));
            assert(a >> 48 <= 0xFFFF && b >> 48 <= 0xFFFF) by (bit_vector);
        }
        let mut i: usize = 0;
        while i < 6
            invariant
                i <= 6,
                forall|j: int| 0 <= j < i ==> pexp(a, j) + pexp(b, j) <= 255,
            decreases 6 - i,
        {
            if pbyte(a, i) + pbyte(b, i) > 255 {
                assert(self.exps()[i as int] + o.exps()[i as int] > 255);
                return None;
            }
            i = i + 1;
        }
        let d = (a >> 48) + (b >> 48);
        proof {
            lemma_degree6(self.exps());
            lemma_degree6(o.exps());
            assert(d <= 0xFFFF);
        }
        let packed = pack6(
            pbyte(a, 0) + pbyte(b, 0),
            pbyte(a, 1) + pbyte(b, 1),
            pbyte(a, 2) + pbyte(b, 2),
            pbyte(a, 3) + pbyte(b, 3),
            pbyte(a, 4) + pbyte(b, 4),
            pbyte(a, 5) + pbyte(b, 5),
            d,
        );
        let r = BitPackedExponent { exponents: packed };
        proof {
            assert(r.exps() =~= add_exps(self.exps(), o.exps()));
            lemma_degree6(r.exps());
        }
        Some(r)
    }

    fn sub(&self, o: &Self) -> (r: Self) {
        let a = self.exponents;
        let b = o.exponents;
        proof {
            assert(o.exps()[0] <= self.exps()[0] && o.exps()[1] <= self.exps()[1] && o.exps()[2]
                <= self.exps()[2] && o.exps()[3] <= self.exps()[3] && o.exps()[4] <= self.exps()[4]
                && o.exps()[5] <= self.exps()[5]);
        }
        let e0 = pbyte(a, 0) - pbyte(b, 0);
        let e1 = pbyte(a, 1) - pbyte(b, 1);
        let e2 = pbyte(a, 2) - pbyte(b, 2);
        let e3 = pbyte(a, 3) - pbyte(b, 3);
        let e4 = pbyte(a, 4) - pbyte(b, 4);
        let e5 = pbyte(a, 5) - pbyte(b, 5);
        let d = e0 + e1 + e2 + e3 + e4 + e5;
        let packed = pack6(e0, e1, e2, e3, e4, e5, d);
        let r = BitPackedExponent { exponents: packed };
        proof {
            assert(r.exps() =~= sub_exps(self.exps(), o.exps()));
            lemma_degree6(r.exps());
        }
        r
    }

    fn lcm(&self, o: &Self) -> (r: Self) {
        let a = self.exponents;
        let b = o.exponents;
        let a0 = pbyte(a, 0);
        let a1 = pbyte(a, 1);
        let a2 = pbyte(a, 2);
        let a3 = pbyte(a, 3);
        let a4 = pbyte(a, 4);
        let a5 = pbyte(a, 5);
        let b0 = pbyte(b, 0);
        let b1 = pbyte(b, 1);
        let b2 = pbyte(b, 2);
        let b3 = pbyte(b, 3);
        let b4 = pbyte(b, 4);
        let b5 = pbyte(b, 5);
        let e0 = if a0 >= b0 {
            a0
        } else {
            b0
        };
        let e1 = if a1 >= b1 {
            a1
        } else {
            b1
        };
        let e2 = if a2 >= b2 {
            a2
        } else {
            b2
        };
        let e3 = if a3 >= b3 {
            a3
        } else {
            b3
        };
        let e4 = if a4 >= b4 {
            a4
        } else {
            b4
        };
        let e5 = if a5 >= b5 {
            a5
        } else {
            b5
        };
        let d = e0 + e1 + e2 + e3 + e4 + e5;
        let packed = pack6(e0, e1, e2, e3, e4, e5, d);
        let r = BitPackedExponent { exponents: packed };
        proof {
            assert(r.exps() =~= lcm_exps(self.exps(), o.exps()));
            lemma_degree6(r.exps());
        }
        r
    }

    fn degree(&self) -> (r: u64) {
        self.exponents >> 48
    }

    #[verifier::loop_isolation(false)]
    fn lex_compare(&self, o: &Self) -> (r: i32) {
        proof {
            lemma_lex6(self.exps(), o.exps());
        }
        let a = self.exponents;
        let b = o.exponents;
        proof {
            assert(forall|j: int|
                0 <= j < 6 ==> self.exps()[j] == #[trigger] pexp(a, j) && o.exps()[j] == pexp(
                    b,
                    j,
                ));
        }
        let mut i: usize = 0;
        while i < 6
            invariant
                i <= 6,
                forall|j: int| 0 <= j < i ==> pexp(a, j) == pexp(b, j),
            decreases 6 - i,
        {
            let x = pbyte(a, i);
            let y = pbyte(b, i);
            if x < y {
                return -1;
            }
            if x > y {
                return 1;
            }
            i = i + 1;
        }
        0
    }

    #[verifier::loop_isolation(false)]
    fn rev_lex_compare(&self, o: &Self) -> (r: i32) {
        let ghost ra = rev_exps(self.exps());
        let ghost rb = rev_exps(o.exps());
        proof {
            assert(ra.len() == 6 && rb.len() == 6);
            assert(ra[0] == self.exps()[5] && ra[1] == self.exps()[4] && ra[2] == self.exps()[3]
                && ra[3] == self.exps()[2] && ra[4] == self.exps()[1] && ra[5] == self.exps()[0]);
            assert(rb[0] == o.exps()[5] && rb[1] == o.exps()[4] && rb[2] == o.exps()[3] && rb[3]
                == o.exps()[2] && rb[4] == o.exps()[1] && rb[5] == o.exps()[0]);
            lemma_lex6(ra, rb);
        }
        let a = self.exponents;
        let b = o.exponents;
        proof {
            assert(forall|j: int|
                0 <= j < 6 ==> self.exps()[j] == #[trigger] pexp(a, j) && o.exps()[j] == pexp(
                    b,
                    j,
                ));
        }
        let mut i: usize = 0;
        while i < 6
            invariant
                i <= 6,
                forall|j: int| 0 <= j < i ==> #[trigger] pexp(a, 5 - j) == pexp(b, 5 - j),
            decreases 6 - i,
        {
            let x = pbyte(a, 5 - i);
            let y = pbyte(b, 5 - i);
            if x < y {
                assert(ra[i as int] < rb[i as int]);
                return -1;
            }
            if x > y {
                assert(ra[i as int] > rb[i as int]);
                return 1;
            }
            i = i + 1;
        }
        proof {
            assert(forall|j: int| 0 <= j < 6 ==> ra[j] == rb[j]);
        }
        0
    }

    #[verifier::loop_isolation(false)]
    fn can_reduce(&self, divisor: &Self) -> (r: bool) {
        let a = self.exponents;
        let b = divisor.exponents;
        proof {
            assert(forall|j: int|
                0 <= j < 6 ==> self.exps()[j] == #[trigger] pexp(a, j) && divisor.exps()[j]
                    == pexp(b, j));
        }
        let mut i: usize = 0;
        while i < 6
            invariant
                i <= 6,
                forall|j: int| 0 <= j < i ==> pexp(b, j) <= pexp(a, j),
            decreases 6 - i,
        {
            if pbyte(a, i) < pbyte(b, i) {
                assert(divisor.exps()[i as int] > self.exps()[i as int]);
                return false;
            }
            i = i + 1;
        }
        true
    }
}

} // verus!
