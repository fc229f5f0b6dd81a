//! The modular-integer coefficient field: values canonically reduced into
//! `[0, p)`, with division through the modular inverse computed by the
//! extended Euclidean algorithm.

use vstd::prelude::*;
use vstd::arithmetic::div_mod::lemma_fundamental_div_mod;
use vstd::arithmetic::div_mod::lemma_mod_add_multiples_vanish;
use vstd::arithmetic::div_mod::lemma_mod_bound;
use vstd::arithmetic::div_mod::lemma_mod_multiples_basic;
use vstd::arithmetic::div_mod::lemma_mod_self_0;
use vstd::arithmetic::div_mod::lemma_mul_mod_noop_left;
use vstd::arithmetic::div_mod::lemma_mul_mod_noop_right;
use vstd::arithmetic::div_mod::lemma_sub_mod_noop;
use vstd::arithmetic::div_mod::lemma_sub_mod_noop_right;

verus! {

/// The greatest common divisor, by Euclid's recursion.
pub open spec fn gcd(a: nat, b: nat) -> nat
    decreases b,
{
    if b == 0 {
        a
    } else {
        gcd(b, a % b)
    }
}

/// Primality: at least two, and no proper divisor.
pub open spec fn is_prime(p: nat) -> bool {
    p >= 2 && forall|d: nat| 2 <= d < p ==> #[trigger] (p % d) != 0
}

pub proof fn lemma_gcd_pos(a: nat, b: nat)
    requires
        a >= 1,
    ensures
        gcd(a, b) >= 1,
    decreases b,
{
    if b != 0 {
        lemma_gcd_pos(b, a % b);
    }
}

/// The gcd divides both arguments.
pub proof fn lemma_gcd_divides(a: nat, b: nat)
    requires
        a >= 1,
    ensures
        gcd(a, b) >= 1,
        a % gcd(a, b) == 0,
        b % gcd(a, b) == 0,
    decreases b,
{
    let g = gcd(a, b);
    lemma_gcd_pos(a, b);
    if b == 0 {
        lemma_mod_self_0(a as int);
    } else {
        lemma_gcd_divides(b, a % b);
        assert(g == gcd(b, a % b));
        // a == (a / b) * b + a % b, and g divides both b and a % b.
        lemma_fundamental_div_mod(a as int, b as int);
        let q = a as int / b as int;
        let k1 = b as int / g as int;
        let k2 = (a % b) as int / g as int;
        lemma_fundamental_div_mod(b as int, g as int);
        lemma_fundamental_div_mod((a % b) as int, g as int);
        assert(b as int == (g as int) * k1 + (b % g) as int);
        assert(b as int == k1 * (g as int)) by (nonlinear_arith)
            requires
                b as int == (g as int) * k1 + (b % g) as int,
                (b % g) as int == 0,
        ;
        assert((a % b) as int == k2 * (g as int)) by (nonlinear_arith)
            requires
                (a % b) as int == (g as int) * k2 + ((a % b) % g) as int,
                ((a % b) % g) as int == 0,
        ;
        assert(a as int == (q * k1 + k2) * (g as int)) by (nonlinear_arith)
            requires
                a as int == q * (b as int) + (a % b) as int,
                b as int == k1 * (g as int),
                (a % b) as int == k2 * (g as int),
        ;
        lemma_mod_multiples_basic(q * k1 + k2, g as int);
    }
}

/// A positive divisor of a positive number is at most that number.
pub proof fn lemma_divisor_le(d: nat, a: nat)
    requires
        d >= 1,
        a >= 1,
        a % d == 0,
    ensures
        d <= a,
{
    lemma_fundamental_div_mod(a as int, d as int);
    let q = a as int / d as int;
    assert(a as int == (d as int) * q);
    assert(q >= 1 && (d as int) * q >= d as int) by (nonlinear_arith)
        requires
            a as int == (d as int) * q,
            a >= 1,
            d >= 1,
    ;
}

/// A prime is coprime to everything strictly between zero and itself.
pub proof fn lemma_prime_gcd(p: nat, a: nat)
    requires
        is_prime(p),
        1 <= a < p,
    ensures
        gcd(p, a) == 1,
{
    let g = gcd(p, a);
    lemma_gcd_divides(p, a);
    lemma_divisor_le(g, a);
    if g >= 2 {
        assert(p % g != 0);
    }
}

/// The modular inverse by the extended Euclidean algorithm, with the
/// Bezout coefficient kept reduced into `[0, m)` at every step.
pub fn mod_inverse(a: u128, m: u128) -> (r: u128)
    requires
        1 <= m <= 0x1_0000_0000_0000_0000,
        a < m,
        gcd(m as nat, a as nat) == 1,
    ensures
        r < m,
        ((a as int) * (r as int)) % (m as int) == 1int % (m as int),
{
    let mut rr: u128 = m;
    let mut new_r: u128 = a;
    let mut t: u128 = 0;
    let mut new_t: u128 = 1 % m;
    proof {
        lemma_mod_self_0(m as int);
        lemma_mul_mod_noop_right(a as int, 1int, m as int);
        assert(((a as int) * (new_t as int)) % (m as int) == ((a as int) * 1) % (m as int));
        assert((a as int) * 1 == a as int);
        vstd::arithmetic::div_mod::lemma_small_mod(a as nat, m as nat);
        assert((a as int) * 0 == 0);
        assert((0int) % (m as int) == 0);
    }
    while new_r != 0
        invariant
            1 <= m <= 0x1_0000_0000_0000_0000,
            rr >= 1,
            rr <= m,
            new_r <= m,
            t < m,
            new_t < m,
            gcd(rr as nat, new_r as nat) == gcd(m as nat, a as nat),
            gcd(m as nat, a as nat) == 1,
            ((a as int) * (t as int)) % (m as int) == (rr as int) % (m as int),
            ((a as int) * (new_t as int)) % (m as int) == (new_r as int) % (m as int),
        decreases new_r,
    {
        let q = rr / new_r;
        let qm = q % m;
        proof {
            lemma_mod_bound(q as int, m as int);
            assert((qm as int) * (new_t as int) < 0x1_0000_0000_0000_0000_0000_0000_0000_0000)
                by (nonlinear_arith)
                requires
                    0 <= (qm as int) < 0x1_0000_0000_0000_0000,
                    0 <= (new_t as int) < 0x1_0000_0000_0000_0000,
            ;
        }
        let x = qm * new_t % m;
        let tt = (t + m - x) % m;
        let r_next = rr % new_r;
        proof {
            let mi = m as int;
            let ai = a as int;
            let ti = t as int;
            let nti = new_t as int;
            let ri = rr as int;
            let nri = new_r as int;
            let qi = q as int;
            // x == (q * new_t) % m
            lemma_mul_mod_noop_left(qi, nti, mi);
            assert(x as int == (qi * nti) % mi);
            // tt ≡ t - q * new_t  (mod m)
            lemma_mod_add_multiples_vanish(ti - x as int, mi);
            assert(tt as int == (ti - x as int) % mi);
            lemma_sub_mod_noop_right(ti, qi * nti, mi);
            assert(tt as int == (ti - qi * nti) % mi);
            // a * tt ≡ a * t - q * (a * new_t) ≡ r - q * new_r  (mod m)
            lemma_mul_mod_noop_right(ai, ti - qi * nti, mi);
            assert((ai * (tt as int)) % mi == (ai * (ti - qi * nti)) % mi);
            assert(ai * (ti - qi * nti) == ai * ti - qi * (ai * nti)) by (nonlinear_arith);
            // substitute the two congruences
            let c1 = (ai * ti) % mi;
            let c2 = (ai * nti) % mi;
            assert(c1 == ri % mi);
            assert(c2 == nri % mi);
            assert((ai * ti - qi * (ai * nti)) % mi == (ri - qi * nri) % mi) by {
                lemma_sub_mod_noop_right(ai * ti, qi * (ai * nti), mi);
                lemma_mul_mod_noop_right(qi, ai * nti, mi);
                lemma_mul_mod_noop_right(qi, nri, mi);
                assert((qi * (ai * nti)) % mi == (qi * c2) % mi);
                assert((qi * nri) % mi == (qi * c2) % mi);
                lemma_sub_mod_noop_right(ai * ti, qi * c2, mi);
                lemma_sub_mod_noop_right(ri, qi * nri, mi);
                lemma_sub_mod_noop_right(ri, qi * c2, mi);
                // (a*t - q*c2) % m and (r - q*c2) % m agree because a*t ≡ r
                let d = qi * c2;
                assert((ai * ti - d) % mi == (ri - d) % mi) by {
                    lemma_mod_in_sub(ai * ti, ri, d, mi);
                }
            }
            // r - q * new_r == r % new_r
            lemma_fundamental_div_mod(ri, nri);
            assert(ri - qi * nri == r_next as int);
            assert((ai * (tt as int)) % mi == (r_next as int) % mi);
            // the gcd is preserved by one Euclid step
            assert(gcd(rr as nat, new_r as nat) == gcd(new_r as nat, (rr % new_r) as nat));
        }
        rr = new_r;
        new_r = r_next;
        t = new_t;
        new_t = tt;
    }
    proof {
        assert(gcd(rr as nat, 0) == rr as nat);
        assert(rr == 1);
        assert((rr as nat) % (m as nat) == 1nat % (m as nat));
    }
    t
}

/// Two numbers congruent mod `m` stay congruent after subtracting the
/// same amount.
proof fn lemma_mod_in_sub(x: int, y: int, d: int, m: int)
    requires
        m > 0,
        x % m == y % m,
    ensures
        (x - d) % m == (y - d) % m,
{
    lemma_sub_mod_noop(x, d, m);
    lemma_sub_mod_noop(y, d, m);
    assert(((x % m) - (d % m)) % m == (x - d) % m);
    assert(((y % m) - (d % m)) % m == (y - d) % m);
}

} // verus!
