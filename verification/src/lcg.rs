//! A deterministic linear congruential generator, the pseudorandom source
//! used to synthesize benchmark polynomials.

use vstd::prelude::*;

verus! {

/// One step of the generator: `(a * last + c) % m` with the sign
/// semantics of machine remainder (the result keeps the dividend's sign).
pub open spec fn lcg_step(a: int, last: int, c: int, m: int) -> int {
    let x = a * last + c;
    let am = if m >= 0 {
        m
    } else {
        -m
    };
    if x >= 0 {
        x % am
    } else {
        -((-x) % am)
    }
}

/// A linear congruential pseudorandom generator over 32-bit integers.
#[allow(non_camel_case_types)]
pub struct lcg {
    pub m: i32,
    pub a: i32,
    pub c: i32,
    pub last_num: i32,
}

impl lcg {
    /// Seeds the generator with its multiplier, increment and modulus.
    pub fn new(seed: i32, m: i32, a: i32, c: i32) -> (r: Self)
        ensures
            r.m == m,
            r.a == a,
            r.c == c,
            r.last_num == seed,
    {
        lcg { m, a, c, last_num: seed }
    }

    /// Advances the generator and returns the new state.
    pub fn next_int(&mut self) -> (r: i32)
        requires
            old(self).m != 0,
        ensures
            final(self).m == old(self).m,
            final(self).a == old(self).a,
            final(self).c == old(self).c,
            r == final(self).last_num,
            r as int == lcg_step(
                old(self).a as int,
                old(self).last_num as int,
                old(self).c as int,
                old(self).m as int,
            ),
    {
        let a64: i64 = self.a as i64;
        let l64: i64 = self.last_num as i64;
        let c64: i64 = self.c as i64;
        proof {
            assert(-0x4000_0000_0000_0000 <= a64 as int * l64 as int <= 0x4000_0000_0000_0000)
                by (nonlinear_arith)
                requires
                    -0x8000_0000 <= a64 as int <= 0x7FFF_FFFF,
                    -0x8000_0000 <= l64 as int <= 0x7FFF_FFFF,
            ;
        }
        let x: i64 = a64 * l64 + c64;
        let am: u64 = if self.m >= 0 {
            self.m as u64
        } else {
            (-(self.m as i64)) as u64
        };
        let neg = x < 0;
        let ax: u64 = if neg {
            (-x) as u64
        } else {
            x as u64
        };
        let rr = ax % am;
        proof {
            assert(rr < am);
        }
        let r: i32 = if neg {
            (-(rr as i64)) as i32
        } else {
            rr as i32
        };
        self.last_num = r;
        r
    }
}

} // verus!
