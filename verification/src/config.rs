//! Explicit configuration for a basis computation, and the recoverable
//! error conditions of the library.
//!
//! The term order and the modulus are injected once, at construction, and
//! read-only afterwards: there is no ambient global to read before it was
//! written, so the fatal read-before-write case of a lazily initialized
//! global becomes a constructor error instead.

use vstd::prelude::*;
use crate::modular::is_prime;
use crate::order::TermOrder;

verus! {

/// The caller-visible error conditions.
#[derive(Copy, Clone, Debug, PartialEq, Eq, Structural)]
pub enum GrobnerError {
    /// The configuration is unusable: the modulus is not a prime.
    ConfigurationError,
    /// A divisor with the additive zero as coefficient was supplied.
    DivisionByZero,
    /// A zero polynomial stands where a nonzero leading term is required,
    /// or the variable arity is mismatched across a basis.
    MalformedInput,
    /// The externally supplied work budget ran out before the computation
    /// reached its fixpoint.
    BudgetExceeded,
    /// A monomial product left the representation's exponent range.
    ExponentLimitExceeded,
}

/// Write-once configuration: the term order consulted by every comparison
/// and the prime modulus of the coefficient field.
#[derive(Copy, Clone, Debug)]
pub struct GrobnerConfig {
    pub order: TermOrder,
    pub modulus: u64,
}

/// A usable configuration: the modulus is a prime, so every nonzero
/// coefficient is invertible.
pub open spec fn cfg_wf(c: GrobnerConfig) -> bool {
    2 <= c.modulus && is_prime(c.modulus as nat)
}

impl GrobnerConfig {
    /// Validates and fixes the configuration for a computation. Returns
    /// `ConfigurationError` exactly when the modulus is not prime.
    pub fn new(order: TermOrder, modulus: u64) -> (r: Result<GrobnerConfig, GrobnerError>)
        ensures
            match r {
                Ok(c) => c.order == order && c.modulus == modulus && cfg_wf(c),
                Err(e) => e == GrobnerError::ConfigurationError && !is_prime(modulus as nat),
            },
            r is Err <==> !is_prime(modulus as nat),
    {
        if modulus < 2 {
            return Err(GrobnerError::ConfigurationError);
        }
        let mut d: u64 = 2;
        while d < modulus
            invariant
                2 <= d <= modulus,
                forall|k: int| 2 <= k < d ==> #[trigger] ((modulus as int) % k) != 0,
            decreases modulus - d,
        {
            if modulus % d == 0 {
                assert((modulus as int) % (d as int) == 0);
                return Err(GrobnerError::ConfigurationError);
            }
            d = d + 1;
        }
        assert(is_prime(modulus as nat)) by {
            assert(forall|k: nat| 2 <= k < modulus ==> #[trigger] ((modulus as nat) % k) != 0)
                by {
                assert forall|k: nat| 2 <= k < modulus implies #[trigger] ((modulus as nat) % k)
                    != 0 by {
                    assert((modulus as int) % (k as int) != 0);
                }
            }
        }
        Ok(GrobnerConfig { order, modulus })
    }
}

} // verus!
