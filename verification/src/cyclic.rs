//! The cyclic benchmark systems: for `n` variables, the polynomials
//! `f_k = sum over s of x_s x_{s+1} ... x_{s+k-1}` (indices modulo `n`)
//! for `k` below `n`, and `f_n = x_0 x_1 ... x_{n-1} - 1`.

use vstd::prelude::*;
use vstd::pervasive::VecAdditionalExecFns;
use vstd::arithmetic::div_mod::lemma_small_mod;
use crate::config::GrobnerConfig;
use crate::config::GrobnerError;
use crate::config::cfg_wf;
use crate::exponent::IExponent;
use crate::int_mod_p::IntModP;
use crate::poly::Polynomial;
use crate::poly::Term;
use crate::poly::coeff_of;
use crate::poly::poly_wf;
use crate::poly::pview;
use crate::poly::terms_view;
use crate::poly::tview;
use crate::vec_exponent::VecExponent;

verus! {

/// Variable `v` lies in the window of `k` consecutive variables starting
/// at `start`, indices modulo `n`.
pub open spec fn in_window(n: int, start: int, k: nat, v: int) -> bool {
    exists|off: int| 0 <= off < k && v == #[trigger] ((start + off) % n)
}

/// The exponent vector of the product of the `k` consecutive variables
/// starting at `start`.
pub open spec fn cyclic_window(n: nat, start: int, k: nat) -> Seq<nat> {
    Seq::new(n as nat, |v: int| if in_window(n as int, start, k, v) {
        1nat
    } else {
        0nat
    })
}

/// The terms of `f_k`: one unit term per window start.
pub open spec fn cyclic_terms(n: nat, k: nat) -> Seq<(nat, Seq<nat>)> {
    Seq::new(n as nat, |s: int| (1nat, cyclic_window(n, s, k)))
}

/// The terms of `f_n`: the product of all variables, minus one.
pub open spec fn cyclic_last_terms(m: nat, n: nat) -> Seq<(nat, Seq<nat>)> {
    seq![
        (1nat, Seq::new(n as nat, |i: int| 1nat)),
        (((m - 1) as nat), Seq::new(n as nat, |i: int| 0nat)),
    ]
}

/// A zero exponent vector of the given arity.
#[verifier::loop_isolation(false)]
fn zero_exponents(n: usize) -> (r: Vec<u32>)
    ensures
        r@.len() == n,
        forall|i: int| 0 <= i < n ==> r@[i] == 0u32,
{
    let mut e: Vec<u32> = Vec::new();
    let mut i: usize = 0;
    while i < n
        invariant
            i <= n,
            e@.len() == i,
            forall|j: int| 0 <= j < i ==> e@[j] == 0u32,
        decreases n - i,
    {
        e.push(0);
        i = i + 1;
    }
    e
}

/// Builds the cyclic system of `n` variables over the configured field:
/// `n` canonical polynomials of arity `n`. Element `j` denotes `f_{j+1}`,
/// the sum over all starts of the product of `j + 1` consecutive
/// variables; the last element denotes the product of all variables minus
/// one. The bound on `n` keeps every index computation inside a 32-bit
/// machine word, far within the dense representation's limits.
#[verifier::loop_isolation(false)]
pub fn cyclic_polynomials(cfg: &GrobnerConfig, n: usize) -> (r: Result<
    Vec<Polynomial<VecExponent>>,
    GrobnerError,
>)
    requires
        cfg_wf(*cfg),
        1 <= n <= 0xFFFF,
    ensures
        match r {
            Ok(v) => {
                &&& v@.len() == n
                &&& forall|k: int|
                    0 <= k < v@.len() ==> poly_wf(#[trigger] v@[k], cfg.order, cfg.modulus as nat)
                        && forall|t: int|
                        0 <= t < v@[k].terms@.len()
                            ==> (#[trigger] v@[k].terms@[t]).exponents.exps().len() == n
                &&& forall|j: int, x: Seq<nat>|
                    0 <= j < n - 1 ==> #[trigger] coeff_of(cfg.modulus as nat, pview(v@[j]), x)
                        == coeff_of(cfg.modulus as nat, cyclic_terms(n as nat, (j + 1) as nat), x)
                &&& forall|x: Seq<nat>|
                    #[trigger] coeff_of(cfg.modulus as nat, pview(v@[n - 1]), x) == coeff_of(
                        cfg.modulus as nat,
                        cyclic_last_terms(cfg.modulus as nat, n as nat),
                        x,
                    )
            },
            Err(e) => false,
        },
{
    let ghost m = cfg.modulus as nat;
    let mut polys: Vec<Polynomial<VecExponent>> = Vec::new();
    let mut k: usize = 1;
    while k < n
        invariant
            1 <= k <= n || (n == 1 && k == 1),
            polys@.len() == k - 1,
            forall|q: int|
                0 <= q < polys@.len() ==> poly_wf(#[trigger] polys@[q], cfg.order, m)
                    && forall|t: int|
                    0 <= t < polys@[q].terms@.len()
                        ==> (#[trigger] polys@[q].terms@[t]).exponents.exps().len() == n,
            forall|q2: int, x: Seq<nat>|
                0 <= q2 < polys@.len() ==> #[trigger] coeff_of(m, pview(polys@[q2]), x) == coeff_of(
                    m,
                    cyclic_terms(n as nat, (q2 + 1) as nat),
                    x,
                ),
        decreases n - k,
    {
        // f_k: one term per window start
        let mut terms: Vec<Term<VecExponent>> = Vec::new();
        let mut start: usize = 0;
        while start < n
            invariant
                start <= n,
                terms@.len() == start,
                forall|t: int|
                    0 <= t < terms@.len() ==> (#[trigger] terms@[t]).exponents.inv()
                        && terms@[t].exponents.exps().len() == n && terms@[t].coefficient.p
                        == cfg.modulus,
                forall|t: int|
                    0 <= t < terms@.len() ==> tview(#[trigger] terms@[t]) == cyclic_terms(
                        n as nat,
                        k as nat,
                    )[t],
            decreases n - start,
        {
            let mut e = zero_exponents(n);
            let mut offset: usize = 0;
            while offset < k
                invariant
                    offset <= k,
                    k < n,
                    start < n,
                    e@.len() == n,
                    forall|v: int|
                        0 <= v < n ==> e@[v] == (if in_window(
                            n as int,
                            start as int,
                            offset as nat,
                            v,
                        ) {
                            1u32
                        } else {
                            0u32
                        }),
                decreases k - offset,
            {
                let ghost eold = e@;
                let idx = (start + offset) % n;
                e.set(idx, 1);
                proof {
                    assert forall|v: int|
                        0 <= v < n implies e@[v] == (if in_window(
                        n as int,
                        start as int,
                        (offset + 1) as nat,
                        v,
                    ) {
                        1u32
                    } else {
                        0u32
                    }) by {
                        if v == idx as int {
                            assert(in_window(n as int, start as int, (offset + 1) as nat, v)) by {
                                assert(v == (start as int + offset as int) % (n as int));
                            }
                        } else {
                            assert(e@[v] == eold[v]);
                            if in_window(n as int, start as int, (offset + 1) as nat, v) {
                                let off = choose|off: int|
                                    0 <= off < offset + 1 && v == #[trigger] ((start as int + off)
                                        % (n as int));
                                assert(off != offset as int) by {
                                    if off == offset as int {
                                        assert(v == idx as int);
                                    }
                                }
                                assert(in_window(n as int, start as int, offset as nat, v));
                            } else if in_window(n as int, start as int, offset as nat, v) {
                                let off = choose|off: int|
                                    0 <= off < offset && v == #[trigger] ((start as int + off) % (
                                    n as int));
                                assert(in_window(n as int, start as int, (offset + 1) as nat, v));
                            }
                        }
                    }
                }
                offset = offset + 1;
            }
            let one = IntModP::new(1, cfg.modulus as u128);
            let ve = VecExponent::new(e);
            proof {
                lemma_small_mod(1nat, m);
                assert(ve.exps() =~= cyclic_window(n as nat, start as int, k as nat)) by {
                    assert forall|v: int| 0 <= v < n implies ve.exps()[v] == cyclic_window(
                        n as nat,
                        start as int,
                        k as nat,
                    )[v] by {
                        assert(ve.exps()[v] == e@[v] as nat);
                    }
                }
            }
            let ghost terms_before = terms@;
            terms.push(Term { coefficient: one, exponents: ve });
            proof {
                assert(tview(terms@[start as int]) == cyclic_terms(n as nat, k as nat)[start as int]);
                assert forall|t: int| 0 <= t < terms@.len() implies tview(#[trigger] terms@[t])
                    == cyclic_terms(n as nat, k as nat)[t] by {
                    if t < terms_before.len() {
                        assert(terms@[t] == terms_before[t]);
                    }
                }
            }
            start = start + 1;
        }
        let ghost tv = terms_view(terms@);
        proof {
            assert(tv =~= cyclic_terms(n as nat, k as nat)) by {
                assert(forall|t: int| 0 <= t < tv.len() ==> #[trigger] tv[t] == tview(terms@[t]));
            }
        }
        let q = match Polynomial::new(cfg, terms) {
            Ok(q) => q,
            Err(_) => {
                proof {
                    assert(false);
                }
                return Err(GrobnerError::MalformedInput);
            },
        };
        let ghost polys_before = polys@;
        polys.push(q);
        proof {
            assert forall|q2: int, x: Seq<nat>| 0 <= q2 < polys@.len() implies #[trigger] coeff_of(
                m,
                pview(polys@[q2]),
                x,
            ) == coeff_of(m, cyclic_terms(n as nat, (q2 + 1) as nat), x) by {
                if q2 < polys_before.len() {
                    assert(polys@[q2] == polys_before[q2]);
                } else {
                    assert(polys@[q2] == q && q2 + 1 == k);
                    assert(coeff_of(m, pview(q), x) == coeff_of(m, tv, x));
                }
            }
        }
        k = k + 1;
    }
    // f_n: the product of all variables, minus one
    let mut ones = zero_exponents(n);
    let mut i: usize = 0;
    while i < n
        invariant
            i <= n,
            ones@.len() == n,
            forall|j: int| 0 <= j < i ==> ones@[j] == 1u32,
        decreases n - i,
    {
        ones.set(i, 1);
        i = i + 1;
    }
    let mut terms: Vec<Term<VecExponent>> = Vec::new();
    terms.push(
        Term {
            coefficient: IntModP::new(1, cfg.modulus as u128),
            exponents: VecExponent::new(ones),
        },
    );
    terms.push(
        Term {
            coefficient: IntModP::new(cfg.modulus as u128 - 1, cfg.modulus as u128),
            exponents: VecExponent::new(zero_exponents(n)),
        },
    );
    let ghost tvl = terms_view(terms@);
    proof {
        lemma_small_mod(1nat, m);
        lemma_small_mod((m - 1) as nat, m);
        assert(tvl =~= cyclic_last_terms(m, n as nat)) by {
            assert(tvl.len() == 2);
            assert(tvl[0] == tview(terms@[0]) && tvl[1] == tview(terms@[1]));
            assert(tview(terms@[0]).0 == 1nat);
            assert(tview(terms@[0]).1 =~= Seq::new(n as nat, |i: int| 1nat));
            assert(tview(terms@[1]).0 == (m - 1) as nat);
            assert(tview(terms@[1]).1 =~= Seq::new(n as nat, |i: int| 0nat));
        }
    }
    let q = match Polynomial::new(cfg, terms) {
        Ok(q) => q,
        Err(_) => {
            proof {
                assert(false);
            }
            return Err(GrobnerError::MalformedInput);
        },
    };
    let ghost polys_before = polys@;
    polys.push(q);
    proof {
        assert forall|x: Seq<nat>| #[trigger] coeff_of(m, pview(polys@[n - 1]), x) == coeff_of(
            m,
            cyclic_last_terms(m, n as nat),
            x,
        ) by {
            assert(polys@[n - 1] == q);
            assert(coeff_of(m, pview(q), x) == coeff_of(m, tvl, x));
        }
        assert forall|j: int, x: Seq<nat>| 0 <= j < n - 1 implies #[trigger] coeff_of(
            m,
            pview(polys@[j]),
            x,
        ) == coeff_of(m, cyclic_terms(n as nat, (j + 1) as nat), x) by {
            assert(polys@[j] == polys_before[j]);
        }
    }
    Ok(polys)
}

} // verus!
