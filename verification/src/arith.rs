//! Word arithmetic modulo one prime of the parameter set.

use vstd::prelude::*;
use vstd::arithmetic::div_mod::*;
use crate::params::Params;

verus! {

/// `(a * b) mod m` without overflow.
pub fn mul_mod(a: u64, b: u64, m: u64) -> (r: u64)
    requires
        m > 0,
    ensures
        r == (a * b) % (m as int),
        r < m,
{
    assert((a as u128) * (b as u128) <= 0xffff_ffff_ffff_ffff * 0xffff_ffff_ffff_ffff)
        by (nonlinear_arith);
    let wide: u128 = (a as u128) * (b as u128);
    (wide % (m as u128)) as u64
}

/// `(a * b + x) mod m` without overflow.
pub fn mul_add_mod(a: u64, b: u64, x: u64, m: u64) -> (r: u64)
    requires
        m > 0,
    ensures
        r == (a * b + x) % (m as int),
        r < m,
{
    assert((a as u128) * (b as u128) <= 0xffff_ffff_ffff_ffff * 0xffff_ffff_ffff_ffff)
        by (nonlinear_arith);
    let wide: u128 = (a as u128) * (b as u128) + (x as u128);
    (wide % (m as u128)) as u64
}

/// `(a + b) mod m` without overflow.
pub fn add_mod(a: u64, b: u64, m: u64) -> (r: u64)
    requires
        m > 0,
    ensures
        r == (a + b) % (m as int),
        r < m,
{
    let wide: u128 = (a as u128) + (b as u128);
    (wide % (m as u128)) as u64
}

/// The additive inverse of `a` modulo `m`, in `[0, m)`; zero stays zero.
pub fn neg_mod(a: u64, m: u64) -> (r: u64)
    requires
        m > 0,
    ensures
        r == (m - a % m) % (m as int),
        r < m,
        (a + r) % (m as int) == 0,
{
    let low: u64 = a % m;
    proof {
        let q = (a as int) / (m as int);
        lemma_fundamental_div_mod(a as int, m as int);
        lemma_mod_self_0(m as int);
        if low != 0 {
            lemma_small_mod((m - low) as nat, m as nat);
            assert(a + (m - low) == m * (q + 1) + 0) by (nonlinear_arith)
                requires
                    a == m * q + low,
            ;
            lemma_mod_multiples_vanish(q + 1, 0, m as int);
        }
    }
    if low == 0 {
        0
    } else {
        m - low
    }
}

/// Product of two residues of plane `c`.
pub fn multiply_modular(params: &Params, a: u64, b: u64, c: usize) -> (r: u64)
    requires
        params.wf(),
        c < params.crt_count,
    ensures
        r == (a * b) % params.prime(c as int),
        r < params.prime(c as int),
{
    assert(params.plane_ok(c as int));
    mul_mod(a, b, params.moduli[c])
}

/// `a * b + x` in plane `c`.
pub fn multiply_add_modular(params: &Params, a: u64, b: u64, x: u64, c: usize) -> (r: u64)
    requires
        params.wf(),
        c < params.crt_count,
    ensures
        r == (a * b + x) % params.prime(c as int),
        r < params.prime(c as int),
{
    assert(params.plane_ok(c as int));
    mul_add_mod(a, b, x, params.moduli[c])
}

/// Sum of two residues of plane `c`.
pub fn add_modular(params: &Params, a: u64, b: u64, c: usize) -> (r: u64)
    requires
        params.wf(),
        c < params.crt_count,
    ensures
        r == (a + b) % params.prime(c as int),
        r < params.prime(c as int),
{
    assert(params.plane_ok(c as int));
    add_mod(a, b, params.moduli[c])
}

/// Additive inverse of a residue of plane `c`.
pub fn invert_modular(params: &Params, a: u64, c: usize) -> (r: u64)
    requires
        params.wf(),
        c < params.crt_count,
    ensures
        r == (params.prime(c as int) - a % (params.moduli@[c as int])) % params.prime(c as int),
        r < params.prime(c as int),
        (a + r) % params.prime(c as int) == 0,
{
    assert(params.plane_ok(c as int));
    neg_mod(a, params.moduli[c])
}

} // verus!
