//! The tables of a parameter set, computed from the primes and one root of
//! unity for each of them.

use vstd::prelude::*;
use vstd::arithmetic::div_mod::*;
use vstd::arithmetic::power::*;
use crate::params::{Params, is_pow2, product, product_of, check_pow2};
use crate::arith::{mul_mod, add_mod};

verus! {

/// The number whose binary digits are those of `k` in reverse, in words as
/// wide as `n - 1` for a power of two `n`.
pub open spec fn bit_reverse(k: nat, n: nat) -> nat
    decreases n,
{
    if n <= 1 {
        0
    } else {
        (k % 2) * (n / 2) + bit_reverse(k / 2, n / 2)
    }
}

/// `base` to the power `exp`, modulo `m`.
pub fn pow_mod(base: u64, exp: u64, m: u64) -> (r: u64)
    requires
        m > 0,
    ensures
        r == pow(base as int, exp as nat) % (m as int),
        r < m,
{
    let mut acc: u64 = 1 % m;
    let mut b: u64 = base % m;
    let mut e: u64 = exp;
    proof {
        lemma_pow_mod_noop(base as int, exp as nat, m as int);
        lemma_mul_mod_noop_general(1, pow(b as int, exp as nat), m as int);
        assert(1 * pow(b as int, exp as nat) == pow(b as int, exp as nat));
    }
    while e > 0
        invariant
            m > 0,
            acc < m,
            b < m,
            (acc * pow(b as int, e as nat)) % (m as int) == pow(base as int, exp as nat) % (
            m as int),
        decreases e,
    {
        let ghost h = (e / 2) as nat;
        let ghost sq = (b as int) * (b as int);
        let ghost part = pow(sq, h);
        proof {
            lemma_square_is_pow2(b as int);
            lemma_pow_multiplies(b as int, 2, h);
            assert(pow(b as int, 2 * h) == part);
            lemma_pow_mod_noop(sq, h, m as int);
        }
        let next_b: u64 = mul_mod(b, b, m);
        let mut next_acc: u64 = acc;
        if e % 2 == 1 {
            next_acc = mul_mod(acc, b, m);
            proof {
                lemma_pow_adds(b as int, 2 * h, 1);
                lemma_pow1(b as int);
                assert(pow(b as int, e as nat) == part * b);
                assert(acc * (part * b) == (acc * b) * part) by (nonlinear_arith);
                lemma_mul_mod_noop_general(acc * b, part, m as int);
            }
        } else {
            proof {
                assert(e as nat == 2 * h);
            }
        }
        proof {
            // next_acc * pow(next_b, h) is next_acc * part modulo m
            lemma_mul_mod_noop_general(next_acc as int, pow(next_b as int, h), m as int);
            lemma_mul_mod_noop_general(next_acc as int, part, m as int);
        }
        acc = next_acc;
        b = next_b;
        e = e / 2;
    }
    proof {
        lemma_pow0(b as int);
        assert(acc * 1 == acc);
        lemma_small_mod(acc as nat, m as nat);
    }
    acc
}

/// What `g` gives as a candidate for a root of unity of order `2n` modulo
/// `p`: `g` to the power `(p - 1) / 2n`.
pub open spec fn candidate_root(g: int, p: int, n: int) -> int {
    pow(g, ((p - 1) / (2 * n)) as nat) % p
}

/// `r` to the power `n` is `-1` modulo `p`, which makes `r` a root of unity
/// of order exactly `2n` when `n` is a power of two.
pub open spec fn is_negacyclic_root(r: int, p: int, n: int) -> bool {
    pow(r, n as nat) % p == p - 1
}

/// Searches a root of unity of order `2n` modulo `p` among the candidates
/// that 2, 3, ... give, and hands out the first. There is none when no
/// candidate below `p` is one.
pub fn find_root(p: u64, n: usize) -> (r: Option<u64>)
    requires
        p >= 2,
        n >= 1,
        2 * n <= u64::MAX,
    ensures
        match r {
            Some(root) => root < p && is_negacyclic_root(root as int, p as int, n as int)
                && exists|g: int| 2 <= g < p && root == #[trigger] candidate_root(g, p as int, n as int),
            None => forall|g: int|
                2 <= g < p ==> !is_negacyclic_root(
                    #[trigger] candidate_root(g, p as int, n as int),
                    p as int,
                    n as int,
                ),
        },
{
    let order: u64 = 2 * (n as u64);
    let exp: u64 = (p - 1) / order;
    let mut g: u64 = 2;
    while g < p
        invariant
            p >= 2,
            n >= 1,
            order == 2 * n,
            exp == (p - 1) / (order as int),
            2 <= g <= p,
            forall|k: int|
                2 <= k < g ==> !is_negacyclic_root(
                    #[trigger] candidate_root(k, p as int, n as int),
                    p as int,
                    n as int,
                ),
        decreases p - g,
    {
        let r: u64 = pow_mod(g, exp, p);
        if pow_mod(r, n as u64, p) == p - 1 {
            assert(r == candidate_root(g as int, p as int, n as int));
            return Some(r);
        }
        g += 1;
    }
    None
}

/// The binary digits of `k` in reverse, in words as wide as `n - 1`.
pub fn reverse_bits(k: usize, n: usize) -> (r: usize)
    requires
        is_pow2(n as nat),
        k < n,
    ensures
        r == bit_reverse(k as nat, n as nat),
        r < n,
{
    let mut out: usize = 0;
    let mut x: usize = k;
    let mut span: usize = n;
    proof {
        assert(0 * span + span <= n) by (nonlinear_arith)
            requires
                span == n,
        ;
        assert(0 * span == 0) by (nonlinear_arith);
    }
    while span > 1
        invariant
            is_pow2(span as nat),
            x < span,
            out * span + span <= n,
            bit_reverse(k as nat, n as nat) == out * span + bit_reverse(x as nat, span as nat),
        decreases span,
    {
        let ghost half = (span / 2) as int;
        proof {
            assert(2 * out + 2 <= out * span + span) by (nonlinear_arith)
                requires
                    span >= 2,
                    out >= 0,
            ;
            assert((2 * out + x % 2) * half + half <= out * span + span && out * span == (2
                * out) * half) by (nonlinear_arith)
                requires
                    span == 2 * half,
                    0 <= x % 2 <= 1,
                    out >= 0,
                    half >= 1,
            ;
            assert((2 * out + x % 2) * half == (2 * out) * half + (x % 2) * half)
                by (nonlinear_arith);
        }
        out = 2 * out + x % 2;
        x = x / 2;
        span = span / 2;
    }
    proof {
        assert(out * 1 == out) by (nonlinear_arith);
    }
    out
}

impl Params {
    /// The tables of plane `c` are the ones that the root `psi` gives: the
    /// forward table holds the powers of `psi` in bit-reversed order, the
    /// inverse table the inverse of twice each of them, found as a power,
    /// and the basis entry is the product of the other primes times its
    /// inverse modulo the prime of the plane.
    pub open spec fn plane_derived(&self, c: int, psi: u64) -> bool {
        let p = self.prime(c);
        let n = self.poly_len as nat;
        let rest = (self.modulus as int) / p;
        &&& self.forward_roots@[c]@.len() == n
        &&& self.inverse_roots@[c]@.len() == n
        &&& forall|k: int|
            0 <= k < n ==> #[trigger] self.fwd_root(c, k) == pow(
                psi as int,
                bit_reverse(k as nat, n),
            ) % p
        &&& forall|k: int|
            0 <= k < n ==> #[trigger] self.inv_root(c, k) == pow(
                2 * self.fwd_root(c, k),
                (p - 2) as nat,
            ) % p
        &&& self.halves@[c] == (p + 1) / 2
        &&& self.crt_basis@[c] == (rest * (pow(rest, (p - 2) as nat) % p)) % (self.modulus as int)
    }

    /// The tables of every plane are the ones that its root gives.
    pub open spec fn derived_from(&self, roots: Seq<u64>) -> bool {
        &&& self.forward_roots@.len() == self.crt_count
        &&& self.inverse_roots@.len() == self.crt_count
        &&& self.halves@.len() == self.crt_count
        &&& self.crt_basis@.len() == self.crt_count
        &&& forall|c: int| 0 <= c < self.crt_count ==> #[trigger] self.plane_derived(c, roots[c])
    }

    /// Computes the tables of a parameter set from the degree, the primes
    /// and, for each prime, a root of unity of order twice the degree. There
    /// is a result exactly when the degree is a power of two, each prime has
    /// its root, and the primes are at least two with a product that fits a
    /// word. Whether the result is usable depends on the primes and roots
    /// given: `check` tells.
    pub fn derive(poly_len: usize, moduli: Vec<u64>, roots: &Vec<u64>) -> (r: Option<Params>)
        ensures
            match r {
                Some(p) => {
                    &&& p.poly_len == poly_len
                    &&& p.moduli == moduli
                    &&& p.crt_count == moduli@.len()
                    &&& p.modulus == product(moduli@, moduli@.len())
                    &&& p.derived_from(roots@)
                },
                None => {
                    ||| !is_pow2(poly_len as nat)
                    ||| roots@.len() != moduli@.len()
                    ||| product(moduli@, moduli@.len()) > u64::MAX
                    ||| exists|j: int| 0 <= j < moduli@.len() && #[trigger] moduli@[j] < 2
                },
            },
    {
        if !check_pow2(poly_len) || roots.len() != moduli.len() {
            return None;
        }
        let count: usize = moduli.len();
        let q: u64 = match product_of(&moduli) {
            Some(q) => q,
            None => {
                return None;
            },
        };
        proof {
            crate::params::lemma_product_positive(moduli@, moduli@.len());
        }
        let mut forward_roots: Vec<Vec<u64>> = Vec::new();
        let mut inverse_roots: Vec<Vec<u64>> = Vec::new();
        let mut halves: Vec<u64> = Vec::new();
        let mut crt_basis: Vec<u64> = Vec::new();
        let mut c: usize = 0;
        while c < count
            invariant
                is_pow2(poly_len as nat),
                count == moduli@.len(),
                count == roots@.len(),
                q == product(moduli@, moduli@.len()),
                q >= 1,
                forall|j: int| 0 <= j < moduli@.len() ==> #[trigger] moduli@[j] >= 2,
                c <= count,
                forward_roots@.len() == c,
                inverse_roots@.len() == c,
                halves@.len() == c,
                crt_basis@.len() == c,
                forall|i: int|
                    0 <= i < c ==> #[trigger] plane_tables_ok(
                        forward_roots@[i]@,
                        inverse_roots@[i]@,
                        halves@[i],
                        crt_basis@[i],
                        poly_len as nat,
                        moduli@[i] as int,
                        q as int,
                        roots@[i],
                    ),
            decreases count - c,
        {
            let p: u64 = moduli[c];
            let psi: u64 = roots[c];
            let mut f: Vec<u64> = Vec::new();
            let mut g: Vec<u64> = Vec::new();
            let mut k: usize = 0;
            while k < poly_len
                invariant
                    is_pow2(poly_len as nat),
                    p >= 2,
                    k <= poly_len,
                    f@.len() == k,
                    g@.len() == k,
                    forall|i: int|
                        0 <= i < k ==> #[trigger] f@[i] == pow(
                            psi as int,
                            bit_reverse(i as nat, poly_len as nat),
                        ) % (p as int),
                    forall|i: int|
                        0 <= i < k ==> #[trigger] g@[i] == pow(2 * f@[i], (p - 2) as nat) % (
                        p as int),
                decreases poly_len - k,
            {
                let e: usize = reverse_bits(k, poly_len);
                let w: u64 = pow_mod(psi, e as u64, p);
                let twice: u64 = add_mod(w, w, p);
                proof {
                    lemma_pow_mod_noop(2 * w, (p - 2) as nat, p as int);
                }
                let inv: u64 = pow_mod(twice, p - 2, p);
                f.push(w);
                g.push(inv);
                k += 1;
            }
            let rest: u64 = q / p;
            let rest_inv: u64 = pow_mod(rest, p - 2, p);
            let e: u64 = mul_mod(rest, rest_inv, q);
            forward_roots.push(f);
            inverse_roots.push(g);
            halves.push((p - 1) / 2 + 1);
            crt_basis.push(e);
            c += 1;
        }
        let p = Params {
            poly_len,
            crt_count: count,
            moduli,
            modulus: q,
            forward_roots,
            inverse_roots,
            halves,
            crt_basis,
        };
        proof {
            assert forall|i: int| 0 <= i < p.crt_count implies #[trigger] p.plane_derived(
                i,
                roots@[i],
            ) by {
                assert(plane_tables_ok(
                    p.forward_roots@[i]@,
                    p.inverse_roots@[i]@,
                    p.halves@[i],
                    p.crt_basis@[i],
                    poly_len as nat,
                    p.moduli@[i] as int,
                    q as int,
                    roots@[i],
                ));
            }
        }
        Some(p)
    }
}

/// The tables `f`, `g`, the half `h` and the basis entry `e` are the ones
/// that the root `psi` gives for the prime `p` and the full modulus `q`.
pub open spec fn plane_tables_ok(
    f: Seq<u64>,
    g: Seq<u64>,
    h: u64,
    e: u64,
    n: nat,
    p: int,
    q: int,
    psi: u64,
) -> bool {
    &&& f.len() == n
    &&& g.len() == n
    &&& forall|k: int|
        0 <= k < n ==> #[trigger] f[k] == pow(psi as int, bit_reverse(k as nat, n)) % p
    &&& forall|k: int| 0 <= k < n ==> #[trigger] g[k] == pow(2 * f[k], (p - 2) as nat) % p
    &&& h == (p + 1) / 2
    &&& e == ((q / p) * (pow(q / p, (p - 2) as nat) % p)) % q
}

} // verus!
