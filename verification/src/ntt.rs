//! The number-theoretic transform of one cell: butterfly layers over each
//! plane, forward and back, and the proof that the way back undoes the way
//! there.

use vstd::prelude::*;
use vstd::arithmetic::div_mod::*;
use vstd::arithmetic::mul::*;
use crate::params::{Params, is_pow2};
use crate::arith::{mul_mod, add_mod};

verus! {

/// The group of `2t` neighbours that position `j` lies in.
pub open spec fn group_of(j: int, t: int) -> int {
    j / (2 * t)
}

/// The place of position `j` inside its group.
pub open spec fn offset_of(j: int, t: int) -> int {
    j % (2 * t)
}

/// Entry `j` of a plane after one forward layer: the lower half of each group
/// receives `lo + w * hi`, the upper half `lo - w * hi`, modulo `p`.
pub open spec fn forward_at(x: Seq<u64>, roots: Seq<u64>, p: int, m: int, t: int, j: int) -> u64 {
    let w = roots[m + group_of(j, t)] as int;
    if offset_of(j, t) < t {
        ((x[j] + (x[j + t] * w) % p) % p) as u64
    } else {
        ((x[j - t] + (p - (x[j] * w) % p)) % p) as u64
    }
}

/// One forward layer with `m` groups of `2t` entries.
pub open spec fn forward_layer(x: Seq<u64>, roots: Seq<u64>, p: int, m: int, t: int) -> Seq<u64> {
    Seq::new(x.len(), |j: int| forward_at(x, roots, p, m, t, j))
}

/// Entry `j` of a plane after one inverse layer: the lower half of each group
/// receives `(lo + hi) / 2`, the upper half `(lo - hi) / (2w)`, modulo `p`.
pub open spec fn inverse_at(
    y: Seq<u64>,
    inv_roots: Seq<u64>,
    half: int,
    p: int,
    m: int,
    t: int,
    j: int,
) -> u64 {
    let g = inv_roots[m + group_of(j, t)] as int;
    if offset_of(j, t) < t {
        ((((y[j] + y[j + t]) % p) * half) % p) as u64
    } else {
        ((((y[j - t] + (p - (y[j] as int) % p)) % p) * g) % p) as u64
    }
}

/// One inverse layer with `m` groups of `2t` entries.
pub open spec fn inverse_layer(
    y: Seq<u64>,
    inv_roots: Seq<u64>,
    half: int,
    p: int,
    m: int,
    t: int,
) -> Seq<u64> {
    Seq::new(y.len(), |j: int| inverse_at(y, inv_roots, half, p, m, t, j))
}

/// The forward layers from the one with `m` groups down to the finest.
pub open spec fn forward_from(x: Seq<u64>, roots: Seq<u64>, p: int, m: nat, t: nat) -> Seq<u64>
    decreases t,
{
    if t == 0 {
        x
    } else {
        forward_from(forward_layer(x, roots, p, m as int, t as int), roots, p, 2 * m, t / 2)
    }
}

/// The inverse layers from the finest up to the one with `m` groups.
pub open spec fn inverse_from(
    y: Seq<u64>,
    inv_roots: Seq<u64>,
    half: int,
    p: int,
    m: nat,
    t: nat,
) -> Seq<u64>
    decreases t,
{
    if t == 0 {
        y
    } else {
        inverse_layer(
            inverse_from(y, inv_roots, half, p, 2 * m, t / 2),
            inv_roots,
            half,
            p,
            m as int,
            t as int,
        )
    }
}

/// The forward transform of plane `c`.
pub open spec fn forward_plane(params: &Params, c: int, x: Seq<u64>) -> Seq<u64> {
    forward_from(x, params.forward_roots@[c]@, params.prime(c), 1, (params.poly_len / 2) as nat)
}

/// The inverse transform of plane `c`.
pub open spec fn inverse_plane(params: &Params, c: int, y: Seq<u64>) -> Seq<u64> {
    inverse_from(
        y,
        params.inverse_roots@[c]@,
        params.halves@[c] as int,
        params.prime(c),
        1,
        (params.poly_len / 2) as nat,
    )
}

/// Plane `c` of a cell whose planes have `n` entries each.
pub open spec fn plane_of(x: Seq<u64>, n: int, c: int) -> Seq<u64> {
    x.subrange(c * n, c * n + n)
}

/// The forward transform of a cell: each plane transformed by its own prime.
pub open spec fn spec_ntt_forward(params: &Params, x: Seq<u64>) -> Seq<u64> {
    let n = params.poly_len as int;
    Seq::new(x.len(), |k: int| forward_plane(params, k / n, plane_of(x, n, k / n))[k % n])
}

/// The inverse transform of a cell.
pub open spec fn spec_ntt_inverse(params: &Params, y: Seq<u64>) -> Seq<u64> {
    let n = params.poly_len as int;
    Seq::new(y.len(), |k: int| inverse_plane(params, k / n, plane_of(y, n, k / n))[k % n])
}

/// Every entry of the plane is below `p`.
pub open spec fn below(x: Seq<u64>, p: int) -> bool {
    forall|j: int| 0 <= j < x.len() ==> #[trigger] x[j] < p
}

/// Every word of the cell is below the prime of its plane.
pub open spec fn cell_reduced(params: &Params, x: Seq<u64>) -> bool {
    forall|k: int| 0 <= k < x.len() ==> (#[trigger] x[k]) < params.prime(k / (params.poly_len as int))
}

/// Where the partner of position `j` lies, and that both share a group.
pub proof fn lemma_partner(j: int, m: int, t: int)
    requires
        t > 0,
        m > 0,
        0 <= j < m * (2 * t),
    ensures
        0 <= group_of(j, t) < m,
        0 <= offset_of(j, t) < 2 * t,
        j == group_of(j, t) * (2 * t) + offset_of(j, t),
        offset_of(j, t) < t ==> j + t < m * (2 * t) && group_of(j + t, t) == group_of(j, t)
            && offset_of(j + t, t) == offset_of(j, t) + t,
        offset_of(j, t) >= t ==> j - t >= 0 && group_of(j - t, t) == group_of(j, t) && offset_of(
            j - t,
            t,
        ) == offset_of(j, t) - t,
{
    let d = 2 * t;
    let g = j / d;
    let o = j % d;
    lemma_fundamental_div_mod(j, d);
    lemma_mod_bound(j, d);
    assert(g * d == d * g) by (nonlinear_arith);
    assert(0 <= g < m) by (nonlinear_arith)
        requires
            j == d * g + o,
            0 <= o < d,
            0 <= j < m * d,
            d > 0,
    ;
    if o < t {
        lemma_fundamental_div_mod_converse(j + t, d, g, o + t);
        assert(j + t < m * d) by (nonlinear_arith)
            requires
                j == d * g + o,
                o + t < d,
                g < m,
                d > 0,
        ;
    } else {
        lemma_fundamental_div_mod_converse(j - t, d, g, o - t);
        assert(j - t >= 0) by (nonlinear_arith)
            requires
                j == d * g + o,
                o >= t,
                g >= 0,
                d > 0,
        ;
    }
}

/// One butterfly followed by its inverse gives the two inputs back.
pub proof fn lemma_butterfly_roundtrip(x: int, y: int, w: int, g: int, h: int, p: int)
    requires
        p >= 2,
        0 <= x < p,
        0 <= y < p,
        0 <= w,
        0 <= g,
        0 <= h,
        (2 * h) % p == 1,
        (2 * (w * g)) % p == 1,
    ensures
        ({
            let v = (y * w) % p;
            let a = (x + v) % p;
            let b = (x + (p - v)) % p;
            &&& (((a + b) % p) * h) % p == x
            &&& (((a + (p - b % p)) % p) * g) % p == y
        }),
{
    let v = (y * w) % p;
    let a = (x + v) % p;
    let b = (x + (p - v)) % p;
    lemma_mod_bound(y * w, p);
    lemma_mod_bound(x + v, p);
    lemma_mod_bound(x + (p - v), p);
    lemma_small_mod(x as nat, p as nat);
    lemma_small_mod(y as nat, p as nat);
    lemma_small_mod(b as nat, p as nat);
    // lower output
    lemma_add_mod_noop(x + v, x + (p - v), p);
    lemma_mod_multiples_vanish(1, 2 * x, p);
    assert((a + b) % p == (2 * x) % p);
    lemma_mul_mod_noop_general(2 * x, h, p);
    assert((2 * x) * h == x * (2 * h)) by (nonlinear_arith);
    lemma_mul_mod_noop_general(x, 2 * h, p);
    assert(x * 1 == x);
    assert((((a + b) % p) * h) % p == x);
    // upper output
    lemma_sub_mod_noop(x + v, x + (p - v), p);
    assert((a - b) % p == (2 * v - p) % p);
    lemma_mod_multiples_vanish(1, a - b, p);
    lemma_mod_multiples_vanish(-1, 2 * v, p);
    assert((a + (p - b)) % p == (2 * v) % p);
    lemma_mul_mod_noop_general(2 * v, g, p);
    assert((2 * v) * g == (2 * g) * v) by (nonlinear_arith);
    lemma_mul_mod_noop_general(2 * g, y * w, p);
    assert((2 * g) * (y * w) == y * (2 * (w * g))) by (nonlinear_arith);
    lemma_mul_mod_noop_general(y, 2 * (w * g), p);
    assert(y * 1 == y);
    assert((((a + (p - b % p)) % p) * g) % p == y);
}

/// What the tables of one plane must satisfy for the inverse to undo the forward.
pub open spec fn tables_ok(roots: Seq<u64>, inv_roots: Seq<u64>, half: int, p: int, n: int) -> bool {
    &&& p >= 2
    &&& 0 <= half
    &&& roots.len() == n
    &&& inv_roots.len() == n
    &&& (2 * half) % p == 1
    &&& forall|k: int| 1 <= k < n ==> (2 * ((#[trigger] roots[k]) * inv_roots[k])) % p == 1
}

/// A forward layer leaves every entry below `p`.
pub proof fn lemma_forward_layer_below(x: Seq<u64>, roots: Seq<u64>, p: int, m: int, t: int)
    requires
        2 <= p <= u64::MAX,
    ensures
        forward_layer(x, roots, p, m, t).len() == x.len(),
        below(forward_layer(x, roots, p, m, t), p),
{
    let f = forward_layer(x, roots, p, m, t);
    assert forall|j: int| 0 <= j < f.len() implies #[trigger] f[j] < p by {
        let w = roots[m + group_of(j, t)] as int;
        lemma_mod_bound(x[j] + (x[j + t] * w) % p, p);
        lemma_mod_bound(x[j - t] + (p - (x[j] * w) % p), p);
    }
}

/// An inverse layer applied to the forward layer of a plane with entries below
/// `p` gives the plane back.
pub proof fn lemma_layer_roundtrip(
    x: Seq<u64>,
    roots: Seq<u64>,
    inv_roots: Seq<u64>,
    half: int,
    p: int,
    m: int,
    t: int,
)
    requires
        tables_ok(roots, inv_roots, half, p, x.len() as int),
        p <= u64::MAX,
        below(x, p),
        t > 0,
        m > 0,
        m * (2 * t) == x.len(),
    ensures
        inverse_layer(forward_layer(x, roots, p, m, t), inv_roots, half, p, m, t) == x,
{
    let f = forward_layer(x, roots, p, m, t);
    let r = inverse_layer(f, inv_roots, half, p, m, t);
    lemma_forward_layer_below(x, roots, p, m, t);
    assert forall|j: int| 0 <= j < x.len() implies r[j] == x[j] by {
        lemma_partner(j, m, t);
        let gi = group_of(j, t);
        assert(1 <= m + gi < x.len()) by (nonlinear_arith)
            requires
                0 <= gi < m,
                m * (2 * t) == x.len(),
                t > 0,
        ;
        let w = roots[m + gi] as int;
        let g = inv_roots[m + gi] as int;
        if offset_of(j, t) < t {
            let lo = j;
            let hi = j + t;
            lemma_partner(hi, m, t);
            lemma_butterfly_roundtrip(x[lo] as int, x[hi] as int, w, g, half, p);
            lemma_mod_bound(x[lo] + (x[hi] * w) % p, p);
            lemma_mod_bound(x[lo] + (p - (x[hi] * w) % p), p);
            assert(f[lo] == (x[lo] + (x[hi] * w) % p) % p);
            assert(f[hi] == (x[lo] + (p - (x[hi] * w) % p)) % p);
        } else {
            let lo = j - t;
            let hi = j;
            lemma_partner(lo, m, t);
            lemma_butterfly_roundtrip(x[lo] as int, x[hi] as int, w, g, half, p);
            lemma_mod_bound(x[lo] + (x[hi] * w) % p, p);
            lemma_mod_bound(x[lo] + (p - (x[hi] * w) % p), p);
            assert(f[lo] == (x[lo] + (x[hi] * w) % p) % p);
            assert(f[hi] == (x[lo] + (p - (x[hi] * w) % p)) % p);
        }
    }
    assert(r =~= x);
}

/// The layers `m`, `2m`, ... are the ones of a plane of length `n`.
pub open spec fn layers_ok(m: nat, t: nat, n: nat) -> bool {
    t == 0 || (m > 0 && is_pow2(t) && m * (2 * t) == n)
}

/// The layers below a well-shaped layer are well shaped.
pub proof fn lemma_layers_step(m: nat, t: nat, n: nat)
    requires
        layers_ok(m, t, n),
        t > 0,
    ensures
        layers_ok(2 * m, t / 2, n),
        t >= 2 ==> t == 2 * (t / 2),
{
    if t >= 2 {
        assert((2 * m) * (2 * (t / 2)) == m * (2 * t)) by (nonlinear_arith)
            requires
                t == 2 * (t / 2),
        ;
    }
}

/// The forward layers keep the length and leave entries below `p`.
pub proof fn lemma_forward_from_below(x: Seq<u64>, roots: Seq<u64>, p: int, m: nat, t: nat)
    requires
        2 <= p <= u64::MAX,
        below(x, p),
    ensures
        forward_from(x, roots, p, m, t).len() == x.len(),
        below(forward_from(x, roots, p, m, t), p),
    decreases t,
{
    if t > 0 {
        lemma_forward_layer_below(x, roots, p, m as int, t as int);
        lemma_forward_from_below(
            forward_layer(x, roots, p, m as int, t as int),
            roots,
            p,
            2 * m,
            t / 2,
        );
    }
}

/// The inverse layers undo the forward layers on a plane with entries below `p`.
pub proof fn lemma_from_roundtrip(
    x: Seq<u64>,
    roots: Seq<u64>,
    inv_roots: Seq<u64>,
    half: int,
    p: int,
    m: nat,
    t: nat,
)
    requires
        tables_ok(roots, inv_roots, half, p, x.len() as int),
        p <= u64::MAX,
        below(x, p),
        layers_ok(m, t, x.len()),
    ensures
        inverse_from(forward_from(x, roots, p, m, t), inv_roots, half, p, m, t) == x,
    decreases t,
{
    if t > 0 {
        let x1 = forward_layer(x, roots, p, m as int, t as int);
        lemma_forward_layer_below(x, roots, p, m as int, t as int);
        lemma_layers_step(m, t, x.len());
        lemma_from_roundtrip(x1, roots, inv_roots, half, p, 2 * m, t / 2);
        lemma_layer_roundtrip(x, roots, inv_roots, half, p, m as int, t as int);
    }
}

/// The number of the butterfly that position `j` takes part in, counting
/// group by group.
pub open spec fn butterfly_of(j: int, t: int) -> int {
    group_of(j, t) * t + (if offset_of(j, t) < t {
        offset_of(j, t)
    } else {
        offset_of(j, t) - t
    })
}

/// The two positions of butterfly `b`, and that no other position belongs to it.
pub proof fn lemma_butterfly_positions(b: int, m: int, t: int)
    requires
        t > 0,
        m > 0,
        0 <= b < m * t,
    ensures
        ({
            let lo = (b / t) * (2 * t) + b % t;
            &&& 0 <= b / t < m
            &&& 0 <= b % t < t
            &&& 0 <= lo
            &&& lo + t < m * (2 * t)
            &&& group_of(lo, t) == b / t
            &&& offset_of(lo, t) == b % t
            &&& group_of(lo + t, t) == b / t
            &&& offset_of(lo + t, t) == b % t + t
            &&& butterfly_of(lo, t) == b
            &&& butterfly_of(lo + t, t) == b
            &&& forall|j: int|
                0 <= j < m * (2 * t) && #[trigger] butterfly_of(j, t) == b ==> j == lo || j == lo
                    + t
        }),
{
    let i = b / t;
    let o = b % t;
    let d = 2 * t;
    let lo = i * d + o;
    lemma_fundamental_div_mod(b, t);
    lemma_mod_bound(b, t);
    assert(t * i == i * t) by (nonlinear_arith);
    assert(0 <= i < m) by (nonlinear_arith)
        requires
            b == t * i + o,
            0 <= o < t,
            0 <= b < m * t,
    ;
    assert(i * d == d * i) by (nonlinear_arith);
    assert(0 <= i * d && i * d + d <= m * d) by (nonlinear_arith)
        requires
            0 <= i < m,
            d > 0,
    ;
    assert(m * d == m * (2 * t));
    lemma_fundamental_div_mod_converse(lo, d, i, o);
    lemma_fundamental_div_mod_converse(lo + t, d, i, o + t);
    assert forall|j: int| 0 <= j < m * (2 * t) && #[trigger] butterfly_of(j, t) == b implies j
        == lo || j == lo + t by {
        lemma_partner(j, m, t);
        let gj = group_of(j, t);
        let oj = if offset_of(j, t) < t {
            offset_of(j, t)
        } else {
            offset_of(j, t) - t
        };
        assert(gj * t == t * gj) by (nonlinear_arith);
        lemma_fundamental_div_mod_converse(b, t, gj, oj);
        assert(gj * (2 * t) == i * d);
    }
}

/// Applies one forward layer to a plane in place.
fn forward_layer_exec(plane: &mut [u64], roots: &Vec<u64>, p: u64, m: usize, t: usize)
    requires
        p >= 2,
        t > 0,
        m > 0,
        m * (2 * t) == old(plane)@.len(),
        roots@.len() == old(plane)@.len(),
    ensures
        final(plane)@ == forward_layer(old(plane)@, roots@, p as int, m as int, t as int),
{
    let ghost x0 = plane@;
    let len: usize = plane.len();
    assert(m * t <= m * (2 * t) && 2 * t <= m * (2 * t)) by (nonlinear_arith)
        requires
            m > 0,
            t > 0,
    ;
    let count: usize = m * t;
    let mut b: usize = 0;
    while b < count
        invariant
            p >= 2,
            t > 0,
            m > 0,
            count == m * t,
            m * (2 * t) == x0.len(),
            roots@.len() == x0.len(),
            plane@.len() == x0.len(),
            len == x0.len(),
            2 * t <= len,
            b <= count,
            forall|j: int|
                0 <= j < x0.len() ==> #[trigger] plane@[j] == (if butterfly_of(j, t as int) < b {
                    forward_at(x0, roots@, p as int, m as int, t as int, j)
                } else {
                    x0[j]
                }),
        decreases count - b,
    {
        proof {
            lemma_butterfly_positions(b as int, m as int, t as int);
        }
        let i: usize = b / t;
        let o: usize = b % t;
        assert(i * (2 * t) + (2 * t) <= m * (2 * t)) by (nonlinear_arith)
            requires
                0 <= i < m,
                t > 0,
        ;
        assert(m + i < 2 * m && 2 * m <= m * (2 * t)) by (nonlinear_arith)
            requires
                0 <= i < m,
                t > 0,
        ;
        let lo: usize = i * (2 * t) + o;
        let hi: usize = lo + t;
        let w: u64 = roots[m + i];
        let u: u64 = plane[lo];
        let v: u64 = mul_mod(plane[hi], w, p);
        let ghost prev = plane@;
        plane[lo] = add_mod(u, v, p);
        plane[hi] = add_mod(u, p - v, p);
        b += 1;
        proof {
            assert forall|j: int| 0 <= j < x0.len() implies #[trigger] plane@[j] == (
            if butterfly_of(j, t as int) < b {
                forward_at(x0, roots@, p as int, m as int, t as int, j)
            } else {
                x0[j]
            }) by {
                if j != lo && j != hi {
                    assert(plane@[j] == prev[j]);
                    assert(butterfly_of(j, t as int) != b - 1);
                }
            }
        }
    }
    proof {
        assert forall|j: int| 0 <= j < x0.len() implies plane@[j] == forward_at(
            x0,
            roots@,
            p as int,
            m as int,
            t as int,
            j,
        ) by {
            lemma_partner(j, m as int, t as int);
            assert(butterfly_of(j, t as int) < m * t) by (nonlinear_arith)
                requires
                    0 <= group_of(j, t as int) < m,
                    butterfly_of(j, t as int) < group_of(j, t as int) * t + t,
            ;
        }
        assert(plane@ =~= forward_layer(x0, roots@, p as int, m as int, t as int));
    }
}

/// Applies one inverse layer to a plane in place.
fn inverse_layer_exec(plane: &mut [u64], inv_roots: &Vec<u64>, half: u64, p: u64, m: usize, t: usize)
    requires
        p >= 2,
        t > 0,
        m > 0,
        m * (2 * t) == old(plane)@.len(),
        inv_roots@.len() == old(plane)@.len(),
    ensures
        final(plane)@ == inverse_layer(
            old(plane)@,
            inv_roots@,
            half as int,
            p as int,
            m as int,
            t as int,
        ),
{
    let ghost y0 = plane@;
    let len: usize = plane.len();
    assert(m * t <= m * (2 * t) && 2 * t <= m * (2 * t)) by (nonlinear_arith)
        requires
            m > 0,
            t > 0,
    ;
    let count: usize = m * t;
    let mut b: usize = 0;
    while b < count
        invariant
            p >= 2,
            t > 0,
            m > 0,
            count == m * t,
            m * (2 * t) == y0.len(),
            inv_roots@.len() == y0.len(),
            plane@.len() == y0.len(),
            len == y0.len(),
            2 * t <= len,
            b <= count,
            forall|j: int|
                0 <= j < y0.len() ==> #[trigger] plane@[j] == (if butterfly_of(j, t as int) < b {
                    inverse_at(y0, inv_roots@, half as int, p as int, m as int, t as int, j)
                } else {
                    y0[j]
                }),
        decreases count - b,
    {
        proof {
            lemma_butterfly_positions(b as int, m as int, t as int);
        }
        let i: usize = b / t;
        let o: usize = b % t;
        assert(i * (2 * t) + (2 * t) <= m * (2 * t)) by (nonlinear_arith)
            requires
                0 <= i < m,
                t > 0,
        ;
        assert(m + i < 2 * m && 2 * m <= m * (2 * t)) by (nonlinear_arith)
            requires
                0 <= i < m,
                t > 0,
        ;
        let lo: usize = i * (2 * t) + o;
        let hi: usize = lo + t;
        let g: u64 = inv_roots[m + i];
        let u: u64 = plane[lo];
        let v: u64 = plane[hi];
        let ghost prev = plane@;
        plane[lo] = mul_mod(add_mod(u, v, p), half, p);
        plane[hi] = mul_mod(add_mod(u, p - v % p, p), g, p);
        b += 1;
        proof {
            assert forall|j: int| 0 <= j < y0.len() implies #[trigger] plane@[j] == (
            if butterfly_of(j, t as int) < b {
                inverse_at(y0, inv_roots@, half as int, p as int, m as int, t as int, j)
            } else {
                y0[j]
            }) by {
                if j != lo && j != hi {
                    assert(plane@[j] == prev[j]);
                    assert(butterfly_of(j, t as int) != b - 1);
                }
            }
        }
    }
    proof {
        assert forall|j: int| 0 <= j < y0.len() implies plane@[j] == inverse_at(
            y0,
            inv_roots@,
            half as int,
            p as int,
            m as int,
            t as int,
            j,
        ) by {
            lemma_partner(j, m as int, t as int);
            assert(butterfly_of(j, t as int) < m * t) by (nonlinear_arith)
                requires
                    0 <= group_of(j, t as int) < m,
                    butterfly_of(j, t as int) < group_of(j, t as int) * t + t,
            ;
        }
        assert(plane@ =~= inverse_layer(
            y0,
            inv_roots@,
            half as int,
            p as int,
            m as int,
            t as int,
        ));
    }
}

/// A power of two that is at least two halves to a power of two.
pub proof fn lemma_pow2_half(n: nat)
    requires
        is_pow2(n),
    ensures
        layers_ok(1, n / 2, n),
{
}

/// Transforms plane `c` forward in place.
fn forward_plane_exec(params: &Params, c: usize, plane: &mut [u64])
    requires
        params.wf(),
        c < params.crt_count,
        old(plane)@.len() == params.poly_len,
    ensures
        final(plane)@ == forward_plane(params, c as int, old(plane)@),
        final(plane)@.len() == old(plane)@.len(),
{
    assert(params.plane_ok(c as int));
    let ghost x0 = plane@;
    let n: usize = params.poly_len;
    let p: u64 = params.moduli[c];
    let roots: &Vec<u64> = &params.forward_roots[c];
    let mut m: usize = 1;
    let mut t: usize = n / 2;
    proof {
        lemma_pow2_half(n as nat);
    }
    while t > 0
        invariant
            p >= 2,
            n == params.poly_len,
            plane@.len() == n,
            roots@.len() == n,
            roots@ == params.forward_roots@[c as int]@,
            p == params.prime(c as int),
            layers_ok(m as nat, t as nat, n as nat),
            forward_from(plane@, roots@, p as int, m as nat, t as nat) == forward_plane(
                params,
                c as int,
                x0,
            ),
        decreases t,
    {
        proof {
            lemma_layers_step(m as nat, t as nat, n as nat);
            assert(2 * m <= m * (2 * t)) by (nonlinear_arith)
                requires
                    m > 0,
                    t > 0,
            ;
        }
        forward_layer_exec(plane, roots, p, m, t);
        m = 2 * m;
        t = t / 2;
    }
}

/// Transforms plane `c` back in place.
fn inverse_plane_exec(params: &Params, c: usize, plane: &mut [u64])
    requires
        params.wf(),
        c < params.crt_count,
        old(plane)@.len() == params.poly_len,
    ensures
        final(plane)@ == inverse_plane(params, c as int, old(plane)@),
        final(plane)@.len() == old(plane)@.len(),
{
    assert(params.plane_ok(c as int));
    let ghost y0 = plane@;
    let n: usize = params.poly_len;
    let p: u64 = params.moduli[c];
    let half: u64 = params.halves[c];
    let inv_roots: &Vec<u64> = &params.inverse_roots[c];
    let mut t: usize = n / 2;
    proof {
        lemma_pow2_half(n as nat);
    }
    let mut m: usize = 1;
    // The layers run from the finest to the coarsest: find the finest first.
    while t > 1
        invariant
            n == params.poly_len,
            n >= 1,
            layers_ok(m as nat, t as nat, n as nat),
            t == 0 ==> n / 2 == 0,
        decreases t,
    {
        proof {
            lemma_layers_step(m as nat, t as nat, n as nat);
            assert(2 * m <= m * (2 * t)) by (nonlinear_arith)
                requires
                    m > 0,
                    t > 0,
            ;
        }
        m = 2 * m;
        t = t / 2;
    }
    if t == 0 {
        return ;
    }
    // Here `t == 1` and `m == n / 2`.
    let ghost mut done_m: nat = 2 * m as nat;
    let ghost mut done_t: nat = 0;
    loop
        invariant_except_break
            done_m == 2 * m,
            done_t == t / 2,
            plane@ == inverse_from(y0, inv_roots@, half as int, p as int, done_m, done_t),
        invariant
            params.wf(),
            c < params.crt_count,
            p >= 2,
            n == params.poly_len,
            is_pow2(n as nat),
            plane@.len() == n,
            inv_roots@.len() == n,
            inv_roots@ == params.inverse_roots@[c as int]@,
            p == params.prime(c as int),
            half == params.halves@[c as int],
            t > 0,
            m > 0,
            m * (2 * t) == n,
            t >= 2 ==> t == 2 * (t / 2),
        ensures
            plane@ == inverse_plane(params, c as int, y0),
        decreases m,
    {
        inverse_layer_exec(plane, inv_roots, half, p, m, t);
        proof {
            done_m = m as nat;
            done_t = t as nat;
        }
        if m == 1 {
            proof {
                assert(2 * t == n) by (nonlinear_arith)
                    requires
                        m == 1,
                        m * (2 * t) == n,
                ;
            }
            break ;
        }
        proof {
            assert(m % 2 == 0 && (m / 2) * (2 * (2 * t)) == n && 2 * t <= n) by {
                lemma_even_groups(m as nat, t as nat, n as nat);
            }
        }
        m = m / 2;
        t = 2 * t;
    }
}

/// In a plane whose length is a power of two, a layer with more than one
/// group has an even number of groups.
pub proof fn lemma_even_groups(m: nat, t: nat, n: nat)
    requires
        is_pow2(n),
        m > 1,
        t > 0,
        m * (2 * t) == n,
    ensures
        m % 2 == 0,
        (m / 2) * (2 * (2 * t)) == n,
        2 * t <= n,
    decreases n,
{
    assert(n >= 2) by (nonlinear_arith)
        requires
            m > 1,
            t > 0,
            m * (2 * t) == n,
    ;
    assert(2 * t <= n) by (nonlinear_arith)
        requires
            m > 1,
            t > 0,
            m * (2 * t) == n,
    ;
    lemma_pow2_factor(n, m, 2 * t);
    assert((m / 2) * (2 * (2 * t)) == m * (2 * t)) by (nonlinear_arith)
        requires
            m == 2 * (m / 2),
    ;
}

/// A factor of a power of two is one or even.
pub proof fn lemma_pow2_factor(n: nat, a: nat, b: nat)
    requires
        is_pow2(n),
        a * b == n,
    ensures
        a == 1 || a % 2 == 0,
    decreases n,
{
    if n == 1 {
        assert(a == 1) by (nonlinear_arith)
            requires
                a * b == 1,
        ;
    } else if a % 2 != 0 {
        // `a` is odd and `a * b` is even, so `b` is even
        let k = a / 2;
        assert(a * b == 2 * (k * b) + b) by (nonlinear_arith)
            requires
                a == 2 * k + 1,
        ;
        lemma_mod_multiples_vanish((k * b) as int, b as int, 2);
        assert(b % 2 == 0);
        assert(a * (b / 2) == n / 2) by (nonlinear_arith)
            requires
                a * b == n,
                b % 2 == 0,
                n % 2 == 0,
        ;
        lemma_pow2_factor(n / 2, a, b / 2);
    }
}

/// Forward transform of one cell in place: every plane by its own prime.
pub fn ntt_forward(params: &Params, buf: &mut [u64])
    requires
        params.wf(),
        old(buf)@.len() == params.poly_len * params.crt_count,
    ensures
        final(buf)@ == spec_ntt_forward(params, old(buf)@),
{
    let ghost x0 = buf@;
    let n: usize = params.poly_len;
    let mut c: usize = 0;
    while c < params.crt_count
        invariant
            params.wf(),
            n == params.poly_len,
            c <= params.crt_count,
            buf@.len() == x0.len(),
            x0.len() == n * params.crt_count,
            forall|k: int|
                0 <= k < x0.len() ==> #[trigger] buf@[k] == (if k / (n as int) < c {
                    spec_ntt_forward(params, x0)[k]
                } else {
                    x0[k]
                }),
        decreases params.crt_count - c,
    {
        let ghost before = buf@;
        proof {
            lemma_plane_bounds(c as int, n as int, params.crt_count as int);
        }
        let start: usize = c * n;
        let (_, rest) = buf.split_at_mut(start);
        let (plane, _) = rest.split_at_mut(n);
        let ghost plane0 = plane@;
        forward_plane_exec(params, c, plane);
        let ghost plane1 = plane@;
        c += 1;
        proof {
            assert(plane0 =~= plane_of(before, n as int, c - 1));
            assert(plane_of(before, n as int, c - 1) =~= plane_of(x0, n as int, c - 1)) by {
                assert forall|z: int| 0 <= z < n implies #[trigger] plane_of(
                    before,
                    n as int,
                    c - 1,
                )[z] == plane_of(x0, n as int, c - 1)[z] by {
                    lemma_plane_index(c - 1, n as int, z);
                    assert(before[(c - 1) * n + z] == x0[(c - 1) * n + z]);
                }
            }
            assert forall|k: int| 0 <= k < x0.len() implies #[trigger] buf@[k] == (if k / (
            n as int) < c {
                spec_ntt_forward(params, x0)[k]
            } else {
                x0[k]
            }) by {
                lemma_fundamental_div_mod(k, n as int);
                lemma_mod_bound(k, n as int);
                if start <= k < start + n {
                    lemma_plane_index(c - 1, n as int, k - start);
                    assert(buf@[k] == plane1[k - start]);
                } else if k < start {
                    assert(buf@[k] == before[k]);
                    assert(k / (n as int) < c - 1) by (nonlinear_arith)
                        requires
                            k < (c - 1) * n,
                            k == n * (k / (n as int)) + k % (n as int),
                            0 <= k % (n as int),
                            n > 0,
                    ;
                } else {
                    assert(buf@[k] == before[k]);
                    assert(k / (n as int) >= c) by (nonlinear_arith)
                        requires
                            k >= (c - 1) * n + n,
                            k == n * (k / (n as int)) + k % (n as int),
                            k % (n as int) < n,
                            n > 0,
                    ;
                }
            }
        }
    }
    proof {
        assert forall|k: int| 0 <= k < x0.len() implies buf@[k] == spec_ntt_forward(params, x0)[k] by {
            lemma_fundamental_div_mod(k, n as int);
            lemma_mod_bound(k, n as int);
            assert(k / (n as int) < params.crt_count) by (nonlinear_arith)
                requires
                    k < n * params.crt_count,
                    k == n * (k / (n as int)) + k % (n as int),
                    0 <= k % (n as int),
                    n > 0,
            ;
        }
        assert(buf@ =~= spec_ntt_forward(params, x0));
    }
}

/// Inverse transform of one cell in place: every plane by its own prime.
pub fn ntt_inverse(params: &Params, buf: &mut [u64])
    requires
        params.wf(),
        old(buf)@.len() == params.poly_len * params.crt_count,
    ensures
        final(buf)@ == spec_ntt_inverse(params, old(buf)@),
{
    let ghost x0 = buf@;
    let n: usize = params.poly_len;
    let mut c: usize = 0;
    while c < params.crt_count
        invariant
            params.wf(),
            n == params.poly_len,
            c <= params.crt_count,
            buf@.len() == x0.len(),
            x0.len() == n * params.crt_count,
            forall|k: int|
                0 <= k < x0.len() ==> #[trigger] buf@[k] == (if k / (n as int) < c {
                    spec_ntt_inverse(params, x0)[k]
                } else {
                    x0[k]
                }),
        decreases params.crt_count - c,
    {
        let ghost before = buf@;
        proof {
            lemma_plane_bounds(c as int, n as int, params.crt_count as int);
        }
        let start: usize = c * n;
        let (_, rest) = buf.split_at_mut(start);
        let (plane, _) = rest.split_at_mut(n);
        let ghost plane0 = plane@;
        inverse_plane_exec(params, c, plane);
        let ghost plane1 = plane@;
        c += 1;
        proof {
            assert(plane0 =~= plane_of(before, n as int, c - 1));
            assert(plane_of(before, n as int, c - 1) =~= plane_of(x0, n as int, c - 1)) by {
                assert forall|z: int| 0 <= z < n implies #[trigger] plane_of(
                    before,
                    n as int,
                    c - 1,
                )[z] == plane_of(x0, n as int, c - 1)[z] by {
                    lemma_plane_index(c - 1, n as int, z);
                    assert(before[(c - 1) * n + z] == x0[(c - 1) * n + z]);
                }
            }
            assert forall|k: int| 0 <= k < x0.len() implies #[trigger] buf@[k] == (if k / (
            n as int) < c {
                spec_ntt_inverse(params, x0)[k]
            } else {
                x0[k]
            }) by {
                lemma_fundamental_div_mod(k, n as int);
                lemma_mod_bound(k, n as int);
                if start <= k < start + n {
                    lemma_plane_index(c - 1, n as int, k - start);
                    assert(buf@[k] == plane1[k - start]);
                } else if k < start {
                    assert(buf@[k] == before[k]);
                    assert(k / (n as int) < c - 1) by (nonlinear_arith)
                        requires
                            k < (c - 1) * n,
                            k == n * (k / (n as int)) + k % (n as int),
                            0 <= k % (n as int),
                            n > 0,
                    ;
                } else {
                    assert(buf@[k] == before[k]);
                    assert(k / (n as int) >= c) by (nonlinear_arith)
                        requires
                            k >= (c - 1) * n + n,
                            k == n * (k / (n as int)) + k % (n as int),
                            k % (n as int) < n,
                            n > 0,
                    ;
                }
            }
        }
    }
    proof {
        assert forall|k: int| 0 <= k < x0.len() implies buf@[k] == spec_ntt_inverse(params, x0)[k] by {
            lemma_fundamental_div_mod(k, n as int);
            lemma_mod_bound(k, n as int);
            assert(k / (n as int) < params.crt_count) by (nonlinear_arith)
                requires
                    k < n * params.crt_count,
                    k == n * (k / (n as int)) + k % (n as int),
                    0 <= k % (n as int),
                    n > 0,
            ;
        }
        assert(buf@ =~= spec_ntt_inverse(params, x0));
    }
}

/// Plane `c` of a cell with `count` planes of `n` words lies inside the cell.
pub proof fn lemma_plane_bounds(c: int, n: int, count: int)
    requires
        0 <= c < count,
        n >= 0,
    ensures
        0 <= c * n,
        c * n + n <= n * count,
        c * n + n == (c + 1) * n,
{
    assert(0 <= c * n && c * n + n <= n * count && c * n + n == (c + 1) * n) by (nonlinear_arith)
        requires
            0 <= c < count,
            n >= 0,
    ;
}

/// Word `z` of plane `c` is word `c * n + z` of the cell.
pub proof fn lemma_plane_index(c: int, n: int, z: int)
    requires
        0 <= c,
        0 <= z < n,
    ensures
        (c * n + z) / n == c,
        (c * n + z) % n == z,
        c * n + z >= 0,
{
    assert(n * c == c * n) by (nonlinear_arith);
    assert(c * n >= 0) by (nonlinear_arith)
        requires
            c >= 0,
            n > 0,
    ;
    lemma_fundamental_div_mod_converse(c * n + z, n, c, z);
}

/// The tables of plane `c` of a usable parameter set are inverse to each other.
pub proof fn lemma_tables_ok(params: &Params, c: int)
    requires
        params.wf(),
        0 <= c < params.crt_count,
    ensures
        tables_ok(
            params.forward_roots@[c]@,
            params.inverse_roots@[c]@,
            params.halves@[c] as int,
            params.prime(c),
            params.poly_len as int,
        ),
        params.prime(c) <= u64::MAX,
        layers_ok(1, (params.poly_len / 2) as nat, params.poly_len as nat),
{
    assert(params.plane_ok(c));
    let roots = params.forward_roots@[c]@;
    let inv_roots = params.inverse_roots@[c]@;
    assert forall|k: int| 1 <= k < params.poly_len implies (2 * ((#[trigger] roots[k])
        * inv_roots[k])) % params.prime(c) == 1 by {
        assert(params.pair_ok(c, k));
    }
    lemma_pow2_half(params.poly_len as nat);
}

/// Plane `c` of the forward transform of a cell is the forward transform of
/// plane `c` of the cell, and has entries below the prime of the plane.
pub proof fn lemma_forward_planes(params: &Params, x: Seq<u64>, c: int)
    requires
        params.wf(),
        x.len() == params.poly_len * params.crt_count,
        0 <= c < params.crt_count,
    ensures
        plane_of(spec_ntt_forward(params, x), params.poly_len as int, c) == forward_plane(
            params,
            c,
            plane_of(x, params.poly_len as int, c),
        ),
        forward_plane(params, c, plane_of(x, params.poly_len as int, c)).len() == params.poly_len,
{
    let n = params.poly_len as int;
    lemma_plane_bounds(c, n, params.crt_count as int);
    lemma_tables_ok(params, c);
    let xc = plane_of(x, n, c);
    lemma_forward_from_len(xc, params.forward_roots@[c]@, params.prime(c), 1, (n / 2) as nat);
    let lhs = plane_of(spec_ntt_forward(params, x), n, c);
    let rhs = forward_plane(params, c, xc);
    assert forall|z: int| 0 <= z < n implies lhs[z] == rhs[z] by {
        lemma_plane_index(c, n, z);
    }
    assert(lhs =~= rhs);
}

/// The forward layers keep the length.
pub proof fn lemma_forward_from_len(x: Seq<u64>, roots: Seq<u64>, p: int, m: nat, t: nat)
    ensures
        forward_from(x, roots, p, m, t).len() == x.len(),
    decreases t,
{
    if t > 0 {
        lemma_forward_from_len(
            forward_layer(x, roots, p, m as int, t as int),
            roots,
            p,
            2 * m,
            t / 2,
        );
    }
}

/// The inverse layers keep the length.
pub proof fn lemma_inverse_from_len(
    y: Seq<u64>,
    inv_roots: Seq<u64>,
    half: int,
    p: int,
    m: nat,
    t: nat,
)
    ensures
        inverse_from(y, inv_roots, half, p, m, t).len() == y.len(),
    decreases t,
{
    if t > 0 {
        lemma_inverse_from_len(y, inv_roots, half, p, 2 * m, t / 2);
    }
}

/// The forward transform of a cell whose words are below the primes of their
/// planes has its words below them too.
pub proof fn lemma_forward_reduced(params: &Params, x: Seq<u64>)
    requires
        params.wf(),
        x.len() == params.poly_len * params.crt_count,
        cell_reduced(params, x),
    ensures
        spec_ntt_forward(params, x).len() == x.len(),
        cell_reduced(params, spec_ntt_forward(params, x)),
{
    let n = params.poly_len as int;
    let f = spec_ntt_forward(params, x);
    assert forall|k: int| 0 <= k < f.len() implies (#[trigger] f[k]) < params.prime(k / n) by {
        let c = k / n;
        lemma_cell_index(k, n, params.crt_count as int);
        lemma_tables_ok(params, c);
        lemma_plane_bounds(c, n, params.crt_count as int);
        let xc = plane_of(x, n, c);
        assert forall|z: int| 0 <= z < xc.len() implies #[trigger] xc[z] < params.prime(c) by {
            lemma_plane_index(c, n, z);
            assert(xc[z] == x[c * n + z]);
        }
        lemma_forward_from_below(
            xc,
            params.forward_roots@[c]@,
            params.prime(c),
            1,
            (n / 2) as nat,
        );
    }
}

/// Word `k` of a cell lies in plane `k / n` at place `k % n`.
pub proof fn lemma_cell_index(k: int, n: int, count: int)
    requires
        n > 0,
        0 <= k < n * count,
    ensures
        0 <= k / n < count,
        0 <= k % n < n,
        k == (k / n) * n + k % n,
{
    lemma_fundamental_div_mod(k, n);
    lemma_mod_bound(k, n);
    assert(n * (k / n) == (k / n) * n) by (nonlinear_arith);
    assert(0 <= k / n < count) by (nonlinear_arith)
        requires
            k == n * (k / n) + k % n,
            0 <= k % n < n,
            0 <= k < n * count,
    ;
}

/// The inverse transform undoes the forward transform on a cell whose words
/// are below the primes of their planes.
pub proof fn lemma_ntt_roundtrip(params: &Params, x: Seq<u64>)
    requires
        params.wf(),
        x.len() == params.poly_len * params.crt_count,
        cell_reduced(params, x),
    ensures
        spec_ntt_inverse(params, spec_ntt_forward(params, x)) == x,
{
    let n = params.poly_len as int;
    let f = spec_ntt_forward(params, x);
    let r = spec_ntt_inverse(params, f);
    assert forall|k: int| 0 <= k < x.len() implies r[k] == x[k] by {
        let c = k / n;
        lemma_cell_index(k, n, params.crt_count as int);
        lemma_tables_ok(params, c);
        lemma_plane_bounds(c, n, params.crt_count as int);
        lemma_forward_planes(params, x, c);
        let xc = plane_of(x, n, c);
        assert forall|z: int| 0 <= z < xc.len() implies #[trigger] xc[z] < params.prime(c) by {
            lemma_plane_index(c, n, z);
            assert(xc[z] == x[c * n + z]);
        }
        lemma_from_roundtrip(
            xc,
            params.forward_roots@[c]@,
            params.inverse_roots@[c]@,
            params.halves@[c] as int,
            params.prime(c),
            1,
            (n / 2) as nat,
        );
        assert(xc[k % n] == x[k]);
    }
    assert(r =~= x);
}

/// The forward transform of a cell keeps its length.
pub proof fn lemma_forward_len(params: &Params, x: Seq<u64>)
    ensures
        spec_ntt_forward(params, x).len() == x.len(),
{
}

/// The inverse of one butterfly followed by the butterfly gives the two
/// inputs back.
pub proof fn lemma_butterfly_back(u: int, v: int, w: int, g: int, h: int, p: int)
    requires
        p >= 2,
        0 <= u < p,
        0 <= v < p,
        0 <= w,
        0 <= g,
        0 <= h,
        (2 * h) % p == 1,
        (2 * (w * g)) % p == 1,
    ensures
        ({
            let a = (((u + v) % p) * h) % p;
            let b = (((u + (p - v % p)) % p) * g) % p;
            let x = (b * w) % p;
            &&& (a + x) % p == u
            &&& (a + (p - x)) % p == v
        }),
{
    let a = (((u + v) % p) * h) % p;
    let d = (u + (p - v % p)) % p;
    let b = (d * g) % p;
    let x = (b * w) % p;
    lemma_small_mod(u as nat, p as nat);
    lemma_small_mod(v as nat, p as nat);
    lemma_mod_bound((u + v) * h, p);
    lemma_mod_bound(b * w, p);
    // a is (u + v) * h modulo p
    lemma_mul_mod_noop_general(u + v, h, p);
    assert(a == ((u + v) * h) % p);
    // w * g is h modulo p
    lemma_mul_mod_noop_general(2 * (w * g), h, p);
    assert(1 * h == h);
    assert((2 * (w * g)) * h == (2 * h) * (w * g)) by (nonlinear_arith);
    lemma_mul_mod_noop_general(2 * h, w * g, p);
    assert(1 * (w * g) == w * g);
    assert((w * g) % p == h % p);
    // d is u - v modulo p
    lemma_mod_multiples_vanish(1, u - v, p);
    assert(d == (u - v) % p);
    // x is (u - v) * h modulo p
    lemma_mul_mod_noop_general(d * g, w, p);
    assert((d * g) * w == d * (w * g)) by (nonlinear_arith);
    lemma_mul_mod_noop_general(d, w * g, p);
    lemma_mul_mod_noop_general(d, h, p);
    lemma_mul_mod_noop_general(u - v, h, p);
    assert(x == ((u - v) * h) % p);
    // the sum
    lemma_add_mod_noop((u + v) * h, (u - v) * h, p);
    assert((u + v) * h + (u - v) * h == u * (2 * h)) by (nonlinear_arith);
    lemma_mul_mod_noop_general(u, 2 * h, p);
    assert(u * 1 == u);
    assert((a + x) % p == u);
    // the difference
    lemma_sub_mod_noop((u + v) * h, (u - v) * h, p);
    assert((u + v) * h - (u - v) * h == v * (2 * h)) by (nonlinear_arith);
    lemma_mul_mod_noop_general(v, 2 * h, p);
    assert(v * 1 == v);
    lemma_mod_multiples_vanish(1, a - x, p);
    assert((a + (p - x)) % p == v);
}

/// An inverse layer leaves every entry below `p`.
pub proof fn lemma_inverse_layer_below(
    y: Seq<u64>,
    inv_roots: Seq<u64>,
    half: int,
    p: int,
    m: int,
    t: int,
)
    requires
        2 <= p <= u64::MAX,
    ensures
        inverse_layer(y, inv_roots, half, p, m, t).len() == y.len(),
        below(inverse_layer(y, inv_roots, half, p, m, t), p),
{
    let f = inverse_layer(y, inv_roots, half, p, m, t);
    assert forall|j: int| 0 <= j < f.len() implies #[trigger] f[j] < p by {
        let g = inv_roots[m + group_of(j, t)] as int;
        lemma_mod_bound(((y[j] + y[j + t]) % p) * half, p);
        lemma_mod_bound(((y[j - t] + (p - (y[j] as int) % p)) % p) * g, p);
    }
}

/// A forward layer applied to the inverse layer of a plane with entries
/// below `p` gives the plane back.
pub proof fn lemma_layer_back(
    y: Seq<u64>,
    roots: Seq<u64>,
    inv_roots: Seq<u64>,
    half: int,
    p: int,
    m: int,
    t: int,
)
    requires
        tables_ok(roots, inv_roots, half, p, y.len() as int),
        p <= u64::MAX,
        below(y, p),
        t > 0,
        m > 0,
        m * (2 * t) == y.len(),
    ensures
        forward_layer(inverse_layer(y, inv_roots, half, p, m, t), roots, p, m, t) == y,
{
    let f = inverse_layer(y, inv_roots, half, p, m, t);
    let r = forward_layer(f, roots, p, m, t);
    lemma_inverse_layer_below(y, inv_roots, half, p, m, t);
    assert forall|j: int| 0 <= j < y.len() implies r[j] == y[j] by {
        lemma_partner(j, m, t);
        let gi = group_of(j, t);
        assert(1 <= m + gi < y.len()) by (nonlinear_arith)
            requires
                0 <= gi < m,
                m * (2 * t) == y.len(),
                t > 0,
        ;
        let w = roots[m + gi] as int;
        let g = inv_roots[m + gi] as int;
        let lo = if offset_of(j, t) < t {
            j
        } else {
            j - t
        };
        let hi = lo + t;
        lemma_partner(lo, m, t);
        lemma_partner(hi, m, t);
        lemma_butterfly_back(y[lo] as int, y[hi] as int, w, g, half, p);
        lemma_mod_bound(((y[lo] + y[hi]) % p) * half, p);
        lemma_mod_bound(((y[lo] + (p - (y[hi] as int) % p)) % p) * g, p);
        assert(f[lo] == (((y[lo] + y[hi]) % p) * half) % p);
        assert(f[hi] == (((y[lo] + (p - (y[hi] as int) % p)) % p) * g) % p);
    }
    assert(r =~= y);
}

/// The inverse layers keep the length and leave entries below `p`.
pub proof fn lemma_inverse_from_below(
    y: Seq<u64>,
    inv_roots: Seq<u64>,
    half: int,
    p: int,
    m: nat,
    t: nat,
)
    requires
        2 <= p <= u64::MAX,
        below(y, p),
    ensures
        inverse_from(y, inv_roots, half, p, m, t).len() == y.len(),
        below(inverse_from(y, inv_roots, half, p, m, t), p),
    decreases t,
{
    if t > 0 {
        lemma_inverse_from_below(y, inv_roots, half, p, 2 * m, t / 2);
        lemma_inverse_layer_below(
            inverse_from(y, inv_roots, half, p, 2 * m, t / 2),
            inv_roots,
            half,
            p,
            m as int,
            t as int,
        );
    }
}

/// The forward layers undo the inverse layers on a plane with entries below `p`.
pub proof fn lemma_from_back(
    y: Seq<u64>,
    roots: Seq<u64>,
    inv_roots: Seq<u64>,
    half: int,
    p: int,
    m: nat,
    t: nat,
)
    requires
        tables_ok(roots, inv_roots, half, p, y.len() as int),
        p <= u64::MAX,
        below(y, p),
        layers_ok(m, t, y.len()),
    ensures
        forward_from(inverse_from(y, inv_roots, half, p, m, t), roots, p, m, t) == y,
    decreases t,
{
    if t > 0 {
        let z = inverse_from(y, inv_roots, half, p, 2 * m, t / 2);
        lemma_inverse_from_below(y, inv_roots, half, p, 2 * m, t / 2);
        lemma_layers_step(m, t, y.len());
        lemma_layer_back(z, roots, inv_roots, half, p, m as int, t as int);
        lemma_from_back(y, roots, inv_roots, half, p, 2 * m, t / 2);
    }
}

/// Plane `c` of the inverse transform of a cell is the inverse transform of
/// plane `c` of the cell.
pub proof fn lemma_inverse_planes(params: &Params, y: Seq<u64>, c: int)
    requires
        params.wf(),
        y.len() == params.poly_len * params.crt_count,
        0 <= c < params.crt_count,
    ensures
        plane_of(spec_ntt_inverse(params, y), params.poly_len as int, c) == inverse_plane(
            params,
            c,
            plane_of(y, params.poly_len as int, c),
        ),
        inverse_plane(params, c, plane_of(y, params.poly_len as int, c)).len() == params.poly_len,
{
    let n = params.poly_len as int;
    lemma_plane_bounds(c, n, params.crt_count as int);
    let yc = plane_of(y, n, c);
    lemma_inverse_from_len(
        yc,
        params.inverse_roots@[c]@,
        params.halves@[c] as int,
        params.prime(c),
        1,
        (n / 2) as nat,
    );
    let lhs = plane_of(spec_ntt_inverse(params, y), n, c);
    let rhs = inverse_plane(params, c, yc);
    assert forall|z: int| 0 <= z < n implies lhs[z] == rhs[z] by {
        lemma_plane_index(c, n, z);
    }
    assert(lhs =~= rhs);
}

/// The inverse transform of a cell whose words are below the primes of their
/// planes has its words below them too.
pub proof fn lemma_inverse_reduced(params: &Params, y: Seq<u64>)
    requires
        params.wf(),
        y.len() == params.poly_len * params.crt_count,
        cell_reduced(params, y),
    ensures
        spec_ntt_inverse(params, y).len() == y.len(),
        cell_reduced(params, spec_ntt_inverse(params, y)),
{
    let n = params.poly_len as int;
    let f = spec_ntt_inverse(params, y);
    assert forall|k: int| 0 <= k < f.len() implies (#[trigger] f[k]) < params.prime(k / n) by {
        let c = k / n;
        lemma_cell_index(k, n, params.crt_count as int);
        lemma_tables_ok(params, c);
        lemma_plane_bounds(c, n, params.crt_count as int);
        let yc = plane_of(y, n, c);
        assert forall|z: int| 0 <= z < yc.len() implies #[trigger] yc[z] < params.prime(c) by {
            lemma_plane_index(c, n, z);
            assert(yc[z] == y[c * n + z]);
        }
        lemma_inverse_from_below(
            yc,
            params.inverse_roots@[c]@,
            params.halves@[c] as int,
            params.prime(c),
            1,
            (n / 2) as nat,
        );
    }
}

/// The forward transform undoes the inverse transform on a cell whose words
/// are below the primes of their planes.
pub proof fn lemma_ntt_roundtrip_back(params: &Params, y: Seq<u64>)
    requires
        params.wf(),
        y.len() == params.poly_len * params.crt_count,
        cell_reduced(params, y),
    ensures
        spec_ntt_forward(params, spec_ntt_inverse(params, y)) == y,
{
    let n = params.poly_len as int;
    let f = spec_ntt_inverse(params, y);
    let r = spec_ntt_forward(params, f);
    assert forall|k: int| 0 <= k < y.len() implies r[k] == y[k] by {
        let c = k / n;
        lemma_cell_index(k, n, params.crt_count as int);
        lemma_tables_ok(params, c);
        lemma_plane_bounds(c, n, params.crt_count as int);
        lemma_inverse_planes(params, y, c);
        let yc = plane_of(y, n, c);
        assert forall|z: int| 0 <= z < yc.len() implies #[trigger] yc[z] < params.prime(c) by {
            lemma_plane_index(c, n, z);
            assert(yc[z] == y[c * n + z]);
        }
        lemma_from_back(
            yc,
            params.forward_roots@[c]@,
            params.inverse_roots@[c]@,
            params.halves@[c] as int,
            params.prime(c),
            1,
            (n / 2) as nat,
        );
        assert(yc[k % n] == y[k]);
    }
    assert(r =~= y);
}

} // verus!
