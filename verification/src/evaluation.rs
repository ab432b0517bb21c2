//! What the forward transform computes when the butterfly multipliers are
//! square roots of each other: the values of the polynomial at roots of
//! `x^n + 1`.

use vstd::prelude::*;
use vstd::arithmetic::div_mod::*;
use vstd::arithmetic::power::*;
use crate::params::Params;
use crate::ntt::{
    forward_at, forward_from, forward_layer, group_of, layers_ok, lemma_forward_from_len,
    lemma_layers_step, lemma_partner, offset_of,
};

verus! {

/// `c[0] + c[1] * rho + ... + c[k - 1] * rho^(k - 1)`.
pub open spec fn eval_upto(c: Seq<int>, k: nat, rho: int) -> int
    decreases k,
{
    if k == 0 {
        0
    } else {
        eval_upto(c, (k - 1) as nat, rho) + c[k - 1] * pow(rho, (k - 1) as nat)
    }
}

/// The value at `rho` of the polynomial with the coefficients `c`.
pub open spec fn eval(c: Seq<int>, rho: int) -> int {
    eval_upto(c, c.len(), rho)
}

/// The `len` words of `x` from `start` on, as integers.
pub open spec fn block(x: Seq<u64>, start: int, len: nat) -> Seq<int> {
    Seq::new(len, |i: int| x[start + i] as int)
}

/// The multipliers of one plane are square roots of each other: the first
/// squares to `-1`, and multipliers `2k` and `2k + 1` square to multiplier
/// `k` and to its negative.
pub open spec fn squares_ok(roots: Seq<u64>, p: int, n: int) -> bool {
    &&& n >= 2 ==> (roots[1] * roots[1] + 1) % p == 0
    &&& forall|k: int| 1 <= k && 2 * k + 1 < n ==> #[trigger] square_pair_ok(roots, p, k)
}

/// Multipliers `2k` and `2k + 1` square to multiplier `k` and to its negative.
pub open spec fn square_pair_ok(roots: Seq<u64>, p: int, k: int) -> bool {
    &&& (roots[2 * k] * roots[2 * k] - roots[k]) % p == 0
    &&& (roots[2 * k + 1] * roots[2 * k + 1] + roots[k]) % p == 0
}

/// The point at which entry `j` of the transformed plane is the value of the
/// polynomial.
pub open spec fn leaf_point(roots: Seq<u64>, n: int, j: int) -> int {
    if n < 2 {
        -1
    } else if j % 2 == 0 {
        roots[n / 2 + j / 2] as int
    } else {
        -(roots[n / 2 + j / 2] as int)
    }
}

/// The multiplier that the butterfly of position `j` applies in the layer
/// with `m` groups, with the sign of the half that `j` lies in.
pub open spec fn level_value(roots: Seq<u64>, m: int, t: int, j: int) -> int {
    if offset_of(j, t) < t {
        roots[m + group_of(j, t)] as int
    } else {
        -(roots[m + group_of(j, t)] as int)
    }
}

/// Sequences that agree on the first `k` entries have the same value there.
pub proof fn lemma_eval_same(c: Seq<int>, d: Seq<int>, k: nat, rho: int)
    requires
        forall|i: int| 0 <= i < k ==> c[i] == d[i],
    ensures
        eval_upto(c, k, rho) == eval_upto(d, k, rho),
    decreases k,
{
    if k > 0 {
        lemma_eval_same(c, d, (k - 1) as nat, rho);
    }
}

/// If each entry of `y` is `u + coef * v` modulo `p`, so is the value.
pub proof fn lemma_eval_combine(
    u: Seq<int>,
    v: Seq<int>,
    y: Seq<int>,
    k: nat,
    coef: int,
    rho: int,
    p: int,
)
    requires
        p > 0,
        forall|i: int| 0 <= i < k ==> (#[trigger] y[i]) % p == (u[i] + coef * v[i]) % p,
    ensures
        eval_upto(y, k, rho) % p == (eval_upto(u, k, rho) + coef * eval_upto(v, k, rho)) % p,
    decreases k,
{
    if k == 0 {
        assert(coef * 0 == 0);
    } else {
        lemma_eval_combine(u, v, y, (k - 1) as nat, coef, rho, p);
        let i = k - 1;
        let pw = pow(rho, i as nat);
        let ey = eval_upto(y, i as nat, rho);
        let eu = eval_upto(u, i as nat, rho);
        let ev = eval_upto(v, i as nat, rho);
        assert(y[i] % p == (u[i] + coef * v[i]) % p);
        lemma_mul_mod_noop_general(y[i], pw, p);
        lemma_mul_mod_noop_general(u[i] + coef * v[i], pw, p);
        assert((y[i] * pw) % p == ((u[i] + coef * v[i]) * pw) % p);
        lemma_add_mod_noop(ey, y[i] * pw, p);
        lemma_add_mod_noop(eu + coef * ev, (u[i] + coef * v[i]) * pw, p);
        assert(eu + coef * ev + (u[i] + coef * v[i]) * pw == (eu + u[i] * pw) + coef * (ev + v[i]
            * pw)) by (nonlinear_arith);
    }
}

/// The value of a block of `2t` entries is that of its lower half plus
/// `rho^t` times that of its upper half.
pub proof fn lemma_eval_split(c: Seq<int>, lo: Seq<int>, hi: Seq<int>, t: nat, k: nat, rho: int)
    requires
        k <= t,
        forall|i: int| 0 <= i < t ==> lo[i] == c[i],
        forall|i: int| 0 <= i < t ==> hi[i] == c[t + i],
    ensures
        eval_upto(c, t + k, rho) == eval_upto(lo, t, rho) + pow(rho, t) * eval_upto(hi, k, rho),
    decreases k,
{
    if k == 0 {
        lemma_eval_same(c, lo, t, rho);
        assert(pow(rho, t) * 0 == 0);
    } else {
        lemma_eval_split(c, lo, hi, t, (k - 1) as nat, rho);
        let i = (k - 1) as nat;
        lemma_pow_adds(rho, t, i);
        let pt = pow(rho, t);
        let pi = pow(rho, i);
        let eh = eval_upto(hi, i, rho);
        let top = c[(t + i) as int];
        assert(hi[i as int] == top);
        assert(pt * eh + top * (pt * pi) == pt * (eh + top * pi)) by (nonlinear_arith);
    }
}

/// The relation between the group and half of a position in one layer and in
/// the next finer one.
pub proof fn lemma_finer_group(j: int, t: int)
    requires
        t >= 2,
        t % 2 == 0,
        j >= 0,
    ensures
        group_of(j, t / 2) == 2 * group_of(j, t) + (if offset_of(j, t) < t {
            0int
        } else {
            1int
        }),
        offset_of(j, t / 2) == (if offset_of(j, t) < t {
            offset_of(j, t)
        } else {
            offset_of(j, t) - t
        }),
{
    let g = group_of(j, t);
    let o = offset_of(j, t);
    lemma_fundamental_div_mod(j, 2 * t);
    lemma_mod_bound(j, 2 * t);
    assert(2 * (t / 2) == t);
    if o < t {
        assert(j == t * (2 * g) + o) by (nonlinear_arith)
            requires
                j == (2 * t) * g + o,
        ;
        lemma_fundamental_div_mod_converse(j, t, 2 * g, o);
    } else {
        assert(j == t * (2 * g + 1) + (o - t)) by (nonlinear_arith)
            requires
                j == (2 * t) * g + o,
        ;
        lemma_fundamental_div_mod_converse(j, t, 2 * g + 1, o - t);
    }
}

/// The point of entry `j`, raised to the power `t`, is the multiplier of
/// the butterfly of `j` in the layer with groups of `2t`, with the sign of
/// the half that `j` lies in.
pub proof fn lemma_leaf_power(roots: Seq<u64>, p: int, n: nat, m: nat, t: nat, j: int)
    requires
        p > 0,
        roots.len() == n,
        squares_ok(roots, p, n as int),
        layers_ok(m, t, n),
        t >= 1,
        0 <= j < n,
    ensures
        pow(leaf_point(roots, n as int, j), t) % p == level_value(roots, m as int, t as int, j)
            % p,
    decreases t,
{
    let rho = leaf_point(roots, n as int, j);
    if t == 1 {
        lemma_pow1(rho);
        assert(m * 2 == n) by (nonlinear_arith)
            requires
                m * (2 * t) == n,
                t == 1,
        ;
    } else {
        let h = (t / 2) as nat;
        lemma_layers_step(m, t, n);
        lemma_leaf_power(roots, p, n, 2 * m, h, j);
        lemma_finer_group(j, t as int);
        lemma_partner(j, m as int, t as int);
        let g = group_of(j, t as int);
        let k = m + g;
        let fine = level_value(roots, 2 * m as int, h as int, j);
        let coarse = level_value(roots, m as int, t as int, j);
        assert(2 * k + 1 < n) by (nonlinear_arith)
            requires
                k == m + g,
                0 <= g < m,
                m * (2 * t) == n,
                t >= 2,
        ;
        assert(square_pair_ok(roots, p, k));
        // rho^t is the square of rho^(t/2)
        lemma_pow_adds(rho, h, h);
        let ph = pow(rho, h);
        lemma_mul_mod_noop(ph, ph, p);
        lemma_mul_mod_noop(fine, fine, p);
        assert((ph * ph) % p == (fine * fine) % p);
        // and the square of the finer multiplier is the coarser one
        if offset_of(j, t as int) < t {
            let r = roots[2 * k] as int;
            assert(fine == r || fine == -r);
            assert(fine * fine == r * r) by (nonlinear_arith)
                requires
                    fine == r || fine == -r,
            ;
            lemma_mod_equivalence(r * r, coarse, p);
        } else {
            let r = roots[2 * k + 1] as int;
            assert(fine == r || fine == -r);
            assert(fine * fine == r * r) by (nonlinear_arith)
                requires
                    fine == r || fine == -r,
            ;
            assert(r * r - coarse == r * r + roots[k]);
            lemma_mod_equivalence(r * r, coarse, p);
        }
    }
}

/// The size of the blocks that the layers from `(m, t)` on start from.
pub open spec fn block_size(t: nat) -> nat {
    if t == 0 {
        1
    } else {
        2 * t
    }
}

/// Entry `j` after the layers from `(m, t)` on is, modulo `p`, the value at
/// the point of `j` of the block that `j` lies in before them.
pub proof fn lemma_layers_evaluate(
    x: Seq<u64>,
    roots: Seq<u64>,
    p: int,
    n: nat,
    m: nat,
    t: nat,
    j: int,
)
    requires
        2 <= p <= u64::MAX,
        x.len() == n,
        roots.len() == n,
        squares_ok(roots, p, n as int),
        layers_ok(m, t, n),
        0 <= j < n,
    ensures
        (forward_from(x, roots, p, m, t)[j] as int) % p == eval(
            block(x, (j / (block_size(t) as int)) * block_size(t), block_size(t)),
            leaf_point(roots, n as int, j),
        ) % p,
    decreases t,
{
    let rho = leaf_point(roots, n as int, j);
    if t == 0 {
        let b = block(x, j, 1);
        assert(j / 1 == j);
        assert(j * 1 == j);
        lemma_pow0(rho);
        assert(eval_upto(b, 0, rho) == 0);
        assert(eval_upto(b, 1, rho) == eval_upto(b, 0, rho) + b[0] * pow(rho, 0));
        assert(b[0] * 1 == b[0]);
    } else {
        let y = forward_layer(x, roots, p, m as int, t as int);
        let h = (t / 2) as nat;
        lemma_layers_step(m, t, n);
        lemma_layers_evaluate(y, roots, p, n, 2 * m, h, j);
        assert(block_size(h) == t);
        lemma_partner(j, m as int, t as int);
        let g = group_of(j, t as int);
        let o = offset_of(j, t as int);
        let start = g * (2 * t);
        assert(j / ((2 * t) as int) == g);
        // where the finer block of j starts
        let fine_start = (j / (t as int)) * t;
        assert(fine_start == (if o < t {
            start
        } else {
            start + t
        })) by {
            if t >= 2 {
                lemma_finer_group(j, t as int);
                assert(j / (t as int) == group_of(j, h as int));
                assert((2 * g) * t == g * (2 * t) && (2 * g + 1) * t == g * (2 * t) + t)
                    by (nonlinear_arith);
            } else {
                assert(j / 1 == j);
                assert(j * 1 == j);
                assert(j == g * 2 + o);
            }
        }
        let whole = block(x, start, 2 * t);
        let lo = block(x, start, t);
        let hi = block(x, start + t, t);
        let fine = block(y, fine_start, t);
        lemma_eval_split(whole, lo, hi, t, t, rho);
        let w = roots[m + g] as int;
        let coef = level_value(roots, m as int, t as int, j);
        assert(0 <= start && start + 2 * t <= n) by (nonlinear_arith)
            requires
                0 <= g < m,
                start == g * (2 * t),
                m * (2 * t) == n,
                t >= 1,
        ;
        assert forall|i: int| 0 <= i < t implies (#[trigger] fine[i]) % p == (lo[i] + coef
            * hi[i]) % p by {
            let a = x[start + i] as int;
            let bb = x[start + t + i] as int;
            assert((2 * t) * g == g * (2 * t)) by (nonlinear_arith);
            lemma_fundamental_div_mod_converse(start + i, 2 * (t as int), g, i);
            lemma_fundamental_div_mod_converse(start + t + i, 2 * (t as int), g, t + i);
            lemma_mod_bound(bb * w, p);
            if o < t {
                assert(fine[i] == y[start + i]);
                assert(y[start + i] == forward_at(x, roots, p, m as int, t as int, start + i));
                lemma_mod_bound(a + (bb * w) % p, p);
                assert(fine[i] == (a + (bb * w) % p) % p);
                lemma_mod_twice(a + (bb * w) % p, p);
                lemma_add_mod_noop(a, bb * w, p);
                lemma_add_mod_noop(a, (bb * w) % p, p);
                lemma_mod_twice(bb * w, p);
                assert(coef * bb == bb * w) by (nonlinear_arith)
                    requires
                        coef == w,
                ;
            } else {
                assert(fine[i] == y[start + t + i]);
                assert(y[start + t + i] == forward_at(
                    x,
                    roots,
                    p,
                    m as int,
                    t as int,
                    start + t + i,
                ));
                lemma_mod_bound(a + (p - (bb * w) % p), p);
                assert(fine[i] == (a + (p - (bb * w) % p)) % p);
                lemma_mod_twice(a + (p - (bb * w) % p), p);
                lemma_mod_multiples_vanish(1, a - (bb * w) % p, p);
                lemma_sub_mod_noop(a, bb * w, p);
                lemma_sub_mod_noop(a, (bb * w) % p, p);
                lemma_mod_twice(bb * w, p);
                assert(a + coef * bb == a - bb * w) by (nonlinear_arith)
                    requires
                        coef == -w,
                ;
            }
        }
        lemma_eval_combine(lo, hi, fine, t, coef, rho, p);
        // rho^t is the multiplier, with the sign of the half
        lemma_leaf_power(roots, p, n, m, t, j);
        let pt = pow(rho, t);
        let eh = eval_upto(hi, t, rho);
        let el = eval_upto(lo, t, rho);
        lemma_mul_mod_noop_general(pt, eh, p);
        lemma_mul_mod_noop_general(coef, eh, p);
        assert((pt * eh) % p == (coef * eh) % p);
        lemma_add_mod_noop(el, pt * eh, p);
        lemma_add_mod_noop(el, coef * eh, p);
        assert(eval(whole, rho) == el + pt * eh);
        assert(eval(fine, rho) % p == (el + coef * eh) % p);
    }
}

} // verus!
