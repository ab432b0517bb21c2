//! The product in `Z_q[x]/(x^n + 1)`, and the proof that multiplying
//! transformed cells word by word computes it.

use vstd::prelude::*;
use vstd::arithmetic::div_mod::*;
use vstd::arithmetic::power::*;
use crate::params::{Params, lemma_product_divides};
use crate::ntt::{
    cell_reduced, forward_plane, lemma_cell_index, lemma_forward_planes, lemma_plane_bounds,
    lemma_plane_index, lemma_tables_ok, plane_of, spec_ntt_forward,
};
use crate::poly::{Grid, cell_words, lemma_cell_in_grid, lemma_word_modulus, word_modulus};
use crate::matrix_ops::{dot_word, product_cell};
use crate::arith::{mul_mod, add_mod};
use crate::cell_ops::{from_ntt_cell, lemma_spread_reduced, mul_cell, spread_cell, to_ntt_cell};
use crate::evaluation::{
    block, block_size, eval, eval_upto, leaf_point, lemma_eval_combine, lemma_eval_same,
    lemma_layers_evaluate, lemma_leaf_power, level_value, squares_ok,
};
use crate::laws::{lemma_round_trip_cell, reduce_raw};

verus! {

/// The words of `a` as integers.
pub open spec fn ints(a: Seq<u64>) -> Seq<int> {
    Seq::new(a.len(), |i: int| a[i] as int)
}

/// The coefficients of `x^i` times the polynomial with the coefficients
/// `b`, modulo `x^n + 1`: the coefficients move up by `i` places, and those
/// that pass the top come back at the bottom with the opposite sign.
pub open spec fn shifted(b: Seq<int>, i: int) -> Seq<int> {
    Seq::new(
        b.len(),
        |k: int|
            if k >= i {
                b[k - i]
            } else {
                -b[b.len() + k - i]
            },
    )
}

/// Coefficient `k` of the product of the first `m` terms of `a` with `b`,
/// modulo `x^n + 1`.
pub open spec fn conv_upto(a: Seq<int>, b: Seq<int>, k: int, m: nat) -> int
    decreases m,
{
    if m == 0 {
        0
    } else {
        conv_upto(a, b, k, (m - 1) as nat) + a[m - 1] * shifted(b, m - 1)[k]
    }
}

/// The product of the first `m` terms of `a` with `b`, modulo `x^n + 1`.
pub open spec fn conv_seq(a: Seq<int>, b: Seq<int>, m: nat) -> Seq<int> {
    Seq::new(b.len(), |k: int| conv_upto(a, b, k, m))
}

/// The product of two ring elements given by their coefficients: the
/// product of the polynomials modulo `x^n + 1`, each coefficient modulo the
/// full modulus.
pub open spec fn ring_product(params: &Params, a: Seq<u64>, b: Seq<u64>) -> Seq<u64> {
    Seq::new(
        params.poly_len as nat,
        |k: int|
            (conv_upto(ints(a), ints(b), k, params.poly_len as nat) % (params.modulus as int)) as u64,
    )
}

/// The butterfly multipliers of every plane are square roots of each other,
/// so that the transform takes the values of a polynomial at roots of
/// `x^n + 1`.
pub open spec fn negacyclic(params: &Params) -> bool {
    forall|c: int|
        0 <= c < params.crt_count ==> #[trigger] squares_ok(
            params.forward_roots@[c]@,
            params.prime(c),
            params.poly_len as int,
        )
}

/// The value of `x` times a polynomial modulo `x^n + 1` is `rho` times the
/// value of the polynomial, at a point `rho` with `rho^n = -1`.
pub proof fn lemma_eval_shift_once(c: Seq<int>, d: Seq<int>, rho: int, p: int)
    requires
        p > 0,
        c.len() >= 1,
        d.len() == c.len(),
        d[0] == -c[c.len() - 1],
        forall|k: int| 1 <= k < c.len() ==> d[k] == c[k - 1],
        (pow(rho, c.len()) + 1) % p == 0,
    ensures
        eval(d, rho) % p == (rho * eval(c, rho)) % p,
{
    let n = c.len();
    let last = c[n - 1];
    lemma_eval_shift_prefix(c, d, rho, n);
    let head = eval_upto(c, (n - 1) as nat, rho);
    let pw = pow(rho, (n - 1) as nat);
    lemma_pow_adds(rho, 1, (n - 1) as nat);
    lemma_pow1(rho);
    assert(pow(rho, n) == rho * pw);
    // rho * eval(c) - eval(d) == last * (rho^n + 1)
    assert(rho * (head + last * pw) - (-last + rho * head) == (rho * pw + 1) * last)
        by (nonlinear_arith);
    lemma_mul_mod_noop_general(pow(rho, n) + 1, last, p);
    assert(0 * last == 0);
    lemma_small_mod(0, p as nat);
    lemma_mod_equivalence(rho * eval(c, rho), eval(d, rho), p);
}

/// The first `k` terms of `x` times a polynomial modulo `x^n + 1`.
pub proof fn lemma_eval_shift_prefix(c: Seq<int>, d: Seq<int>, rho: int, k: nat)
    requires
        1 <= k <= c.len(),
        d.len() == c.len(),
        d[0] == -c[c.len() - 1],
        forall|i: int| 1 <= i < c.len() ==> d[i] == c[i - 1],
    ensures
        eval_upto(d, k, rho) == -c[c.len() - 1] + rho * eval_upto(c, (k - 1) as nat, rho),
    decreases k,
{
    if k == 1 {
        lemma_pow0(rho);
        assert(eval_upto(d, 0, rho) == 0);
        assert(eval_upto(c, 0, rho) == 0);
        assert(rho * 0 == 0);
        assert(d[0] * 1 == d[0]);
    } else {
        lemma_eval_shift_prefix(c, d, rho, (k - 1) as nat);
        let i = (k - 2) as nat;
        lemma_pow_adds(rho, 1, i);
        lemma_pow1(rho);
        let pi = pow(rho, i);
        let e = eval_upto(c, i, rho);
        let ci = c[i as int];
        assert(d[k - 1] == ci);
        assert(pow(rho, (k - 1) as nat) == rho * pi);
        assert(rho * e + ci * (rho * pi) == rho * (e + ci * pi)) by (nonlinear_arith);
    }
}

/// The value of `x^i` times a polynomial modulo `x^n + 1` is `rho^i` times
/// the value of the polynomial, at a point `rho` with `rho^n = -1`.
pub proof fn lemma_eval_shifted(b: Seq<int>, i: nat, rho: int, p: int)
    requires
        p > 0,
        i < b.len(),
        (pow(rho, b.len()) + 1) % p == 0,
    ensures
        eval(shifted(b, i as int), rho) % p == (pow(rho, i) * eval(b, rho)) % p,
    decreases i,
{
    if i == 0 {
        lemma_eval_same(shifted(b, 0), b, b.len(), rho);
        lemma_pow0(rho);
        assert(1 * eval(b, rho) == eval(b, rho));
    } else {
        let c = shifted(b, i - 1);
        let d = shifted(b, i as int);
        lemma_eval_shifted(b, (i - 1) as nat, rho, p);
        lemma_eval_shift_once(c, d, rho, p);
        let pw = pow(rho, (i - 1) as nat);
        lemma_pow_adds(rho, 1, (i - 1) as nat);
        lemma_pow1(rho);
        lemma_mul_mod_noop_general(rho, eval(c, rho), p);
        lemma_mul_mod_noop_general(rho, pw * eval(b, rho), p);
        assert(rho * (pw * eval(b, rho)) == (rho * pw) * eval(b, rho)) by (nonlinear_arith);
    }
}

/// The value of the product of the first `m` terms of `a` with `b` is the
/// product of the values, at a point `rho` with `rho^n = -1`.
pub proof fn lemma_eval_conv(a: Seq<int>, b: Seq<int>, m: nat, rho: int, p: int)
    requires
        p > 0,
        m <= b.len(),
        (pow(rho, b.len()) + 1) % p == 0,
    ensures
        eval(conv_seq(a, b, m), rho) % p == (eval_upto(a, m, rho) * eval(b, rho)) % p,
    decreases m,
{
    let n = b.len();
    let big = eval(b, rho);
    if m == 0 {
        lemma_eval_zero(conv_seq(a, b, 0), n, rho);
        assert(0 * big == 0);
    } else {
        let i = (m - 1) as nat;
        let y = conv_seq(a, b, m);
        let u = conv_seq(a, b, i);
        let v = shifted(b, i as int);
        let coef = a[i as int];
        lemma_eval_conv(a, b, i, rho, p);
        lemma_eval_combine(u, v, y, n, coef, rho, p);
        lemma_eval_shifted(b, i, rho, p);
        let pw = pow(rho, i);
        let head = eval_upto(a, i, rho);
        // eval(y) = eval(u) + coef * eval(v), with eval(u) = head * big and eval(v) = pw * big
        lemma_mul_mod_noop_general(coef, eval(v, rho), p);
        lemma_mul_mod_noop_general(coef, pw * big, p);
        lemma_add_mod_noop(eval(u, rho), coef * eval(v, rho), p);
        lemma_add_mod_noop(head * big, coef * (pw * big), p);
        assert(head * big + coef * (pw * big) == (head + coef * pw) * big) by (nonlinear_arith);
    }
}

/// A polynomial without terms has the value zero.
pub proof fn lemma_eval_zero(c: Seq<int>, k: nat, rho: int)
    requires
        forall|i: int| 0 <= i < k ==> c[i] == 0,
    ensures
        eval_upto(c, k, rho) == 0,
    decreases k,
{
    if k > 0 {
        lemma_eval_zero(c, (k - 1) as nat, rho);
        assert(0 * pow(rho, (k - 1) as nat) == 0);
    }
}

/// The point of every entry of a transformed plane is a root of `x^n + 1`.
pub proof fn lemma_leaf_is_root(roots: Seq<u64>, p: int, n: nat, j: int)
    requires
        p > 0,
        roots.len() == n,
        crate::params::is_pow2(n),
        squares_ok(roots, p, n as int),
        0 <= j < n,
    ensures
        (pow(leaf_point(roots, n as int, j), n) + 1) % p == 0,
{
    let rho = leaf_point(roots, n as int, j);
    if n < 2 {
        lemma_pow1(rho);
        lemma_small_mod(0, p as nat);
    } else {
        let h = (n / 2) as nat;
        crate::ntt::lemma_pow2_half(n);
        lemma_leaf_power(roots, p, n, 1, h, j);
        let half = pow(rho, h);
        let lv = level_value(roots, 1, h as int, j);
        lemma_pow_adds(rho, h, h);
        lemma_mul_mod_noop(half, half, p);
        lemma_mul_mod_noop(lv, lv, p);
        crate::ntt::lemma_partner(j, 1, h as int);
        let r = roots[1] as int;
        assert(lv == r || lv == -r);
        assert(lv * lv == r * r) by (nonlinear_arith)
            requires
                lv == r || lv == -r,
        ;
        lemma_add_mod_noop(half * half, 1, p);
        lemma_add_mod_noop(r * r, 1, p);
    }
}

/// Word `c * n + j` of the transformed form of a cell is, modulo the prime
/// of plane `c`, the value of the polynomial at the point of `j`.
pub proof fn lemma_transform_evaluates(params: &Params, raw: Seq<u64>, c: int, j: int)
    requires
        params.wf(),
        negacyclic(params),
        raw.len() == params.poly_len,
        0 <= c < params.crt_count,
        0 <= j < params.poly_len,
    ensures
        to_ntt_cell(params, raw)[c * params.poly_len + j] == eval(
            ints(raw),
            leaf_point(params.forward_roots@[c]@, params.poly_len as int, j),
        ) % params.prime(c),
{
    let n = params.poly_len as nat;
    let p = params.prime(c);
    let roots = params.forward_roots@[c]@;
    let rho = leaf_point(roots, n as int, j);
    let s = spread_cell(params, raw);
    let plane = plane_of(s, n as int, c);
    lemma_spread_reduced(params, raw);
    lemma_tables_ok(params, c);
    lemma_plane_bounds(c, n as int, params.crt_count as int);
    lemma_plane_index(c, n as int, j);
    lemma_forward_planes(params, s, c);
    crate::ntt::lemma_forward_reduced(params, s);
    let out = to_ntt_cell(params, raw);
    assert(out[c * n + j] == forward_plane(params, c, plane)[j]);
    assert(squares_ok(roots, p, n as int));
    lemma_layers_evaluate(plane, roots, p, n, 1, (n / 2) as nat, j);
    assert(block_size((n / 2) as nat) == n);
    lemma_small_mod(j as nat, n);
    lemma_basic_div(j, n as int);
    let first = j / (n as int);
    assert(first == 0);
    assert(first * n == 0) by (nonlinear_arith)
        requires
            first == 0,
    ;
    let blk = block(plane, 0, n);
    let want = ints(raw);
    assert forall|i: int| 0 <= i < n implies (#[trigger] blk[i]) % p == (want[i] + 0 * want[i])
        % p by {
        lemma_plane_index(c, n as int, i);
        assert(plane[i] == s[c * n + i]);
        assert(word_modulus(params, true, c * n + i) == p);
        lemma_small_mod(i as nat, n);
        lemma_mod_twice(raw[i] as int, p);
        assert(0 * want[i] == 0);
    }
    lemma_eval_combine(want, want, blk, n, 0, rho, p);
    assert(0 * eval_upto(want, n, rho) == 0);
    assert(out[c * n + j] < p);
    lemma_small_mod(out[c * n + j] as nat, p as nat);
}

/// Multiplying transformed cells word by word is multiplying ring elements:
/// the coefficients of the word by word product of the transformed forms of
/// `a` and `b` are those of the product of `a` and `b` in the ring.
pub proof fn lemma_multiply_is_ring_product(params: &Params, a: Seq<u64>, b: Seq<u64>)
    requires
        params.wf(),
        negacyclic(params),
        a.len() == params.poly_len,
        b.len() == params.poly_len,
    ensures
        mul_cell(params, to_ntt_cell(params, a), to_ntt_cell(params, b)) == to_ntt_cell(
            params,
            ring_product(params, a, b),
        ),
        from_ntt_cell(
            params,
            mul_cell(params, to_ntt_cell(params, a), to_ntt_cell(params, b)),
        ) == ring_product(params, a, b),
{
    let n = params.poly_len as nat;
    let q = params.modulus as int;
    let ta = to_ntt_cell(params, a);
    let tb = to_ntt_cell(params, b);
    let prod = ring_product(params, a, b);
    let tp = to_ntt_cell(params, prod);
    let tm = mul_cell(params, ta, tb);
    crate::ntt::lemma_forward_len(params, spread_cell(params, a));
    crate::ntt::lemma_forward_len(params, spread_cell(params, b));
    crate::ntt::lemma_forward_len(params, spread_cell(params, prod));
    assert forall|w: int| 0 <= w < tm.len() implies tm[w] == tp[w] by {
        let c = w / (n as int);
        let j = w % (n as int);
        lemma_cell_index(w, n as int, params.crt_count as int);
        lemma_tables_ok(params, c);
        let p = params.prime(c);
        let roots = params.forward_roots@[c]@;
        let rho = leaf_point(roots, n as int, j);
        assert(word_modulus(params, true, w) == p);
        lemma_transform_evaluates(params, a, c, j);
        lemma_transform_evaluates(params, b, c, j);
        lemma_transform_evaluates(params, prod, c, j);
        let ea = eval(ints(a), rho);
        let eb = eval(ints(b), rho);
        // the word by word product is the product of the values
        lemma_mul_mod_noop(ea, eb, p);
        assert(tm[w] == (ea * eb) % p);
        // the value of the product of the polynomials is the product of the values
        lemma_leaf_is_root(roots, p, n, j);
        lemma_eval_conv(ints(a), ints(b), n, rho, p);
        let full = conv_seq(ints(a), ints(b), n);
        // the coefficients of the ring product are those of the product, modulo p
        assert forall|j: int| 0 <= j < params.crt_count implies #[trigger] params.moduli@[j]
            > 0 by {
            assert(params.plane_ok(j));
        }
        lemma_product_divides(params.moduli@, params.crt_count as nat, c);
        let rest = q / p;
        assert forall|i: int| 0 <= i < n implies (#[trigger] ints(prod)[i]) % p == (full[i] + 0
            * full[i]) % p by {
            lemma_mod_bound(full[i], q);
            assert(prod[i] == full[i] % q);
            lemma_mod_mod(full[i], p, rest);
            assert(0 * full[i] == 0);
        }
        lemma_eval_combine(full, full, ints(prod), n, 0, rho, p);
        assert(0 * eval_upto(full, n, rho) == 0);
        assert(tp[w] == eval(ints(prod), rho) % p);
    }
    assert(tm =~= tp);
    lemma_round_trip_cell(params, prod);
    assert forall|k: int| 0 <= k < n implies reduce_raw(params, prod)[k] == prod[k] by {
        lemma_mod_bound(conv_upto(ints(a), ints(b), k, n), q);
        lemma_small_mod(prod[k] as nat, q as nat);
    }
    assert(reduce_raw(params, prod) =~= prod);
}

/// Coefficient `z` of the sum of the first `k` ring products
/// `a[i, l] * b[l, j]` of cells of coefficients, as an integer.
pub open spec fn ring_dot_upto(a: Grid, b: Grid, i: int, j: int, z: int, k: nat) -> int
    decreases k,
{
    if k == 0 {
        0
    } else {
        ring_dot_upto(a, b, i, j, z, (k - 1) as nat) + conv_upto(
            ints(a.poly(i, k - 1)),
            ints(b.poly(k - 1, j)),
            z,
            a.params.poly_len as nat,
        )
    }
}

/// Cell `(i, j)` of the product of two matrices over the ring: the sum over
/// `k` of the ring products `a[i, k] * b[k, j]`, each coefficient modulo the
/// full modulus.
pub open spec fn ring_dot_cell(a: Grid, b: Grid, i: int, j: int) -> Seq<u64> {
    Seq::new(
        a.params.poly_len as nat,
        |z: int| (ring_dot_upto(a, b, i, j, z, a.cols) % (a.params.modulus as int)) as u64,
    )
}

/// The coefficients of the sum of the first `k` ring products, as integers.
pub open spec fn ring_dot_seq(a: Grid, b: Grid, i: int, j: int, k: nat) -> Seq<int> {
    Seq::new(a.params.poly_len as nat, |z: int| ring_dot_upto(a, b, i, j, z, k))
}

/// Modulo `p`, word `w` of the sum of the first `k` word by word products of
/// transformed cells is the value at `rho` of the sum of the first `k` ring
/// products.
pub proof fn lemma_dot_evaluates(
    a: Grid,
    b: Grid,
    ta: Grid,
    tb: Grid,
    i: int,
    j: int,
    w: int,
    k: nat,
    rho: int,
    p: int,
)
    requires
        p > 0,
        (pow(rho, a.params.poly_len as nat) + 1) % p == 0,
        forall|l: int|
            0 <= l < k ==> (#[trigger] a.poly(i, l)).len() == a.params.poly_len && b.poly(
                l,
                j,
            ).len() == a.params.poly_len,
        forall|l: int|
            0 <= l < k ==> #[trigger] ta.poly(i, l)[w] == eval(ints(a.poly(i, l)), rho) % p,
        forall|l: int|
            0 <= l < k ==> #[trigger] tb.poly(l, j)[w] == eval(ints(b.poly(l, j)), rho) % p,
    ensures
        dot_word(ta, tb, i, j, w, k) % p == eval(ring_dot_seq(a, b, i, j, k), rho) % p,
    decreases k,
{
    let n = a.params.poly_len as nat;
    if k == 0 {
        lemma_eval_zero(ring_dot_seq(a, b, i, j, 0), n, rho);
    } else {
        let l = (k - 1) as nat;
        lemma_dot_evaluates(a, b, ta, tb, i, j, w, l, rho, p);
        let ca = ints(a.poly(i, l as int));
        let cb = ints(b.poly(l as int, j));
        assert(a.poly(i, l as int).len() == n);
        let ea = eval(ca, rho);
        let eb = eval(cb, rho);
        assert(ta.poly(i, l as int)[w] == ea % p);
        assert(tb.poly(l as int, j)[w] == eb % p);
        lemma_mul_mod_noop(ea, eb, p);
        lemma_eval_conv(ca, cb, n, rho, p);
        let term = conv_seq(ca, cb, n);
        let u = ring_dot_seq(a, b, i, j, l);
        let y = ring_dot_seq(a, b, i, j, k);
        assert forall|z: int| 0 <= z < n implies (#[trigger] y[z]) % p == (u[z] + 1 * term[z])
            % p by {
            assert(1 * term[z] == term[z]);
        }
        lemma_eval_combine(u, term, y, n, 1, rho, p);
        assert(1 * eval_upto(term, n, rho) == eval(term, rho));
        let prev = dot_word(ta, tb, i, j, w, l);
        let x = ta.poly(i, l as int)[w] * tb.poly(l as int, j)[w];
        lemma_add_mod_noop(prev, x, p);
        lemma_add_mod_noop(eval(u, rho), eval(term, rho), p);
    }
}

/// The product of transformed matrices is the product of matrices over the
/// ring: where `ta` and `tb` hold the transformed forms of `a` and `b`, the
/// coefficients of cell `(i, j)` of `ta * tb` are those of cell `(i, j)` of
/// the product of `a` and `b` over the ring.
pub proof fn lemma_product_is_ring_product(a: Grid, b: Grid, ta: Grid, tb: Grid, i: int, j: int)
    requires
        a.wf() && !a.ntt,
        b.wf() && !b.ntt,
        a.params == b.params,
        negacyclic(&a.params),
        a.cols == b.rows,
        ta.params == a.params && ta.ntt && ta.rows == a.rows && ta.cols == a.cols,
        tb.params == a.params && tb.ntt && tb.rows == b.rows && tb.cols == b.cols,
        0 <= i < a.rows,
        0 <= j < b.cols,
        forall|r: int, c: int|
            0 <= r < a.rows && 0 <= c < a.cols ==> #[trigger] ta.poly(r, c) == to_ntt_cell(
                &a.params,
                a.poly(r, c),
            ),
        forall|r: int, c: int|
            0 <= r < b.rows && 0 <= c < b.cols ==> #[trigger] tb.poly(r, c) == to_ntt_cell(
                &a.params,
                b.poly(r, c),
            ),
    ensures
        product_cell(ta, tb, i, j) == to_ntt_cell(&a.params, ring_dot_cell(a, b, i, j)),
        from_ntt_cell(&a.params, product_cell(ta, tb, i, j)) == ring_dot_cell(a, b, i, j),
{
    let params = &a.params;
    let n = params.poly_len as nat;
    let q = params.modulus as int;
    let prod = ring_dot_cell(a, b, i, j);
    let tp = to_ntt_cell(params, prod);
    let tm = product_cell(ta, tb, i, j);
    crate::ntt::lemma_forward_len(params, spread_cell(params, prod));
    assert forall|l: int| 0 <= l < a.cols implies (#[trigger] a.poly(i, l)).len() == n && b.poly(
        l,
        j,
    ).len() == n by {
        lemma_cell_in_grid(i, l, a.rows as int, a.cols as int, n as int);
        lemma_cell_in_grid(l, j, b.rows as int, b.cols as int, n as int);
    }
    assert forall|w: int| 0 <= w < tm.len() implies tm[w] == tp[w] by {
        let c = w / (n as int);
        let jj = w % (n as int);
        lemma_cell_index(w, n as int, params.crt_count as int);
        lemma_tables_ok(params, c);
        let p = params.prime(c);
        let roots = params.forward_roots@[c]@;
        let rho = leaf_point(roots, n as int, jj);
        assert(word_modulus(params, true, w) == p);
        lemma_leaf_is_root(roots, p, n, jj);
        assert forall|l: int| 0 <= l < a.cols implies #[trigger] ta.poly(i, l)[w] == eval(
            ints(a.poly(i, l)),
            rho,
        ) % p by {
            assert(ta.poly(i, l) == to_ntt_cell(params, a.poly(i, l)));
            lemma_cell_in_grid(i, l, a.rows as int, a.cols as int, n as int);
            lemma_transform_evaluates(params, a.poly(i, l), c, jj);
        }
        assert forall|l: int| 0 <= l < a.cols implies #[trigger] tb.poly(l, j)[w] == eval(
            ints(b.poly(l, j)),
            rho,
        ) % p by {
            assert(tb.poly(l, j) == to_ntt_cell(params, b.poly(l, j)));
            lemma_cell_in_grid(l, j, b.rows as int, b.cols as int, n as int);
            lemma_transform_evaluates(params, b.poly(l, j), c, jj);
        }
        lemma_dot_evaluates(a, b, ta, tb, i, j, w, a.cols, rho, p);
        let full = ring_dot_seq(a, b, i, j, a.cols);
        assert forall|l: int| 0 <= l < params.crt_count implies #[trigger] params.moduli@[l]
            > 0 by {
            assert(params.plane_ok(l));
        }
        lemma_product_divides(params.moduli@, params.crt_count as nat, c);
        let rest = q / p;
        assert forall|z: int| 0 <= z < n implies (#[trigger] ints(prod)[z]) % p == (full[z] + 0
            * full[z]) % p by {
            lemma_mod_bound(full[z], q);
            assert(prod[z] == full[z] % q);
            lemma_mod_mod(full[z], p, rest);
            assert(0 * full[z] == 0);
        }
        lemma_eval_combine(full, full, ints(prod), n, 0, rho, p);
        assert(0 * eval_upto(full, n, rho) == 0);
        lemma_transform_evaluates(params, prod, c, jj);
        lemma_mod_bound(dot_word(ta, tb, i, j, w, a.cols), p);
    }
    assert(tm =~= tp);
    lemma_round_trip_cell(params, prod);
    assert forall|z: int| 0 <= z < n implies reduce_raw(params, prod)[z] == prod[z] by {
        lemma_mod_bound(ring_dot_upto(a, b, i, j, z, a.cols), q);
        lemma_small_mod(prod[z] as nat, q as nat);
    }
    assert(reduce_raw(params, prod) =~= prod);
}

impl Params {
    /// Whether the butterfly multipliers of plane `c` are square roots of
    /// each other.
    fn check_squares(&self, c: usize) -> (ok: bool)
        requires
            self.wf(),
            c < self.crt_count,
        ensures
            ok == squares_ok(self.forward_roots@[c as int]@, self.prime(c as int), self.poly_len as int),
    {
        assert(self.plane_ok(c as int));
        let n: usize = self.poly_len;
        let p: u64 = self.moduli[c];
        let roots: &Vec<u64> = &self.forward_roots[c];
        if n >= 2 {
            let r: u64 = roots[1];
            let sq: u64 = mul_mod(r, r, p);
            proof {
                lemma_add_mod_noop(r * r, 1, p as int);
                lemma_small_mod(1, p as nat);
            }
            if add_mod(sq, 1, p) != 0 {
                return false;
            }
        }
        let mut k: usize = 1;
        while k < n / 2
            invariant
                self.wf(),
                c < self.crt_count,
                n == self.poly_len,
                p == self.prime(c as int),
                p >= 2,
                roots@ == self.forward_roots@[c as int]@,
                roots@.len() == n,
                1 <= k,
                forall|i: int| 1 <= i < k ==> #[trigger] crate::evaluation::square_pair_ok(
                    roots@,
                    p as int,
                    i,
                ),
            decreases n - k,
        {
            let base: u64 = roots[k];
            let even: u64 = roots[2 * k];
            let odd: u64 = roots[2 * k + 1];
            let even_sq: u64 = mul_mod(even, even, p);
            let odd_sq: u64 = mul_mod(odd, odd, p);
            proof {
                lemma_mod_equivalence(even * even, base as int, p as int);
                lemma_add_mod_noop(odd * odd, base as int, p as int);
            }
            if even_sq != base % p || add_mod(odd_sq, base % p, p) != 0 {
                assert(!crate::evaluation::square_pair_ok(roots@, p as int, k as int));
                return false;
            }
            k += 1;
        }
        proof {
            assert forall|i: int| 1 <= i && 2 * i + 1 < n implies #[trigger] crate::evaluation::square_pair_ok(
                roots@,
                p as int,
                i,
            ) by {
                assert(i < k);
            }
        }
        true
    }

    /// Whether the transform of this parameter set takes the values of a
    /// polynomial at roots of `x^n + 1`, so that multiplying transformed
    /// cells word by word is multiplying in the ring.
    pub fn check_negacyclic(&self) -> (ok: bool)
        requires
            self.wf(),
        ensures
            ok == negacyclic(self),
    {
        let mut c: usize = 0;
        while c < self.crt_count
            invariant
                self.wf(),
                c <= self.crt_count,
                forall|i: int|
                    0 <= i < c ==> #[trigger] squares_ok(
                        self.forward_roots@[i]@,
                        self.prime(i),
                        self.poly_len as int,
                    ),
            decreases self.crt_count - c,
        {
            if !self.check_squares(c) {
                return false;
            }
            c += 1;
        }
        true
    }
}

} // verus!
