//! What holds between the operations: the way back from transformed form
//! undoes the way there, zero annihilates, negation gives the additive
//! inverse, the constant one is neutral, and `x -> x` changes nothing.

use vstd::prelude::*;
use vstd::arithmetic::div_mod::*;
use crate::params::{Params, is_pow2, lemma_crt_of_reductions};
use crate::ntt::{
    below, cell_reduced, forward_at, forward_from, forward_layer, forward_plane, group_of,
    layers_ok, lemma_cell_index, lemma_forward_len, lemma_forward_planes, lemma_layers_step,
    lemma_ntt_roundtrip, lemma_partner, lemma_plane_bounds, lemma_plane_index, lemma_tables_ok,
    offset_of, plane_of, spec_ntt_forward, spec_ntt_inverse,
};
use crate::poly::{Grid, cell_words, lemma_cell_in_grid, lemma_word_modulus, lemma_words_positive, word_modulus, zeros};
use crate::cell_ops::{
    from_ntt_cell, is_automorph, lands_last, moved_word, mul_cell, neg_cell, neg_word, slot,
    spread_cell, to_ntt_cell, flipped, lemma_spread_reduced,
};
use crate::matrix_ops::{dot_word, partial_product_cell, product_cell};

verus! {

/// The coefficients `raw`, each reduced modulo the full modulus.
pub open spec fn reduce_raw(params: &Params, raw: Seq<u64>) -> Seq<u64> {
    Seq::new(raw.len(), |z: int| ((raw[z] as int) % (params.modulus as int)) as u64)
}

/// Round trip on one cell: bringing coefficients into transformed form and
/// back gives each coefficient modulo the full modulus.
pub proof fn lemma_round_trip_cell(params: &Params, raw: Seq<u64>)
    requires
        params.wf(),
        raw.len() == params.poly_len,
    ensures
        from_ntt_cell(params, to_ntt_cell(params, raw)) == reduce_raw(params, raw),
{
    let n = params.poly_len as int;
    let s = spread_cell(params, raw);
    lemma_spread_reduced(params, raw);
    lemma_ntt_roundtrip(params, s);
    let back = from_ntt_cell(params, to_ntt_cell(params, raw));
    assert forall|z: int| 0 <= z < n implies back[z] == reduce_raw(params, raw)[z] by {
        let residues = params.residues_at(s, z);
        assert forall|c: int| 0 <= c < params.crt_count implies #[trigger] residues[c] == (
        raw[z] as nat) % (params.prime(c) as nat) by {
            lemma_plane_bounds(c, n, params.crt_count as int);
            lemma_plane_index(c, n, z);
            assert(residues[c] == s[c * n + z]);
        }
        lemma_crt_of_reductions(params, raw[z] as nat, residues);
    }
    assert(back =~= reduce_raw(params, raw));
}

/// Round trip on a matrix: if `t` is the transformed form of `a` and `b`
/// holds the coefficients of `t`, each cell of `b` is the cell of `a` with its
/// coefficients reduced modulo the full modulus; where the coefficients of `a`
/// are residues already, `b` holds the words of `a`.
pub proof fn lemma_round_trip(a: Grid, t: Grid, b: Grid)
    requires
        a.wf(),
        !a.ntt,
        b.wf(),
        !b.ntt,
        b.same_shape(a),
        forall|r: int, c: int|
            0 <= r < a.rows && 0 <= c < a.cols ==> #[trigger] t.poly(r, c) == to_ntt_cell(
                &a.params,
                a.poly(r, c),
            ),
        forall|r: int, c: int|
            0 <= r < a.rows && 0 <= c < a.cols ==> #[trigger] b.poly(r, c) == from_ntt_cell(
                &a.params,
                t.poly(r, c),
            ),
    ensures
        forall|r: int, c: int|
            0 <= r < a.rows && 0 <= c < a.cols ==> #[trigger] b.poly(r, c) == reduce_raw(
                &a.params,
                a.poly(r, c),
            ),
        a.reduced() ==> b.data == a.data,
{
    let n = a.params.poly_len as int;
    assert forall|r: int, c: int| 0 <= r < a.rows && 0 <= c < a.cols implies #[trigger] b.poly(
        r,
        c,
    ) == reduce_raw(&a.params, a.poly(r, c)) by {
        lemma_cell_in_grid(r, c, a.rows as int, a.cols as int, n);
        assert(t.poly(r, c) == to_ntt_cell(&a.params, a.poly(r, c)));
        lemma_round_trip_cell(&a.params, a.poly(r, c));
    }
    if a.reduced() {
        assert forall|r: int, c: int| 0 <= r < a.rows && 0 <= c < a.cols implies #[trigger] b.poly(
            r,
            c,
        ) == a.poly(r, c) by {
            lemma_cell_in_grid(r, c, a.rows as int, a.cols as int, n);
            let cell = a.poly(r, c);
            let start = (r * a.cols + c) * n;
            assert forall|z: int| 0 <= z < n implies reduce_raw(&a.params, cell)[z] == cell[z] by {
                assert(cell[z] == a.data[start + z]);
                assert((start + z) % n == z) by {
                    lemma_plane_index(r * a.cols + c, n, z);
                }
                lemma_small_mod(cell[z] as nat, a.params.modulus as nat);
            }
            assert(reduce_raw(&a.params, cell) =~= cell);
        }
        crate::matrix_ops::lemma_same_cells(b, a);
    }
}

/// A product with a matrix of zeros on the right is a matrix of zeros.
pub proof fn lemma_product_zero_right(a: Grid, b: Grid, i: int, j: int)
    requires
        a.wf(),
        a.ntt,
        b.wf(),
        b.ntt,
        a.params == b.params,
        a.cols == b.rows,
        0 <= j < b.cols,
        b.data == zeros(b.data.len()),
    ensures
        product_cell(a, b, i, j) == zeros(a.words()),
{
    assert forall|w: int| 0 <= w < a.words() implies #[trigger] product_cell(a, b, i, j)[w]
        == 0 by {
        lemma_dot_zero_right(a, b, i, j, w, a.cols);
        lemma_word_modulus(&a.params, true, w);
        lemma_small_mod(0, word_modulus(&a.params, true, w) as nat);
    }
    assert(product_cell(a, b, i, j) =~= zeros(a.words()));
}

/// A product with a matrix of zeros on the left is a matrix of zeros.
pub proof fn lemma_product_zero_left(a: Grid, b: Grid, i: int, j: int)
    requires
        a.wf(),
        a.ntt,
        b.wf(),
        b.ntt,
        a.params == b.params,
        a.cols == b.rows,
        0 <= i < a.rows,
        a.data == zeros(a.data.len()),
    ensures
        product_cell(a, b, i, j) == zeros(a.words()),
{
    assert forall|w: int| 0 <= w < a.words() implies #[trigger] product_cell(a, b, i, j)[w]
        == 0 by {
        lemma_dot_zero_left(a, b, i, j, w, a.cols);
        lemma_word_modulus(&a.params, true, w);
        lemma_small_mod(0, word_modulus(&a.params, true, w) as nat);
    }
    assert(product_cell(a, b, i, j) =~= zeros(a.words()));
}

/// Every term of the sum vanishes when the right factor holds zeros.
pub proof fn lemma_dot_zero_right(a: Grid, b: Grid, i: int, j: int, w: int, k: nat)
    requires
        b.wf(),
        a.words() == b.words(),
        k <= b.rows,
        0 <= j < b.cols,
        0 <= w < b.words(),
        b.data == zeros(b.data.len()),
    ensures
        dot_word(a, b, i, j, w, k) == 0,
    decreases k,
{
    if k > 0 {
        lemma_dot_zero_right(a, b, i, j, w, (k - 1) as nat);
        lemma_cell_in_grid(k - 1, j, b.rows as int, b.cols as int, b.words() as int);
        assert(b.poly(k - 1, j)[w] == 0);
        assert(a.poly(i, k - 1)[w] * 0 == 0);
    }
}

/// Every term of the sum vanishes when the left factor holds zeros.
pub proof fn lemma_dot_zero_left(a: Grid, b: Grid, i: int, j: int, w: int, k: nat)
    requires
        a.wf(),
        k <= a.cols,
        0 <= i < a.rows,
        0 <= w < a.words(),
        a.data == zeros(a.data.len()),
    ensures
        dot_word(a, b, i, j, w, k) == 0,
    decreases k,
{
    if k > 0 {
        lemma_dot_zero_left(a, b, i, j, w, (k - 1) as nat);
        lemma_cell_in_grid(i, k - 1, a.rows as int, a.cols as int, a.words() as int);
        assert(a.poly(i, k - 1)[w] == 0);
        assert(0 * b.poly(k - 1, j)[w] == 0);
    }
}

/// Negation gives the additive inverse: each coefficient and its negation
/// add up to a multiple of the full modulus, the negation is a residue in
/// range, and the negation of zero is zero.
pub proof fn lemma_additive_inverse(params: &Params, a: Seq<u64>, k: int)
    requires
        params.wf(),
        0 <= k < a.len(),
    ensures
        (a[k] + neg_cell(params, a)[k]) % (params.modulus as int) == 0,
        neg_cell(params, a)[k] < params.modulus,
        a[k] == 0 ==> neg_cell(params, a)[k] == 0,
{
    let q = params.modulus as int;
    let x = a[k] as int;
    let low = x % q;
    lemma_mod_bound(x, q);
    lemma_mod_bound(q - low, q);
    lemma_fundamental_div_mod(x, q);
    lemma_mod_self_0(q);
    if low == 0 {
        assert(neg_word(a[k], q) == 0);
    } else {
        lemma_small_mod((q - low) as nat, q as nat);
        assert(x + (q - low) == q * (x / q + 1) + 0) by (nonlinear_arith)
            requires
                x == q * (x / q) + low,
        ;
        lemma_mod_multiples_vanish(x / q + 1, 0, q);
    }
    if x == 0 {
        lemma_small_mod(0, q as nat);
    }
}

/// The negation of a cell of zeros is a cell of zeros.
pub proof fn lemma_negated_zero(params: &Params, len: nat)
    requires
        params.wf(),
    ensures
        neg_cell(params, zeros(len)) == zeros(len),
{
    assert forall|k: int| 0 <= k < len implies neg_cell(params, zeros(len))[k] == 0 by {
        lemma_additive_inverse(params, zeros(len), k);
    }
    assert(neg_cell(params, zeros(len)) =~= zeros(len));
}

/// The plane holds `v` at every multiple of `step` and zero elsewhere.
pub open spec fn is_comb(x: Seq<u64>, v: u64, step: int) -> bool {
    forall|j: int|
        0 <= j < x.len() ==> #[trigger] x[j] == (if j % step == 0 {
            v
        } else {
            0u64
        })
}

/// The distance between the entries of the comb that the layers from
/// `(m, t)` on start from.
pub open spec fn comb_step(t: nat) -> int {
    if t == 0 {
        1
    } else {
        2 * (t as int)
    }
}

/// A forward layer halves the distance between the entries of a comb.
pub proof fn lemma_comb_layer(x: Seq<u64>, roots: Seq<u64>, p: int, m: int, t: int, v: u64)
    requires
        2 <= p <= u64::MAX,
        v < p,
        t > 0,
        m > 0,
        m * (2 * t) == x.len(),
        is_comb(x, v, 2 * t),
    ensures
        forward_layer(x, roots, p, m, t).len() == x.len(),
        is_comb(forward_layer(x, roots, p, m, t), v, t),
{
    let y = forward_layer(x, roots, p, m, t);
    assert forall|j: int| 0 <= j < y.len() implies #[trigger] y[j] == (if j % t == 0 {
        v
    } else {
        0u64
    }) by {
        lemma_partner(j, m, t);
        let off = offset_of(j, t);
        let w = roots[m + group_of(j, t)] as int;
        lemma_mod_mod(j, t, 2);
        assert(t * 2 == 2 * t);
        assert(j % t == off % t);
        lemma_small_mod(0, p as nat);
        lemma_small_mod(v as nat, p as nat);
        if off < t {
            lemma_small_mod(off as nat, t as nat);
            assert(x[j + t] == 0);
            assert(0 * w == 0);
            assert(x[j + t] * w == 0);
            assert(y[j] == (x[j] + 0) % p);
        } else {
            lemma_small_mod((off - t) as nat, t as nat);
            lemma_mod_multiples_vanish(1, off - t, t);
            assert(off % t == off - t);
            assert(x[j] == 0);
            assert(0 * w == 0);
            assert(x[j] * w == 0);
            lemma_mod_multiples_vanish(1, x[j - t] as int, p);
            assert(y[j] == (x[j - t] + p) % p);
        }
    }
}

/// The forward layers turn a comb into a plane that holds `v` everywhere.
pub proof fn lemma_comb_from(x: Seq<u64>, roots: Seq<u64>, p: int, m: nat, t: nat, v: u64)
    requires
        2 <= p <= u64::MAX,
        v < p,
        layers_ok(m, t, x.len()),
        is_comb(x, v, comb_step(t)),
    ensures
        forward_from(x, roots, p, m, t) == Seq::new(x.len(), |j: int| v),
    decreases t,
{
    if t == 0 {
        assert forall|j: int| 0 <= j < x.len() implies x[j] == v by {
            assert(j % 1 == 0);
        }
        assert(x =~= Seq::new(x.len(), |j: int| v));
    } else {
        let y = forward_layer(x, roots, p, m as int, t as int);
        lemma_comb_layer(x, roots, p, m as int, t as int, v);
        lemma_layers_step(m, t, x.len());
        assert(comb_step(t / 2) == t);
        lemma_comb_from(y, roots, p, 2 * m, t / 2, v);
    }
}

/// The transformed form of the constant polynomial `val` holds `val` modulo
/// the prime of the plane in every word.
pub proof fn lemma_constant_transformed(params: &Params, val: u64)
    requires
        params.wf(),
    ensures
        to_ntt_cell(params, zeros(params.poly_len as nat).update(0, val)) == Seq::new(
            cell_words(params, true),
            |k: int| ((val as int) % word_modulus(params, true, k)) as u64,
        ),
{
    let n = params.poly_len as int;
    let raw = zeros(params.poly_len as nat).update(0, val);
    let s = spread_cell(params, raw);
    let out = to_ntt_cell(params, raw);
    let want = Seq::new(
        cell_words(params, true),
        |k: int| ((val as int) % word_modulus(params, true, k)) as u64,
    );
    lemma_spread_reduced(params, raw);
    lemma_forward_len(params, s);
    assert forall|k: int| 0 <= k < out.len() implies out[k] == want[k] by {
        let c = k / n;
        lemma_cell_index(k, n, params.crt_count as int);
        lemma_tables_ok(params, c);
        lemma_plane_bounds(c, n, params.crt_count as int);
        let p = params.prime(c);
        let v = ((val as int) % p) as u64;
        lemma_mod_bound(val as int, p);
        let plane = plane_of(s, n, c);
        let t = (n / 2) as nat;
        assert forall|j: int| 0 <= j < plane.len() implies #[trigger] plane[j] == (if j
            % comb_step(t) == 0 {
            v
        } else {
            0u64
        }) by {
            lemma_plane_index(c, n, j);
            assert(plane[j] == s[c * n + j]);
            assert(word_modulus(params, true, c * n + j) == p);
            if t == 0 {
                assert(n == 1);
                assert(j == 0);
            } else {
                assert(comb_step(t) == n);
                lemma_small_mod(j as nat, n as nat);
            }
            if j == 0 {
                assert(raw[0] == val);
            } else {
                assert(raw[j] == 0);
                lemma_small_mod(0, p as nat);
            }
        }
        lemma_comb_from(plane, params.forward_roots@[c]@, p, 1, t, v);
        assert(word_modulus(params, true, k) == p);
    }
    assert(out =~= want);
}

/// The constant polynomial one is neutral: a transformed cell whose words
/// are residues in range, multiplied by the transformed form of one, is the
/// cell itself.
pub proof fn lemma_one_is_neutral(params: &Params, b: Seq<u64>)
    requires
        params.wf(),
        b.len() == cell_words(params, true),
        cell_reduced(params, b),
    ensures
        mul_cell(params, b, to_ntt_cell(params, zeros(params.poly_len as nat).update(0, 1u64)))
            == b,
{
    let one = to_ntt_cell(params, zeros(params.poly_len as nat).update(0, 1u64));
    lemma_constant_transformed(params, 1);
    let out = mul_cell(params, b, one);
    assert forall|w: int| 0 <= w < b.len() implies out[w] == b[w] by {
        lemma_word_modulus(params, true, w);
        let p = word_modulus(params, true, w);
        lemma_small_mod(1, p as nat);
        assert(one[w] == 1);
        assert(b[w] * 1 == b[w]);
        lemma_small_mod(b[w] as nat, p as nat);
    }
    assert(out =~= b);
}

/// `x -> x` changes nothing: what the automorphism with `t = 1` leaves is
/// the cell it was applied to.
pub proof fn lemma_automorph_one(params: &Params, out: Seq<u64>, prev: Seq<u64>, a: Seq<u64>)
    requires
        params.wf(),
        a.len() == params.poly_len,
        is_automorph(params, out, prev, a, 1),
    ensures
        out == a,
{
    let n = params.poly_len as int;
    assert forall|i: int| 0 <= i < n implies out[i] == a[i] by {
        assert(i * 1 == i);
        lemma_small_mod(i as nat, n as nat);
        lemma_basic_div(i, n);
        assert(slot(i, 1, n) == i);
        assert(!flipped(i, 1, n));
        assert forall|j: int| i < j < n implies #[trigger] slot(j, 1, n) != slot(i, 1, n) by {
            assert(j * 1 == j);
            lemma_small_mod(j as nat, n as nat);
        }
        assert(lands_last(i, 1, n, n));
        assert(out[slot(i, 1, n)] == moved_word(params, a, 1, i));
    }
    assert(out =~= a);
}

/// A power of two that divides `d * t` with `t` odd divides `d`.
pub proof fn lemma_pow2_divides(n: nat, d: int, t: int)
    requires
        is_pow2(n),
        t % 2 == 1,
        (d * t) % (n as int) == 0,
    ensures
        d % (n as int) == 0,
    decreases n,
{
    if n >= 2 {
        let m = (n / 2) as int;
        let c = (d * t) / (n as int);
        lemma_fundamental_div_mod(d * t, n as int);
        lemma_fundamental_div_mod(t, 2);
        lemma_fundamental_div_mod(d, 2);
        let th = t / 2;
        let dh = d / 2;
        // d * t is even and t is odd, so d is even
        assert(d * t == 2 * (m * c)) by (nonlinear_arith)
            requires
                d * t == n * c,
                n == 2 * m,
        ;
        assert(d * t == 2 * (d * th) + d) by (nonlinear_arith)
            requires
                t == 2 * th + 1,
        ;
        assert(d % 2 == 0) by {
            if d % 2 != 0 {
                assert(d == 2 * dh + 1);
                assert(2 * (m * c) == 2 * (d * th) + 2 * dh + 1);
            }
        }
        assert(dh * t == m * c) by (nonlinear_arith)
            requires
                d == 2 * dh,
                d * t == 2 * (m * c),
        ;
        lemma_mod_multiples_basic(c, m);
        assert(m * c == c * m) by (nonlinear_arith);
        lemma_pow2_divides(m as nat, dh, t);
        let e = dh / m;
        lemma_fundamental_div_mod(dh, m);
        assert(d == (n as int) * e) by (nonlinear_arith)
            requires
                d == 2 * dh,
                dh == m * e,
                n == 2 * m,
        ;
        lemma_mod_multiples_basic(e, n as int);
        assert((n as int) * e == e * (n as int)) by (nonlinear_arith);
    } else {
        assert(d % 1 == 0);
    }
}

/// Under `x -> x^t` with `t` odd, in a ring whose degree is a power of two,
/// no two coefficients go to the same place.
pub proof fn lemma_odd_slots_differ(n: nat, t: int, i: int, j: int)
    requires
        is_pow2(n),
        t % 2 == 1,
        0 <= i < j < n,
    ensures
        slot(i, t, n as int) != slot(j, t, n as int),
{
    if slot(i, t, n as int) == slot(j, t, n as int) {
        lemma_mod_equivalence(j * t, i * t, n as int);
        assert(j * t - i * t == (j - i) * t) by (nonlinear_arith);
        lemma_pow2_divides(n, j - i, t);
        lemma_small_mod((j - i) as nat, n);
    }
}

/// A Galois automorphism is a signed permutation: under `x -> x^t` with `t`
/// odd every coefficient stands at its place with its sign, whatever the
/// destination held.
pub proof fn lemma_automorph_odd(
    params: &Params,
    out: Seq<u64>,
    prev: Seq<u64>,
    a: Seq<u64>,
    t: int,
)
    requires
        params.wf(),
        t % 2 == 1,
        is_automorph(params, out, prev, a, t),
    ensures
        forall|i: int|
            0 <= i < params.poly_len ==> out[#[trigger] slot(i, t, params.poly_len as int)]
                == moved_word(params, a, t, i),
{
    let n = params.poly_len as int;
    assert forall|i: int| 0 <= i < n implies out[#[trigger] slot(i, t, n)] == moved_word(
        params,
        a,
        t,
        i,
    ) by {
        assert forall|j: int| i < j < n implies #[trigger] slot(j, t, n) != slot(i, t, n) by {
            lemma_odd_slots_differ(n as nat, t, i, j);
        }
        assert(lands_last(i, t, n, n));
    }
}

/// Round trip the other way on one cell: bringing a transformed cell whose
/// words are residues in range into coefficients and back gives the cell.
pub proof fn lemma_round_trip_back_cell(params: &Params, x: Seq<u64>)
    requires
        params.wf(),
        x.len() == cell_words(params, true),
        cell_reduced(params, x),
    ensures
        to_ntt_cell(params, from_ntt_cell(params, x)) == x,
        forall|z: int|
            0 <= z < params.poly_len ==> (#[trigger] from_ntt_cell(params, x)[z]) < params.modulus,
{
    let n = params.poly_len as int;
    let inv = spec_ntt_inverse(params, x);
    let raw = from_ntt_cell(params, x);
    let s = spread_cell(params, raw);
    crate::ntt::lemma_inverse_reduced(params, x);
    assert forall|k: int| 0 <= k < s.len() implies s[k] == inv[k] by {
        let c = k / n;
        let z = k % n;
        lemma_cell_index(k, n, params.crt_count as int);
        let residues = params.residues_at(inv, z);
        crate::params::lemma_crt_residues(params, residues, c);
        assert(residues[c] == inv[c * n + z]);
        assert(inv[k] < params.prime(c));
        lemma_small_mod(inv[k] as nat, params.prime(c) as nat);
        assert(word_modulus(params, true, k) == params.prime(c));
    }
    assert(s =~= inv);
    crate::ntt::lemma_ntt_roundtrip_back(params, x);
    assert forall|z: int| 0 <= z < n implies (#[trigger] raw[z]) < params.modulus by {
        lemma_mod_bound(
            crate::params::weighted_sum(
                params.crt_basis@,
                params.residues_at(inv, z),
                params.crt_count as nat,
            ) as int,
            params.modulus as int,
        );
    }
}

} // verus!
