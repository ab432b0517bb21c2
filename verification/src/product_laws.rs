//! The matrix product of transformed matrices is associative and
//! distributes over the sum.

use vstd::prelude::*;
use vstd::arithmetic::div_mod::*;
use crate::poly::{Grid, lemma_word_modulus, word_modulus};
use crate::cell_ops::add_cell;
use crate::matrix_ops::{dot_word, product_cell};

verus! {

/// Word `w` of `a[i, k] * b[k, l] * c[l, j]`, as an integer.
pub open spec fn term(a: Grid, b: Grid, c: Grid, i: int, j: int, w: int, k: int, l: int) -> int {
    a.poly(i, k)[w] * b.poly(k, l)[w] * c.poly(l, j)[w]
}

/// The terms with the given `l`, summed over the first `kk` values of `k`.
pub open spec fn sum_over_k(
    a: Grid,
    b: Grid,
    c: Grid,
    i: int,
    j: int,
    w: int,
    l: int,
    kk: nat,
) -> int
    decreases kk,
{
    if kk == 0 {
        0
    } else {
        sum_over_k(a, b, c, i, j, w, l, (kk - 1) as nat) + term(a, b, c, i, j, w, kk - 1, l)
    }
}

/// The terms with the given `k`, summed over the first `ll` values of `l`.
pub open spec fn sum_over_l(
    a: Grid,
    b: Grid,
    c: Grid,
    i: int,
    j: int,
    w: int,
    k: int,
    ll: nat,
) -> int
    decreases ll,
{
    if ll == 0 {
        0
    } else {
        sum_over_l(a, b, c, i, j, w, k, (ll - 1) as nat) + term(a, b, c, i, j, w, k, ll - 1)
    }
}

/// All terms with `k < kk` and `l < ll`, summed `l` by `l`.
pub open spec fn sum_l_first(
    a: Grid,
    b: Grid,
    c: Grid,
    i: int,
    j: int,
    w: int,
    kk: nat,
    ll: nat,
) -> int
    decreases ll,
{
    if ll == 0 {
        0
    } else {
        sum_l_first(a, b, c, i, j, w, kk, (ll - 1) as nat) + sum_over_k(
            a,
            b,
            c,
            i,
            j,
            w,
            ll - 1,
            kk,
        )
    }
}

/// All terms with `k < kk` and `l < ll`, summed `k` by `k`.
pub open spec fn sum_k_first(
    a: Grid,
    b: Grid,
    c: Grid,
    i: int,
    j: int,
    w: int,
    kk: nat,
    ll: nat,
) -> int
    decreases kk,
{
    if kk == 0 {
        0
    } else {
        sum_k_first(a, b, c, i, j, w, (kk - 1) as nat, ll) + sum_over_l(
            a,
            b,
            c,
            i,
            j,
            w,
            kk - 1,
            ll,
        )
    }
}

/// Summing the terms of one `l` over `k` is multiplying word `w` of
/// `(a * b)[i, l]` by that of `c[l, j]`.
pub proof fn lemma_sum_over_k(a: Grid, b: Grid, c: Grid, i: int, j: int, w: int, l: int, kk: nat)
    ensures
        sum_over_k(a, b, c, i, j, w, l, kk) == dot_word(a, b, i, l, w, kk) * c.poly(l, j)[w],
    decreases kk,
{
    let z = c.poly(l, j)[w] as int;
    if kk == 0 {
        assert(0 * z == 0);
    } else {
        lemma_sum_over_k(a, b, c, i, j, w, l, (kk - 1) as nat);
        let d = dot_word(a, b, i, l, w, (kk - 1) as nat);
        let x = a.poly(i, kk - 1)[w] as int;
        let y = b.poly(kk - 1, l)[w] as int;
        assert((d + x * y) * z == d * z + x * y * z) by (nonlinear_arith);
    }
}

/// Summing the terms of one `k` over `l` is multiplying word `w` of
/// `a[i, k]` by that of `(b * c)[k, j]`.
pub proof fn lemma_sum_over_l(a: Grid, b: Grid, c: Grid, i: int, j: int, w: int, k: int, ll: nat)
    ensures
        sum_over_l(a, b, c, i, j, w, k, ll) == a.poly(i, k)[w] * dot_word(b, c, k, j, w, ll),
    decreases ll,
{
    let x = a.poly(i, k)[w] as int;
    if ll == 0 {
        assert(x * 0 == 0);
    } else {
        lemma_sum_over_l(a, b, c, i, j, w, k, (ll - 1) as nat);
        let d = dot_word(b, c, k, j, w, (ll - 1) as nat);
        let y = b.poly(k, ll - 1)[w] as int;
        let z = c.poly(ll - 1, j)[w] as int;
        assert(x * (d + y * z) == x * d + x * y * z) by (nonlinear_arith);
    }
}

/// One more `l` adds the terms of that `l` to the sum taken `k` by `k`.
pub proof fn lemma_k_first_step(a: Grid, b: Grid, c: Grid, i: int, j: int, w: int, kk: nat, ll: nat)
    requires
        ll >= 1,
    ensures
        sum_k_first(a, b, c, i, j, w, kk, ll) == sum_k_first(a, b, c, i, j, w, kk, (ll - 1) as nat)
            + sum_over_k(a, b, c, i, j, w, ll - 1, kk),
    decreases kk,
{
    if kk > 0 {
        lemma_k_first_step(a, b, c, i, j, w, (kk - 1) as nat, ll);
    }
}

/// The order of summation does not matter.
pub proof fn lemma_sums_swap(a: Grid, b: Grid, c: Grid, i: int, j: int, w: int, kk: nat, ll: nat)
    ensures
        sum_l_first(a, b, c, i, j, w, kk, ll) == sum_k_first(a, b, c, i, j, w, kk, ll),
    decreases ll,
{
    if ll == 0 {
        lemma_k_first_empty(a, b, c, i, j, w, kk);
    } else {
        lemma_sums_swap(a, b, c, i, j, w, kk, (ll - 1) as nat);
        lemma_k_first_step(a, b, c, i, j, w, kk, ll);
    }
}

/// Without any `l` the sum is zero.
pub proof fn lemma_k_first_empty(a: Grid, b: Grid, c: Grid, i: int, j: int, w: int, kk: nat)
    ensures
        sum_k_first(a, b, c, i, j, w, kk, 0) == 0,
    decreases kk,
{
    if kk > 0 {
        lemma_k_first_empty(a, b, c, i, j, w, (kk - 1) as nat);
    }
}

/// Modulo `p`, word `w` of `((a * b) * c)[i, j]` is the sum of all terms.
pub proof fn lemma_left_product(
    a: Grid,
    b: Grid,
    c: Grid,
    ab: Grid,
    i: int,
    j: int,
    w: int,
    p: int,
    kk: nat,
    ll: nat,
)
    requires
        p > 0,
        forall|l: int|
            0 <= l < ll ==> #[trigger] ab.poly(i, l)[w] == dot_word(a, b, i, l, w, kk) % p,
    ensures
        dot_word(ab, c, i, j, w, ll) % p == sum_l_first(a, b, c, i, j, w, kk, ll) % p,
    decreases ll,
{
    if ll > 0 {
        lemma_left_product(a, b, c, ab, i, j, w, p, kk, (ll - 1) as nat);
        let l = ll - 1;
        let d = dot_word(a, b, i, l, w, kk);
        let z = c.poly(l, j)[w] as int;
        let prev_left = dot_word(ab, c, i, j, w, (ll - 1) as nat);
        let prev_right = sum_l_first(a, b, c, i, j, w, kk, (ll - 1) as nat);
        assert(ab.poly(i, l)[w] == d % p);
        lemma_sum_over_k(a, b, c, i, j, w, l, kk);
        lemma_mul_mod_noop_general(d, z, p);
        lemma_add_mod_noop(prev_left, (d % p) * z, p);
        lemma_add_mod_noop(prev_right, d * z, p);
    }
}

/// Modulo `p`, word `w` of `(a * (b * c))[i, j]` is the sum of all terms.
pub proof fn lemma_right_product(
    a: Grid,
    b: Grid,
    c: Grid,
    bc: Grid,
    i: int,
    j: int,
    w: int,
    p: int,
    kk: nat,
    ll: nat,
)
    requires
        p > 0,
        forall|k: int|
            0 <= k < kk ==> #[trigger] bc.poly(k, j)[w] == dot_word(b, c, k, j, w, ll) % p,
    ensures
        dot_word(a, bc, i, j, w, kk) % p == sum_k_first(a, b, c, i, j, w, kk, ll) % p,
    decreases kk,
{
    if kk > 0 {
        lemma_right_product(a, b, c, bc, i, j, w, p, (kk - 1) as nat, ll);
        let k = kk - 1;
        let d = dot_word(b, c, k, j, w, ll);
        let x = a.poly(i, k)[w] as int;
        let prev_left = dot_word(a, bc, i, j, w, (kk - 1) as nat);
        let prev_right = sum_k_first(a, b, c, i, j, w, (kk - 1) as nat, ll);
        assert(bc.poly(k, j)[w] == d % p);
        lemma_sum_over_l(a, b, c, i, j, w, k, ll);
        lemma_mul_mod_noop_general(x, d, p);
        lemma_add_mod_noop(prev_left, x * (d % p), p);
        lemma_add_mod_noop(prev_right, x * d, p);
    }
}

/// The matrix product is associative: where `ab` holds `a * b` and `bc`
/// holds `b * c`, cell `(i, j)` of `ab * c` is cell `(i, j)` of `a * bc`.
pub proof fn lemma_product_associative(a: Grid, b: Grid, c: Grid, ab: Grid, bc: Grid, i: int, j: int)
    requires
        a.wf() && a.ntt,
        b.wf() && b.ntt,
        c.wf() && c.ntt,
        a.params == b.params,
        b.params == c.params,
        a.cols == b.rows,
        b.cols == c.rows,
        ab.params == a.params && ab.ntt && ab.rows == a.rows && ab.cols == b.cols,
        bc.params == a.params && bc.ntt && bc.rows == b.rows && bc.cols == c.cols,
        0 <= i < a.rows,
        0 <= j < c.cols,
        forall|r: int, l: int|
            0 <= r < a.rows && 0 <= l < b.cols ==> #[trigger] ab.poly(r, l) == product_cell(
                a,
                b,
                r,
                l,
            ),
        forall|k: int, s: int|
            0 <= k < b.rows && 0 <= s < c.cols ==> #[trigger] bc.poly(k, s) == product_cell(
                b,
                c,
                k,
                s,
            ),
    ensures
        product_cell(ab, c, i, j) == product_cell(a, bc, i, j),
{
    let left = product_cell(ab, c, i, j);
    let right = product_cell(a, bc, i, j);
    assert forall|w: int| 0 <= w < a.words() implies left[w] == right[w] by {
        lemma_word_modulus(&a.params, true, w);
        let p = word_modulus(&a.params, true, w);
        assert forall|l: int| 0 <= l < b.cols implies #[trigger] ab.poly(i, l)[w] == dot_word(
            a,
            b,
            i,
            l,
            w,
            a.cols,
        ) % p by {
            assert(ab.poly(i, l) == product_cell(a, b, i, l));
            lemma_mod_bound(dot_word(a, b, i, l, w, a.cols), p);
        }
        assert forall|k: int| 0 <= k < a.cols implies #[trigger] bc.poly(k, j)[w] == dot_word(
            b,
            c,
            k,
            j,
            w,
            b.cols,
        ) % p by {
            assert(bc.poly(k, j) == product_cell(b, c, k, j));
            lemma_mod_bound(dot_word(b, c, k, j, w, b.cols), p);
        }
        lemma_left_product(a, b, c, ab, i, j, w, p, a.cols, b.cols);
        lemma_right_product(a, b, c, bc, i, j, w, p, a.cols, b.cols);
        lemma_sums_swap(a, b, c, i, j, w, a.cols, b.cols);
    }
    assert(left =~= right);
}

/// Modulo `p`, word `w` of `(a * s)[i, j]` is the sum of those of
/// `(a * b)[i, j]` and `(a * c)[i, j]` where `s` holds `b + c`.
pub proof fn lemma_dot_of_sum(
    a: Grid,
    b: Grid,
    c: Grid,
    s: Grid,
    i: int,
    j: int,
    w: int,
    p: int,
    kk: nat,
)
    requires
        p > 0,
        forall|k: int|
            0 <= k < kk ==> #[trigger] s.poly(k, j)[w] == (b.poly(k, j)[w] + c.poly(k, j)[w]) % p,
    ensures
        dot_word(a, s, i, j, w, kk) % p == (dot_word(a, b, i, j, w, kk) + dot_word(
            a,
            c,
            i,
            j,
            w,
            kk,
        )) % p,
    decreases kk,
{
    if kk > 0 {
        lemma_dot_of_sum(a, b, c, s, i, j, w, p, (kk - 1) as nat);
        let k = kk - 1;
        let x = a.poly(i, k)[w] as int;
        let y = b.poly(k, j)[w] as int;
        let z = c.poly(k, j)[w] as int;
        let prev_s = dot_word(a, s, i, j, w, (kk - 1) as nat);
        let prev_b = dot_word(a, b, i, j, w, (kk - 1) as nat);
        let prev_c = dot_word(a, c, i, j, w, (kk - 1) as nat);
        assert(s.poly(k, j)[w] == (y + z) % p);
        lemma_mul_mod_noop_general(x, y + z, p);
        assert(x * (y + z) == x * y + x * z) by (nonlinear_arith);
        lemma_add_mod_noop(prev_s, x * ((y + z) % p), p);
        lemma_add_mod_noop(prev_b + prev_c, x * y + x * z, p);
    }
}

/// The matrix product distributes over the sum: where `s` holds `b + c`,
/// cell `(i, j)` of `a * s` is the sum of the cells `(i, j)` of `a * b` and
/// `a * c`.
pub proof fn lemma_product_distributes(a: Grid, b: Grid, c: Grid, s: Grid, i: int, j: int)
    requires
        a.wf() && a.ntt,
        b.wf() && b.ntt,
        c.wf() && c.ntt,
        a.params == b.params,
        b.same_shape(c),
        s.same_shape(b),
        a.cols == b.rows,
        0 <= i < a.rows,
        0 <= j < b.cols,
        forall|k: int, l: int|
            0 <= k < b.rows && 0 <= l < b.cols ==> #[trigger] s.poly(k, l) == add_cell(
                &b.params,
                b.poly(k, l),
                c.poly(k, l),
            ),
    ensures
        product_cell(a, s, i, j) == add_cell(
            &a.params,
            product_cell(a, b, i, j),
            product_cell(a, c, i, j),
        ),
{
    let left = product_cell(a, s, i, j);
    let right = add_cell(&a.params, product_cell(a, b, i, j), product_cell(a, c, i, j));
    assert forall|w: int| 0 <= w < a.words() implies left[w] == right[w] by {
        lemma_word_modulus(&a.params, true, w);
        let p = word_modulus(&a.params, true, w);
        assert forall|k: int| 0 <= k < a.cols implies #[trigger] s.poly(k, j)[w] == (b.poly(
            k,
            j,
        )[w] + c.poly(k, j)[w]) % p by {
            crate::poly::lemma_cell_in_grid(k, j, b.rows as int, b.cols as int, b.words() as int);
            assert(s.poly(k, j) == add_cell(&b.params, b.poly(k, j), c.poly(k, j)));
            lemma_mod_bound(b.poly(k, j)[w] + c.poly(k, j)[w], p);
        }
        lemma_dot_of_sum(a, b, c, s, i, j, w, p, a.cols);
        let db = dot_word(a, b, i, j, w, a.cols);
        let dc = dot_word(a, c, i, j, w, a.cols);
        lemma_mod_bound(db, p);
        lemma_mod_bound(dc, p);
        lemma_mod_bound(dot_word(a, s, i, j, w, a.cols), p);
        lemma_add_mod_noop(db, dc, p);
    }
    assert(left =~= right);
}

} // verus!
