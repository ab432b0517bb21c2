//! The matrix product with deferred reduction: the products of one cell are
//! summed up without reducing, and the sum is reduced once. This is what a
//! vector unit does fast, and it is right as long as no sum outgrows a word.

use vstd::prelude::*;
use vstd::arithmetic::div_mod::*;
use crate::params::Params;
use crate::poly::{
    Grid, PolyMatrix, PolyMatrixNTT, cell_in_range, clear_words, lemma_cell_in_grid,
    lemma_grid_reduced, lemma_word_modulus, lemma_words_positive, lemma_written_cell, word_modulus,
    zeros,
};
use crate::cell_ops::{lane_mul_add_cell, modular_reduce, multiply_add_poly_avx, reduce_cell};
use crate::matrix_ops::{dot_word, lemma_product_in_range, product_cell};

verus! {

/// The prime of plane `c` fits the low half of a word, and a sum of `inner`
/// products of its residues fits a word.
pub open spec fn plane_deferred_safe(params: &Params, c: int, inner: nat) -> bool {
    &&& params.prime(c) <= 0x1_0000_0000
    &&& inner * ((params.prime(c) - 1) * (params.prime(c) - 1)) <= u64::MAX
}

/// Sums of `inner` products of residues fit a word, whatever the plane.
pub open spec fn deferred_safe(params: &Params, inner: nat) -> bool {
    forall|c: int| 0 <= c < params.crt_count ==> #[trigger] plane_deferred_safe(params, c, inner)
}

/// The sum of the first `k` products `a[i, l] * b[l, j]`, word by word and
/// not reduced.
pub open spec fn exact_partial_cell(a: Grid, b: Grid, i: int, j: int, k: nat) -> Seq<u64> {
    Seq::new(a.words(), |w: int| dot_word(a, b, i, j, w, k) as u64)
}

/// Whether sums of `inner` products of residues fit a word, whatever the
/// plane.
pub fn check_deferred_safe(params: &Params, inner: usize) -> (ok: bool)
    requires
        params.wf(),
    ensures
        ok == deferred_safe(params, inner as nat),
{
    let mut c: usize = 0;
    while c < params.crt_count
        invariant
            params.wf(),
            c <= params.crt_count,
            forall|i: int| 0 <= i < c ==> #[trigger] plane_deferred_safe(params, i, inner as nat),
        decreases params.crt_count - c,
    {
        assert(params.plane_ok(c as int));
        let p: u64 = params.moduli[c];
        if p > 0x1_0000_0000 {
            assert(!plane_deferred_safe(params, c as int, inner as nat));
            return false;
        }
        let top: u128 = (p - 1) as u128;
        assert(top * top <= 0xffff_ffff * 0xffff_ffff) by (nonlinear_arith)
            requires
                top <= 0xffff_ffff,
        ;
        let square: u128 = top * top;
        assert((inner as u128) * square <= 0xffff_ffff_ffff_ffff * (0xffff_ffff * 0xffff_ffff))
            by (nonlinear_arith)
            requires
                inner <= 0xffff_ffff_ffff_ffff,
                square <= 0xffff_ffff * 0xffff_ffff,
        ;
        if (inner as u128) * square > 0xffff_ffff_ffff_ffff {
            assert(!plane_deferred_safe(params, c as int, inner as nat));
            return false;
        }
        c += 1;
    }
    true
}

/// A cell of a grid of residues in range holds residues in range.
pub proof fn lemma_reduced_cell(grid: Grid, r: int, c: int)
    requires
        grid.wf(),
        grid.reduced(),
        0 <= r < grid.rows,
        0 <= c < grid.cols,
    ensures
        grid.poly(r, c).len() == grid.words(),
        cell_in_range(&grid.params, grid.ntt, grid.poly(r, c)),
{
    let words = grid.words() as int;
    let cell = grid.poly(r, c);
    lemma_words_positive(&grid.params, grid.ntt);
    lemma_cell_in_grid(r, c, grid.rows as int, grid.cols as int, words);
    assert forall|w: int| 0 <= w < cell.len() implies (#[trigger] cell[w]) < word_modulus(
        &grid.params,
        grid.ntt,
        w,
    ) by {
        let idx = r * grid.cols + c;
        crate::ntt::lemma_plane_index(idx, words, w);
        assert(cell[w] == grid.data[idx * words + w]);
    }
}

/// A sum of `k` products of residues of a prime `p` is at most `k` times
/// the square of `p - 1`.
pub proof fn lemma_dot_bound(a: Grid, b: Grid, i: int, j: int, w: int, k: nat)
    requires
        a.wf() && a.ntt && a.reduced(),
        b.wf() && b.ntt && b.reduced(),
        a.params == b.params,
        a.cols == b.rows,
        0 <= i < a.rows,
        0 <= j < b.cols,
        k <= a.cols,
        0 <= w < a.words(),
    ensures
        0 <= dot_word(a, b, i, j, w, k) <= k * ((word_modulus(&a.params, true, w) - 1) * (
        word_modulus(&a.params, true, w) - 1)),
    decreases k,
{
    let top = word_modulus(&a.params, true, w) - 1;
    if k == 0 {
        assert(0 * (top * top) == 0);
    } else {
        lemma_dot_bound(a, b, i, j, w, (k - 1) as nat);
        lemma_reduced_cell(a, i, k - 1);
        lemma_reduced_cell(b, k - 1, j);
        let x = a.poly(i, k - 1)[w] as int;
        let y = b.poly(k - 1, j)[w] as int;
        lemma_word_modulus(&a.params, true, w);
        assert(0 <= x * y <= top * top) by (nonlinear_arith)
            requires
                0 <= x <= top,
                0 <= y <= top,
        ;
        assert(k * (top * top) == (k - 1) * (top * top) + top * top) by (nonlinear_arith);
    }
}

/// Adding product `k` to the sum of the first `k` products without
/// reducing gives the sum of the first `k + 1`, as long as sums of that many
/// products fit a word.
pub proof fn lemma_exact_partial_step(a: Grid, b: Grid, i: int, j: int, k: nat)
    requires
        a.wf() && a.ntt && a.reduced(),
        b.wf() && b.ntt && b.reduced(),
        a.params == b.params,
        a.cols == b.rows,
        0 <= i < a.rows,
        0 <= j < b.cols,
        k < a.cols,
        deferred_safe(&a.params, a.cols),
    ensures
        lane_mul_add_cell(exact_partial_cell(a, b, i, j, k), a.poly(i, k as int), b.poly(k as int, j))
            == exact_partial_cell(a, b, i, j, k + 1),
{
    let acc = exact_partial_cell(a, b, i, j, k);
    let lhs = lane_mul_add_cell(acc, a.poly(i, k as int), b.poly(k as int, j));
    let rhs = exact_partial_cell(a, b, i, j, k + 1);
    lemma_reduced_cell(a, i, k as int);
    lemma_reduced_cell(b, k as int, j);
    assert forall|w: int| 0 <= w < a.words() implies lhs[w] == rhs[w] by {
        lemma_word_modulus(&a.params, true, w);
        let c = w / (a.params.poly_len as int);
        assert(plane_deferred_safe(&a.params, c, a.cols));
        let top = word_modulus(&a.params, true, w) - 1;
        lemma_dot_bound(a, b, i, j, w, k);
        lemma_dot_bound(a, b, i, j, w, k + 1);
        assert((k + 1) * (top * top) <= a.cols * (top * top)) by (nonlinear_arith)
            requires
                k + 1 <= a.cols,
                0 <= top * top,
        ;
        let x = a.poly(i, k as int)[w];
        let y = b.poly(k as int, j)[w];
        lemma_small_mod(x as nat, 0x1_0000_0000);
        lemma_small_mod(y as nat, 0x1_0000_0000);
        lemma_small_mod(dot_word(a, b, i, j, w, k + 1) as nat, 0x1_0000_0000_0000_0000);
    }
    assert(lhs =~= rhs);
}

/// Reducing the unreduced sum of all products gives the cell of the product.
pub proof fn lemma_exact_partial_reduced(a: Grid, b: Grid, i: int, j: int)
    requires
        a.wf() && a.ntt && a.reduced(),
        b.wf() && b.ntt && b.reduced(),
        a.params == b.params,
        a.cols == b.rows,
        0 <= i < a.rows,
        0 <= j < b.cols,
        deferred_safe(&a.params, a.cols),
    ensures
        reduce_cell(&a.params, exact_partial_cell(a, b, i, j, a.cols)) == product_cell(a, b, i, j),
{
    let lhs = reduce_cell(&a.params, exact_partial_cell(a, b, i, j, a.cols));
    let rhs = product_cell(a, b, i, j);
    assert forall|w: int| 0 <= w < a.words() implies lhs[w] == rhs[w] by {
        lemma_word_modulus(&a.params, true, w);
        let c = w / (a.params.poly_len as int);
        assert(plane_deferred_safe(&a.params, c, a.cols));
        lemma_dot_bound(a, b, i, j, w, a.cols);
        lemma_mod_bound(dot_word(a, b, i, j, w, a.cols), word_modulus(&a.params, true, w));
    }
    assert(lhs =~= rhs);
}

/// The matrix product `res = a * b` of transformed matrices, computed with
/// one reduction for each cell. It gives what `multiply` gives, for
/// matrices of residues in range whose inner dimension is small enough for
/// the sums to fit a word.
pub fn multiply_deferred(res: &mut PolyMatrixNTT, a: &PolyMatrixNTT, b: &PolyMatrixNTT)
    requires
        old(res)@.wf(),
        a@.wf(),
        b@.wf(),
        old(res)@.params == a@.params,
        a@.params == b@.params,
        old(res)@.rows == a@.rows,
        old(res)@.cols == b@.cols,
        a@.cols == b@.rows,
        a@.reduced(),
        b@.reduced(),
        deferred_safe(&a@.params, a@.cols),
    ensures
        final(res)@.wf(),
        final(res)@.same_shape(old(res)@),
        final(res)@.reduced(),
        forall|i: int, j: int|
            0 <= i < a@.rows && 0 <= j < b@.cols ==> #[trigger] final(res)@.poly(i, j)
                == product_cell(a@, b@, i, j),
{
    let params = res.params;
    let mut i: usize = 0;
    while i < a.rows
        invariant
            res@.wf(),
            a@.wf(),
            b@.wf(),
            res@.same_shape(old(res)@),
            *params == res@.params,
            res@.params == a@.params,
            a@.params == b@.params,
            res@.rows == a@.rows,
            res@.cols == b@.cols,
            a@.cols == b@.rows,
            a@.reduced(),
            b@.reduced(),
            deferred_safe(&a@.params, a@.cols),
            i <= a.rows,
            forall|r: int, c: int|
                0 <= r < i && 0 <= c < b@.cols ==> #[trigger] res@.poly(r, c) == product_cell(
                    a@,
                    b@,
                    r,
                    c,
                ),
        decreases a.rows - i,
    {
        let mut j: usize = 0;
        while j < b.cols
            invariant
                res@.wf(),
                a@.wf(),
                b@.wf(),
                res@.same_shape(old(res)@),
                *params == res@.params,
                res@.params == a@.params,
                a@.params == b@.params,
                res@.rows == a@.rows,
                res@.cols == b@.cols,
                a@.cols == b@.rows,
                a@.reduced(),
                b@.reduced(),
                deferred_safe(&a@.params, a@.cols),
                i < a.rows,
                j <= b.cols,
                forall|r: int, c: int|
                    0 <= r < a@.rows && 0 <= c < b@.cols && (r < i || (r == i && c < j))
                        ==> #[trigger] res@.poly(r, c) == product_cell(a@, b@, r, c),
            decreases b.cols - j,
        {
            let ghost before = res@;
            let cell = res.get_poly_mut(i, j);
            clear_words(cell);
            proof {
                lemma_written_cell(before, i as int, j as int, zeros(before.words()));
                assert(exact_partial_cell(a@, b@, i as int, j as int, 0) =~= zeros(before.words()));
            }
            let mut k: usize = 0;
            while k < a.cols
                invariant
                    res@.wf(),
                    a@.wf(),
                    b@.wf(),
                    res@.same_shape(old(res)@),
                    *params == res@.params,
                    res@.params == a@.params,
                    a@.params == b@.params,
                    res@.rows == a@.rows,
                    res@.cols == b@.cols,
                    a@.cols == b@.rows,
                    a@.reduced(),
                    b@.reduced(),
                    deferred_safe(&a@.params, a@.cols),
                    i < a.rows,
                    j < b.cols,
                    k <= a.cols,
                    res@.poly(i as int, j as int) == exact_partial_cell(
                        a@,
                        b@,
                        i as int,
                        j as int,
                        k as nat,
                    ),
                    forall|r: int, c: int|
                        0 <= r < a@.rows && 0 <= c < b@.cols && (r < i || (r == i && c < j))
                            ==> #[trigger] res@.poly(r, c) == product_cell(a@, b@, r, c),
                decreases a.cols - k,
            {
                let ghost mid = res@;
                let res_poly = res.get_poly_mut(i, j);
                let pol1 = a.get_poly(i, k);
                let pol2 = b.get_poly(k, j);
                multiply_add_poly_avx(params, res_poly, pol1, pol2);
                proof {
                    lemma_exact_partial_step(a@, b@, i as int, j as int, k as nat);
                    lemma_written_cell(
                        mid,
                        i as int,
                        j as int,
                        exact_partial_cell(a@, b@, i as int, j as int, (k + 1) as nat),
                    );
                }
                k += 1;
            }
            let ghost summed = res@;
            let res_poly = res.get_poly_mut(i, j);
            modular_reduce(params, res_poly);
            proof {
                lemma_exact_partial_reduced(a@, b@, i as int, j as int);
                lemma_written_cell(
                    summed,
                    i as int,
                    j as int,
                    product_cell(a@, b@, i as int, j as int),
                );
            }
            j += 1;
        }
        i += 1;
    }
    proof {
        assert forall|r: int, c: int| 0 <= r < res@.rows && 0 <= c < res@.cols implies cell_in_range(
            &res@.params,
            res@.ntt,
            #[trigger] res@.poly(r, c),
        ) by {
            lemma_product_in_range(a@, b@, r, c);
        }
        lemma_grid_reduced(res@);
    }
}

} // verus!
