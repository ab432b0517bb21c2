//! Arithmetic on whole matrices: sums, products, negation, automorphisms,
//! stacking, and the change between coefficient form and transformed form.

use vstd::prelude::*;
use vstd::arithmetic::div_mod::*;
use crate::params::Params;
use crate::poly::{
    Grid, PolyMatrix, PolyMatrixRaw, PolyMatrixNTT, cell_words, word_modulus, zeros,
    lemma_written_cell, lemma_zero_cells, lemma_words_positive, lemma_word_modulus, clear_words,
    cell_in_range, lemma_grid_reduced, lemma_cell_in_grid,
};
use crate::cell_ops::{
    mul_cell, mul_add_cell, add_cell, neg_cell, is_automorph, to_ntt_cell, from_ntt_cell,
    multiply_poly, multiply_add_poly, add_poly, invert_poly, automorph_poly, to_ntt_poly,
    from_ntt_poly,
};

verus! {

/// Word `w` of the sum of the first `k` products `a[i, l] * b[l, j]`, as an
/// integer.
pub open spec fn dot_word(a: Grid, b: Grid, i: int, j: int, w: int, k: nat) -> int
    decreases k,
{
    if k == 0 {
        0
    } else {
        dot_word(a, b, i, j, w, (k - 1) as nat) + a.poly(i, k - 1)[w] * b.poly(k - 1, j)[w]
    }
}

/// The sum of the first `k` products `a[i, l] * b[l, j]` of transformed
/// cells, each word modulo the prime of its plane.
pub open spec fn partial_product_cell(a: Grid, b: Grid, i: int, j: int, k: nat) -> Seq<u64> {
    Seq::new(
        a.words(),
        |w: int| (dot_word(a, b, i, j, w, k) % word_modulus(&a.params, true, w)) as u64,
    )
}

/// Cell `(i, j)` of the matrix product `a * b`.
pub open spec fn product_cell(a: Grid, b: Grid, i: int, j: int) -> Seq<u64> {
    partial_product_cell(a, b, i, j, a.cols)
}

/// The empty sum is a cell of zeros.
pub proof fn lemma_partial_product_zero(a: Grid, b: Grid, i: int, j: int)
    requires
        a.wf(),
        a.ntt,
    ensures
        partial_product_cell(a, b, i, j, 0) == zeros(a.words()),
{
    assert forall|w: int| 0 <= w < a.words() implies #[trigger] partial_product_cell(
        a,
        b,
        i,
        j,
        0,
    )[w] == 0 by {
        lemma_word_modulus(&a.params, true, w);
        lemma_small_mod(0, word_modulus(&a.params, true, w) as nat);
    }
    assert(partial_product_cell(a, b, i, j, 0) =~= zeros(a.words()));
}

/// Adding product `k` to the sum of the first `k` products gives the sum of
/// the first `k + 1`.
pub proof fn lemma_partial_product_step(a: Grid, b: Grid, i: int, j: int, k: nat)
    requires
        a.wf(),
        a.ntt,
        a.poly(i, k as int).len() == a.words(),
        b.poly(k as int, j).len() == a.words(),
    ensures
        mul_add_cell(
            &a.params,
            partial_product_cell(a, b, i, j, k),
            a.poly(i, k as int),
            b.poly(k as int, j),
        ) == partial_product_cell(a, b, i, j, k + 1),
{
    let lhs = mul_add_cell(
        &a.params,
        partial_product_cell(a, b, i, j, k),
        a.poly(i, k as int),
        b.poly(k as int, j),
    );
    let rhs = partial_product_cell(a, b, i, j, k + 1);
    assert forall|w: int| 0 <= w < a.words() implies lhs[w] == rhs[w] by {
        lemma_word_modulus(&a.params, true, w);
        let p = word_modulus(&a.params, true, w);
        let d = dot_word(a, b, i, j, w, k);
        let x = a.poly(i, k as int)[w] * b.poly(k as int, j)[w];
        lemma_mod_bound(d, p);
        lemma_add_mod_noop(x, d, p);
        lemma_add_mod_noop(x, d % p, p);
        lemma_mod_twice(d, p);
        assert(dot_word(a, b, i, j, w, k + 1) == d + x);
    }
    assert(lhs =~= rhs);
}

/// The matrix product `res = a * b` of transformed matrices: cell `(i, j)`
/// of `res` is the sum over `k` of `a[i, k] * b[k, j]`, word by word modulo
/// the prime of each plane.
pub fn multiply(res: &mut PolyMatrixNTT, a: &PolyMatrixNTT, b: &PolyMatrixNTT)
    requires
        old(res)@.wf(),
        a@.wf(),
        b@.wf(),
        old(res)@.params == a@.params,
        a@.params == b@.params,
        old(res)@.rows == a@.rows,
        old(res)@.cols == b@.cols,
        a@.cols == b@.rows,
    ensures
        final(res)@.wf(),
        final(res)@.same_shape(old(res)@),
        final(res)@.reduced(),
        forall|i: int, j: int|
            0 <= i < a@.rows && 0 <= j < b@.cols ==> #[trigger] final(res)@.poly(i, j)
                == product_cell(a@, b@, i, j),
{
    let params = res.params;
    let mut i: usize = 0;
    while i < a.rows
        invariant
            res@.wf(),
            a@.wf(),
            b@.wf(),
            res@.same_shape(old(res)@),
            *params == res@.params,
            res@.params == a@.params,
            a@.params == b@.params,
            res@.rows == a@.rows,
            res@.cols == b@.cols,
            a@.cols == b@.rows,
            i <= a.rows,
            forall|r: int, c: int|
                0 <= r < i && 0 <= c < b@.cols ==> #[trigger] res@.poly(r, c) == product_cell(
                    a@,
                    b@,
                    r,
                    c,
                ),
        decreases a.rows - i,
    {
        let mut j: usize = 0;
        while j < b.cols
            invariant
                res@.wf(),
                a@.wf(),
                b@.wf(),
                res@.same_shape(old(res)@),
                *params == res@.params,
                res@.params == a@.params,
                a@.params == b@.params,
                res@.rows == a@.rows,
                res@.cols == b@.cols,
                a@.cols == b@.rows,
                i < a.rows,
                j <= b.cols,
                forall|r: int, c: int|
                    0 <= r < a@.rows && 0 <= c < b@.cols && (r < i || (r == i && c < j))
                        ==> #[trigger] res@.poly(r, c) == product_cell(a@, b@, r, c),
            decreases b.cols - j,
        {
            let ghost before = res@;
            let cell = res.get_poly_mut(i, j);
            clear_words(cell);
            proof {
                lemma_written_cell(before, i as int, j as int, zeros(before.words()));
                lemma_partial_product_zero(a@, b@, i as int, j as int);
            }
            let mut k: usize = 0;
            while k < a.cols
                invariant
                    res@.wf(),
                    a@.wf(),
                    b@.wf(),
                    res@.same_shape(old(res)@),
                    *params == res@.params,
                    res@.params == a@.params,
                    a@.params == b@.params,
                    res@.rows == a@.rows,
                    res@.cols == b@.cols,
                    a@.cols == b@.rows,
                    i < a.rows,
                    j < b.cols,
                    k <= a.cols,
                    res@.poly(i as int, j as int) == partial_product_cell(
                        a@,
                        b@,
                        i as int,
                        j as int,
                        k as nat,
                    ),
                    forall|r: int, c: int|
                        0 <= r < a@.rows && 0 <= c < b@.cols && (r < i || (r == i && c < j))
                            ==> #[trigger] res@.poly(r, c) == product_cell(a@, b@, r, c),
                decreases a.cols - k,
            {
                let ghost mid = res@;
                let res_poly = res.get_poly_mut(i, j);
                let pol1 = a.get_poly(i, k);
                let pol2 = b.get_poly(k, j);
                multiply_add_poly(params, res_poly, pol1, pol2);
                proof {
                    lemma_partial_product_step(a@, b@, i as int, j as int, k as nat);
                    lemma_written_cell(
                        mid,
                        i as int,
                        j as int,
                        partial_product_cell(a@, b@, i as int, j as int, (k + 1) as nat),
                    );
                }
                k += 1;
            }
            j += 1;
        }
        i += 1;
    }
    proof {
        assert forall|r: int, c: int| 0 <= r < res@.rows && 0 <= c < res@.cols implies cell_in_range(
            &res@.params,
            res@.ntt,
            #[trigger] res@.poly(r, c),
        ) by {
            lemma_product_in_range(a@, b@, r, c);
        }
        lemma_grid_reduced(res@);
    }
}

/// The sum `res = a + b` of transformed matrices, word by word modulo the
/// prime of each plane.
pub fn add(res: &mut PolyMatrixNTT, a: &PolyMatrixNTT, b: &PolyMatrixNTT)
    requires
        old(res)@.wf(),
        a@.wf(),
        b@.wf(),
        old(res)@.same_shape(a@),
        a@.same_shape(b@),
    ensures
        final(res)@.wf(),
        final(res)@.same_shape(old(res)@),
        final(res)@.reduced(),
        forall|i: int, j: int|
            0 <= i < a@.rows && 0 <= j < a@.cols ==> #[trigger] final(res)@.poly(i, j) == add_cell(
                &a@.params,
                a@.poly(i, j),
                b@.poly(i, j),
            ),
{
    let params = res.params;
    let mut i: usize = 0;
    while i < a.rows
        invariant
            res@.wf(),
            a@.wf(),
            b@.wf(),
            res@.same_shape(a@),
            a@.same_shape(b@),
            *params == res@.params,
            i <= a.rows,
            forall|r: int, c: int|
                0 <= r < i && 0 <= c < a@.cols ==> #[trigger] res@.poly(r, c) == add_cell(
                    &a@.params,
                    a@.poly(r, c),
                    b@.poly(r, c),
                ),
        decreases a.rows - i,
    {
        let mut j: usize = 0;
        while j < a.cols
            invariant
                res@.wf(),
                a@.wf(),
                b@.wf(),
                res@.same_shape(a@),
                a@.same_shape(b@),
                *params == res@.params,
                i < a.rows,
                j <= a.cols,
                forall|r: int, c: int|
                    0 <= r < a@.rows && 0 <= c < a@.cols && (r < i || (r == i && c < j))
                        ==> #[trigger] res@.poly(r, c) == add_cell(
                        &a@.params,
                        a@.poly(r, c),
                        b@.poly(r, c),
                    ),
            decreases a.cols - j,
        {
            let ghost before = res@;
            let res_poly = res.get_poly_mut(i, j);
            let pol1 = a.get_poly(i, j);
            let pol2 = b.get_poly(i, j);
            add_poly(params, res_poly, pol1, pol2);
            proof {
                lemma_written_cell(
                    before,
                    i as int,
                    j as int,
                    add_cell(params, pol1@, pol2@),
                );
            }
            j += 1;
        }
        i += 1;
    }
    proof {
        assert forall|r: int, c: int| 0 <= r < res@.rows && 0 <= c < res@.cols implies cell_in_range(
            &res@.params,
            res@.ntt,
            #[trigger] res@.poly(r, c),
        ) by {
            lemma_cell_in_grid(r, c, a@.rows as int, a@.cols as int, a@.words() as int);
            lemma_add_in_range(&a@.params, a@.poly(r, c), b@.poly(r, c));
        }
        lemma_grid_reduced(res@);
    }
}

/// The additive inverse `res = -a` of a matrix of coefficients, modulo the
/// full modulus; zero coefficients stay zero.
pub fn invert(res: &mut PolyMatrixRaw, a: &PolyMatrixRaw)
    requires
        old(res)@.wf(),
        a@.wf(),
        old(res)@.same_shape(a@),
    ensures
        final(res)@.wf(),
        final(res)@.same_shape(old(res)@),
        final(res)@.reduced(),
        forall|i: int, j: int|
            0 <= i < a@.rows && 0 <= j < a@.cols ==> #[trigger] final(res)@.poly(i, j) == neg_cell(
                &a@.params,
                a@.poly(i, j),
            ),
{
    let params = res.params;
    let mut i: usize = 0;
    while i < a.rows
        invariant
            res@.wf(),
            a@.wf(),
            res@.same_shape(a@),
            *params == res@.params,
            i <= a.rows,
            forall|r: int, c: int|
                0 <= r < i && 0 <= c < a@.cols ==> #[trigger] res@.poly(r, c) == neg_cell(
                    &a@.params,
                    a@.poly(r, c),
                ),
        decreases a.rows - i,
    {
        let mut j: usize = 0;
        while j < a.cols
            invariant
                res@.wf(),
                a@.wf(),
                res@.same_shape(a@),
                *params == res@.params,
                i < a.rows,
                j <= a.cols,
                forall|r: int, c: int|
                    0 <= r < a@.rows && 0 <= c < a@.cols && (r < i || (r == i && c < j))
                        ==> #[trigger] res@.poly(r, c) == neg_cell(&a@.params, a@.poly(r, c)),
            decreases a.cols - j,
        {
            let ghost before = res@;
            let res_poly = res.get_poly_mut(i, j);
            let pol1 = a.get_poly(i, j);
            invert_poly(params, res_poly, pol1);
            proof {
                lemma_written_cell(before, i as int, j as int, neg_cell(params, pol1@));
            }
            j += 1;
        }
        i += 1;
    }
    proof {
        assert forall|r: int, c: int| 0 <= r < res@.rows && 0 <= c < res@.cols implies cell_in_range(
            &res@.params,
            res@.ntt,
            #[trigger] res@.poly(r, c),
        ) by {
            lemma_neg_in_range(&a@.params, a@.poly(r, c));
        }
        lemma_grid_reduced(res@);
    }
}

/// Applies `x -> x^t` to every cell of a matrix of coefficients, writing
/// over `res`.
pub fn automorph<'a>(res: &mut PolyMatrixRaw<'a>, a: &PolyMatrixRaw<'a>, t: usize)
    requires
        old(res)@.wf(),
        a@.wf(),
        old(res)@.same_shape(a@),
    ensures
        final(res)@.wf(),
        final(res)@.same_shape(old(res)@),
        forall|i: int, j: int|
            0 <= i < a@.rows && 0 <= j < a@.cols ==> is_automorph(
                &a@.params,
                #[trigger] final(res)@.poly(i, j),
                old(res)@.poly(i, j),
                a@.poly(i, j),
                t as int,
            ),
        t == 1 ==> forall|i: int, j: int|
            0 <= i < a@.rows && 0 <= j < a@.cols ==> #[trigger] final(res)@.poly(i, j) == a@.poly(
                i,
                j,
            ),
{
    let params = res.params;
    let mut i: usize = 0;
    while i < a.rows
        invariant
            res@.wf(),
            a@.wf(),
            res@.same_shape(a@),
            res@.same_shape(old(res)@),
            *params == res@.params,
            i <= a.rows,
            forall|r: int, c: int|
                0 <= r < a@.rows && 0 <= c < a@.cols ==> #[trigger] res@.poly(r, c) == (if r < i {
                    res@.poly(r, c)
                } else {
                    old(res)@.poly(r, c)
                }),
            forall|r: int, c: int|
                0 <= r < i && 0 <= c < a@.cols ==> is_automorph(
                    &a@.params,
                    #[trigger] res@.poly(r, c),
                    old(res)@.poly(r, c),
                    a@.poly(r, c),
                    t as int,
                ),
            t == 1 ==> forall|r: int, c: int|
                0 <= r < i && 0 <= c < a@.cols ==> #[trigger] res@.poly(r, c) == a@.poly(r, c),
        decreases a.rows - i,
    {
        let mut j: usize = 0;
        while j < a.cols
            invariant
                res@.wf(),
                a@.wf(),
                res@.same_shape(a@),
                res@.same_shape(old(res)@),
                *params == res@.params,
                i < a.rows,
                j <= a.cols,
                forall|r: int, c: int|
                    0 <= r < a@.rows && 0 <= c < a@.cols ==> #[trigger] res@.poly(r, c) == (if r < i
                        || (r == i && c < j) {
                        res@.poly(r, c)
                    } else {
                        old(res)@.poly(r, c)
                    }),
                forall|r: int, c: int|
                    0 <= r < a@.rows && 0 <= c < a@.cols && (r < i || (r == i && c < j))
                        ==> is_automorph(
                        &a@.params,
                        #[trigger] res@.poly(r, c),
                        old(res)@.poly(r, c),
                        a@.poly(r, c),
                        t as int,
                    ),
                t == 1 ==> forall|r: int, c: int|
                    0 <= r < a@.rows && 0 <= c < a@.cols && (r < i || (r == i && c < j))
                        ==> #[trigger] res@.poly(r, c) == a@.poly(r, c),
            decreases a.cols - j,
        {
            let ghost before = res@;
            let res_poly = res.get_poly_mut(i, j);
            let pol1 = a.get_poly(i, j);
            automorph_poly(params, res_poly, pol1, t);
            proof {
                lemma_written_cell(before, i as int, j as int, res_poly@);
            }
            j += 1;
        }
        i += 1;
    }
}

/// A new matrix holding what `x -> x^t` makes of every cell of `a`, written
/// over zeros.
pub fn automorph_alloc<'a>(a: &PolyMatrixRaw<'a>, t: usize) -> (res: PolyMatrixRaw<'a>)
    requires
        a@.wf(),
    ensures
        res@.wf(),
        res@.same_shape(a@),
        forall|i: int, j: int|
            0 <= i < a@.rows && 0 <= j < a@.cols ==> is_automorph(
                &a@.params,
                #[trigger] res@.poly(i, j),
                zeros(a@.words()),
                a@.poly(i, j),
                t as int,
            ),
        t == 1 ==> res@.data == a@.data,
{
    // a buffer is no longer than a machine word can count
    let _len: usize = a.data.len();
    let mut res = PolyMatrixRaw::zero(a.params, a.rows, a.cols);
    proof {
        lemma_zero_cells(res@);
    }
    automorph(&mut res, a, t);
    proof {
        if t == 1 {
            lemma_same_cells(res@, a@);
        }
    }
    res
}

/// Two grids of one shape whose cells agree hold the same words.
pub proof fn lemma_same_cells(x: Grid, y: Grid)
    requires
        x.wf(),
        y.wf(),
        x.same_shape(y),
        forall|i: int, j: int|
            0 <= i < x.rows && 0 <= j < x.cols ==> #[trigger] x.poly(i, j) == y.poly(i, j),
    ensures
        x.data == y.data,
{
    let words = x.words() as int;
    lemma_words_positive(&x.params, x.ntt);
    assert forall|k: int| 0 <= k < x.data.len() implies x.data[k] == y.data[k] by {
        let idx = k / words;
        let w = k % words;
        let count = (x.rows * x.cols) as int;
        assert(x.rows * x.cols * x.words() == words * count) by (nonlinear_arith)
            requires
                count == x.rows * x.cols,
                words == x.words(),
        ;
        crate::ntt::lemma_cell_index(k, words, count);
        let i = idx / (x.cols as int);
        let j = idx % (x.cols as int);
        assert(x.cols > 0 && count == x.cols * x.rows) by (nonlinear_arith)
            requires
                0 <= idx < count,
                count == x.rows * x.cols,
        ;
        crate::ntt::lemma_cell_index(idx, x.cols as int, x.rows as int);
        assert(i * x.cols + j == idx);
        crate::poly::lemma_cell_bounds(idx, count, words);
        assert(x.poly(i, j) == y.poly(i, j));
        assert(x.poly(i, j)[w] == x.data[idx * words + w]);
        assert(y.poly(i, j)[w] == y.data[idx * words + w]);
    }
    assert(x.data =~= y.data);
}

/// `a` on top of `b`.
pub fn stack<'a>(a: &PolyMatrixRaw<'a>, b: &PolyMatrixRaw<'a>) -> (c: PolyMatrixRaw<'a>)
    requires
        a@.wf(),
        b@.wf(),
        a@.params == b@.params,
        a@.cols == b@.cols,
        a@.rows + b@.rows <= usize::MAX,
        (a@.rows + b@.rows) * a@.cols * a@.words() <= usize::MAX,
    ensures
        c@.wf(),
        c@.params == a@.params,
        c@.rows == a@.rows + b@.rows,
        c@.cols == a@.cols,
        forall|i: int, j: int|
            0 <= i < a@.rows && 0 <= j < a@.cols ==> #[trigger] c@.poly(i, j) == a@.poly(i, j),
        forall|i: int, j: int|
            0 <= i < b@.rows && 0 <= j < a@.cols ==> #[trigger] c@.poly(a@.rows + i, j) == b@.poly(
                i,
                j,
            ),
{
    let mut c = PolyMatrixRaw::zero(a.params, a.rows + b.rows, a.cols);
    if a.rows > 0 && a.cols > 0 {
        c.copy_into(a, 0, 0);
    }
    if b.rows > 0 && b.cols > 0 {
        c.copy_into(b, a.rows, 0);
    }
    c
}

/// Multiplies every cell of `b` by the single cell of `a`, word by word.
pub fn scalar_multiply(res: &mut PolyMatrixNTT, a: &PolyMatrixNTT, b: &PolyMatrixNTT)
    requires
        old(res)@.wf(),
        a@.wf(),
        b@.wf(),
        old(res)@.same_shape(b@),
        a@.params == b@.params,
        a@.rows == 1,
        a@.cols == 1,
    ensures
        final(res)@.wf(),
        final(res)@.same_shape(old(res)@),
        final(res)@.reduced(),
        forall|i: int, j: int|
            0 <= i < b@.rows && 0 <= j < b@.cols ==> #[trigger] final(res)@.poly(i, j) == mul_cell(
                &b@.params,
                b@.poly(i, j),
                a@.poly(0, 0),
            ),
{
    let params = res.params;
    let pol2 = a.get_poly(0, 0);
    let mut i: usize = 0;
    while i < b.rows
        invariant
            res@.wf(),
            a@.wf(),
            b@.wf(),
            res@.same_shape(b@),
            *params == res@.params,
            pol2@ == a@.poly(0, 0),
            pol2@.len() == b@.words(),
            i <= b.rows,
            forall|r: int, c: int|
                0 <= r < i && 0 <= c < b@.cols ==> #[trigger] res@.poly(r, c) == mul_cell(
                    &b@.params,
                    b@.poly(r, c),
                    a@.poly(0, 0),
                ),
        decreases b.rows - i,
    {
        let mut j: usize = 0;
        while j < b.cols
            invariant
                res@.wf(),
                a@.wf(),
                b@.wf(),
                res@.same_shape(b@),
                *params == res@.params,
                pol2@ == a@.poly(0, 0),
                pol2@.len() == b@.words(),
                i < b.rows,
                j <= b.cols,
                forall|r: int, c: int|
                    0 <= r < b@.rows && 0 <= c < b@.cols && (r < i || (r == i && c < j))
                        ==> #[trigger] res@.poly(r, c) == mul_cell(
                        &b@.params,
                        b@.poly(r, c),
                        a@.poly(0, 0),
                    ),
            decreases b.cols - j,
        {
            let ghost before = res@;
            let res_poly = res.get_poly_mut(i, j);
            let pol1 = b.get_poly(i, j);
            multiply_poly(params, res_poly, pol1, pol2);
            proof {
                lemma_written_cell(before, i as int, j as int, mul_cell(params, pol1@, pol2@));
            }
            j += 1;
        }
        i += 1;
    }
    proof {
        assert forall|r: int, c: int| 0 <= r < res@.rows && 0 <= c < res@.cols implies cell_in_range(
            &res@.params,
            res@.ntt,
            #[trigger] res@.poly(r, c),
        ) by {
            lemma_cell_in_grid(r, c, b@.rows as int, b@.cols as int, b@.words() as int);
            lemma_mul_in_range(&b@.params, b@.poly(r, c), a@.poly(0, 0));
        }
        lemma_grid_reduced(res@);
    }
}

/// A new matrix holding every cell of `b` multiplied by the single cell of `a`.
pub fn scalar_multiply_alloc<'a>(a: &PolyMatrixNTT<'a>, b: &PolyMatrixNTT<'a>) -> (res:
    PolyMatrixNTT<'a>)
    requires
        a@.wf(),
        b@.wf(),
        a@.params == b@.params,
        a@.rows == 1,
        a@.cols == 1,
    ensures
        res@.wf(),
        res@.same_shape(b@),
        res@.reduced(),
        forall|i: int, j: int|
            0 <= i < b@.rows && 0 <= j < b@.cols ==> #[trigger] res@.poly(i, j) == mul_cell(
                &b@.params,
                b@.poly(i, j),
                a@.poly(0, 0),
            ),
{
    // a buffer is no longer than a machine word can count
    let _len: usize = b.data.len();
    let mut res = PolyMatrixNTT::zero(b.params, b.rows, b.cols);
    scalar_multiply(&mut res, a, b);
    res
}

/// The one-cell matrix of coefficients that holds the constant polynomial `val`.
pub fn single_poly<'a>(params: &'a Params, val: u64) -> (res: PolyMatrixRaw<'a>)
    requires
        params.wf(),
    ensures
        res@.wf(),
        res@.params == *params,
        res@.rows == 1,
        res@.cols == 1,
        res@.poly(0, 0) == zeros(params.poly_len as nat).update(0, val),
{
    proof {
        lemma_words_positive(params, false);
        let one: usize = 1;
        assert(one * one * cell_words(params, false) == cell_words(params, false))
            by (nonlinear_arith)
            requires
                one == 1,
        ;
    }
    let mut res = PolyMatrixRaw::zero(params, 1, 1);
    proof {
        lemma_zero_cells(res@);
    }
    let ghost before = res@;
    let cell = res.get_poly_mut(0, 0);
    cell[0] = val;
    proof {
        lemma_written_cell(before, 0, 0, zeros(params.poly_len as nat).update(0, val));
    }
    res
}

/// Brings the matrix of coefficients `b` into transformed form, into `a`.
pub fn to_ntt(a: &mut PolyMatrixNTT, b: &PolyMatrixRaw)
    requires
        old(a)@.wf(),
        b@.wf(),
        old(a)@.params == b@.params,
        old(a)@.rows == b@.rows,
        old(a)@.cols == b@.cols,
    ensures
        final(a)@.wf(),
        final(a)@.same_shape(old(a)@),
        final(a)@.reduced(),
        forall|r: int, c: int|
            0 <= r < b@.rows && 0 <= c < b@.cols ==> #[trigger] final(a)@.poly(r, c) == to_ntt_cell(
                &b@.params,
                b@.poly(r, c),
            ),
{
    let params = a.params;
    let mut r: usize = 0;
    while r < a.rows
        invariant
            a@.wf(),
            b@.wf(),
            a@.same_shape(old(a)@),
            *params == a@.params,
            a@.params == b@.params,
            a@.rows == b@.rows,
            a@.cols == b@.cols,
            r <= a.rows,
            forall|i: int, j: int|
                0 <= i < r && 0 <= j < b@.cols ==> #[trigger] a@.poly(i, j) == to_ntt_cell(
                    &b@.params,
                    b@.poly(i, j),
                ),
        decreases a.rows - r,
    {
        let mut c: usize = 0;
        while c < a.cols
            invariant
                a@.wf(),
                b@.wf(),
                a@.same_shape(old(a)@),
                *params == a@.params,
                a@.params == b@.params,
                a@.rows == b@.rows,
                a@.cols == b@.cols,
                r < a.rows,
                c <= a.cols,
                forall|i: int, j: int|
                    0 <= i < b@.rows && 0 <= j < b@.cols && (i < r || (i == r && j < c))
                        ==> #[trigger] a@.poly(i, j) == to_ntt_cell(&b@.params, b@.poly(i, j)),
            decreases a.cols - c,
        {
            let ghost before = a@;
            let pol_src = b.get_poly(r, c);
            let pol_dst = a.get_poly_mut(r, c);
            to_ntt_poly(params, pol_dst, pol_src);
            proof {
                crate::ntt::lemma_forward_len(params, crate::cell_ops::spread_cell(params, pol_src@));
                lemma_written_cell(before, r as int, c as int, to_ntt_cell(params, pol_src@));
            }
            c += 1;
        }
        r += 1;
    }
    proof {
        assert forall|r: int, c: int| 0 <= r < a@.rows && 0 <= c < a@.cols implies cell_in_range(
            &a@.params,
            a@.ntt,
            #[trigger] a@.poly(r, c),
        ) by {
            lemma_cell_in_grid(r, c, b@.rows as int, b@.cols as int, b@.words() as int);
            lemma_to_ntt_in_range(&b@.params, b@.poly(r, c));
        }
        lemma_grid_reduced(a@);
    }
}

/// The transformed form of the matrix of coefficients `b`, as a new matrix.
pub fn to_ntt_alloc<'a>(b: &PolyMatrixRaw<'a>) -> (a: PolyMatrixNTT<'a>)
    requires
        b@.wf(),
        b@.rows * b@.cols * cell_words(&b@.params, true) <= usize::MAX,
    ensures
        a@.wf(),
        a@.params == b@.params,
        a@.rows == b@.rows,
        a@.cols == b@.cols,
        a@.reduced(),
        forall|r: int, c: int|
            0 <= r < b@.rows && 0 <= c < b@.cols ==> #[trigger] a@.poly(r, c) == to_ntt_cell(
                &b@.params,
                b@.poly(r, c),
            ),
{
    let mut a = PolyMatrixNTT::zero(b.params, b.rows, b.cols);
    to_ntt(&mut a, b);
    a
}

/// Brings the transformed matrix `b` back into coefficients, into `a`.
pub fn from_ntt(a: &mut PolyMatrixRaw, b: &PolyMatrixNTT)
    requires
        old(a)@.wf(),
        b@.wf(),
        old(a)@.params == b@.params,
        old(a)@.rows == b@.rows,
        old(a)@.cols == b@.cols,
    ensures
        final(a)@.wf(),
        final(a)@.same_shape(old(a)@),
        final(a)@.reduced(),
        forall|r: int, c: int|
            0 <= r < b@.rows && 0 <= c < b@.cols ==> #[trigger] final(a)@.poly(r, c)
                == from_ntt_cell(&b@.params, b@.poly(r, c)),
{
    let params = a.params;
    proof {
        lemma_words_positive(params, true);
    }
    let mut scratch: Vec<u64> = vec![0u64; params.poly_len * params.crt_count];
    let mut r: usize = 0;
    while r < a.rows
        invariant
            a@.wf(),
            b@.wf(),
            a@.same_shape(old(a)@),
            *params == a@.params,
            a@.params == b@.params,
            a@.rows == b@.rows,
            a@.cols == b@.cols,
            scratch@.len() == cell_words(params, true),
            r <= a.rows,
            forall|i: int, j: int|
                0 <= i < r && 0 <= j < b@.cols ==> #[trigger] a@.poly(i, j) == from_ntt_cell(
                    &b@.params,
                    b@.poly(i, j),
                ),
        decreases a.rows - r,
    {
        let mut c: usize = 0;
        while c < a.cols
            invariant
                a@.wf(),
                b@.wf(),
                a@.same_shape(old(a)@),
                *params == a@.params,
                a@.params == b@.params,
                a@.rows == b@.rows,
                a@.cols == b@.cols,
                scratch@.len() == cell_words(params, true),
                r < a.rows,
                c <= a.cols,
                forall|i: int, j: int|
                    0 <= i < b@.rows && 0 <= j < b@.cols && (i < r || (i == r && j < c))
                        ==> #[trigger] a@.poly(i, j) == from_ntt_cell(&b@.params, b@.poly(i, j)),
            decreases a.cols - c,
        {
            let ghost before = a@;
            let pol_src = b.get_poly(r, c);
            let pol_dst = a.get_poly_mut(r, c);
            from_ntt_poly(params, pol_dst, pol_src, scratch.as_mut_slice());
            proof {
                lemma_written_cell(before, r as int, c as int, from_ntt_cell(params, pol_src@));
            }
            c += 1;
        }
        r += 1;
    }
    proof {
        assert forall|r: int, c: int| 0 <= r < a@.rows && 0 <= c < a@.cols implies cell_in_range(
            &a@.params,
            a@.ntt,
            #[trigger] a@.poly(r, c),
        ) by {
            lemma_from_ntt_in_range(&b@.params, b@.poly(r, c));
        }
        lemma_grid_reduced(a@);
    }
}

/// The coefficients of the transformed matrix `b`, as a new matrix.
pub fn from_ntt_alloc<'a>(b: &PolyMatrixNTT<'a>) -> (a: PolyMatrixRaw<'a>)
    requires
        b@.wf(),
    ensures
        a@.wf(),
        a@.params == b@.params,
        a@.rows == b@.rows,
        a@.cols == b@.cols,
        a@.reduced(),
        forall|r: int, c: int|
            0 <= r < b@.rows && 0 <= c < b@.cols ==> #[trigger] a@.poly(r, c) == from_ntt_cell(
                &b@.params,
                b@.poly(r, c),
            ),
{
    // a buffer is no longer than a machine word can count
    let _len: usize = b.data.len();
    proof {
        lemma_words_positive(b.params, true);
        assert(b@.rows * b@.cols * b@.params.poly_len <= b@.rows * b@.cols * (b@.params.poly_len
            * b@.params.crt_count)) by (nonlinear_arith)
            requires
                b@.params.crt_count >= 1,
        ;
    }
    let mut a = PolyMatrixRaw::zero(b.params, b.rows, b.cols);
    from_ntt(&mut a, b);
    a
}

impl<'a> PolyMatrixRaw<'a> {
    /// This matrix in transformed form.
    pub fn ntt(&self) -> (m: PolyMatrixNTT<'a>)
        requires
            self@.wf(),
            self@.rows * self@.cols * cell_words(&self@.params, true) <= usize::MAX,
        ensures
            m@.wf(),
            m@.params == self@.params,
            m@.rows == self@.rows,
            m@.cols == self@.cols,
            m@.reduced(),
            forall|r: int, c: int|
                0 <= r < self@.rows && 0 <= c < self@.cols ==> #[trigger] m@.poly(r, c)
                    == to_ntt_cell(&self@.params, self@.poly(r, c)),
    {
        to_ntt_alloc(self)
    }
}

impl<'a> PolyMatrixNTT<'a> {
    /// This matrix in coefficient form.
    pub fn raw(&self) -> (m: PolyMatrixRaw<'a>)
        requires
            self@.wf(),
        ensures
            m@.wf(),
            m@.params == self@.params,
            m@.rows == self@.rows,
            m@.cols == self@.cols,
            m@.reduced(),
            forall|r: int, c: int|
                0 <= r < self@.rows && 0 <= c < self@.cols ==> #[trigger] m@.poly(r, c)
                    == from_ntt_cell(&self@.params, self@.poly(r, c)),
    {
        from_ntt_alloc(self)
    }
}

/// The words of a cell of a product are residues in range.
pub proof fn lemma_product_in_range(a: Grid, b: Grid, i: int, j: int)
    requires
        a.wf(),
        a.ntt,
    ensures
        cell_in_range(&a.params, true, product_cell(a, b, i, j)),
{
    let cell = product_cell(a, b, i, j);
    assert forall|w: int| 0 <= w < cell.len() implies (#[trigger] cell[w]) < word_modulus(
        &a.params,
        true,
        w,
    ) by {
        lemma_word_modulus(&a.params, true, w);
        lemma_mod_bound(dot_word(a, b, i, j, w, a.cols), word_modulus(&a.params, true, w));
    }
}

/// The words of a sum of cells are residues in range.
pub proof fn lemma_add_in_range(params: &Params, x: Seq<u64>, y: Seq<u64>)
    requires
        params.wf(),
        x.len() <= cell_words(params, true),
    ensures
        cell_in_range(params, true, add_cell(params, x, y)),
{
    let cell = add_cell(params, x, y);
    assert forall|w: int| 0 <= w < cell.len() implies (#[trigger] cell[w]) < word_modulus(
        params,
        true,
        w,
    ) by {
        lemma_word_modulus(params, true, w);
        lemma_mod_bound(x[w] + y[w], word_modulus(params, true, w));
    }
}

/// The words of a word by word product of cells are residues in range.
pub proof fn lemma_mul_in_range(params: &Params, x: Seq<u64>, y: Seq<u64>)
    requires
        params.wf(),
        x.len() <= cell_words(params, true),
    ensures
        cell_in_range(params, true, mul_cell(params, x, y)),
{
    let cell = mul_cell(params, x, y);
    assert forall|w: int| 0 <= w < cell.len() implies (#[trigger] cell[w]) < word_modulus(
        params,
        true,
        w,
    ) by {
        lemma_word_modulus(params, true, w);
        lemma_mod_bound(x[w] * y[w], word_modulus(params, true, w));
    }
}

/// The negated coefficients of a cell are residues in range.
pub proof fn lemma_neg_in_range(params: &Params, x: Seq<u64>)
    requires
        params.wf(),
    ensures
        cell_in_range(params, false, neg_cell(params, x)),
{
    let cell = neg_cell(params, x);
    let q = params.modulus as int;
    assert forall|w: int| 0 <= w < cell.len() implies (#[trigger] cell[w]) < word_modulus(
        params,
        false,
        w,
    ) by {
        lemma_mod_bound(x[w] as int, q);
        lemma_mod_bound(q - (x[w] as int) % q, q);
    }
}

/// The words of the transformed form of a cell are residues in range.
pub proof fn lemma_to_ntt_in_range(params: &Params, raw: Seq<u64>)
    requires
        params.wf(),
        raw.len() == params.poly_len,
    ensures
        cell_in_range(params, true, to_ntt_cell(params, raw)),
{
    crate::cell_ops::lemma_spread_reduced(params, raw);
    crate::ntt::lemma_forward_reduced(params, crate::cell_ops::spread_cell(params, raw));
    let cell = to_ntt_cell(params, raw);
    assert forall|w: int| 0 <= w < cell.len() implies (#[trigger] cell[w]) < word_modulus(
        params,
        true,
        w,
    ) by {
    }
}

/// The coefficients of a transformed cell are residues in range.
pub proof fn lemma_from_ntt_in_range(params: &Params, x: Seq<u64>)
    requires
        params.wf(),
    ensures
        cell_in_range(params, false, from_ntt_cell(params, x)),
{
    let cell = from_ntt_cell(params, x);
    let inv = crate::ntt::spec_ntt_inverse(params, x);
    assert forall|w: int| 0 <= w < cell.len() implies (#[trigger] cell[w]) < word_modulus(
        params,
        false,
        w,
    ) by {
        lemma_mod_bound(
            crate::params::weighted_sum(
                params.crt_basis@,
                params.residues_at(inv, w),
                params.crt_count as nat,
            ) as int,
            params.modulus as int,
        );
    }
}

} // verus!
