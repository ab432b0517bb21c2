//! Matrices of ring elements in coefficient form (`PolyMatrixRaw`) and in
//! transformed form (`PolyMatrixNTT`), what both have in common
//! (`PolyMatrix`), and the arithmetic on them.

use vstd::prelude::*;
use vstd::arithmetic::div_mod::*;
use vstd::arithmetic::mul::*;
use crate::params::Params;

verus! {

/// Number of words in one cell: `n` coefficients, or one plane of `n` words
/// for each prime.
pub open spec fn cell_words(params: &Params, ntt: bool) -> nat {
    if ntt {
        (params.poly_len * params.crt_count) as nat
    } else {
        params.poly_len as nat
    }
}

/// What word `w` of a cell is a residue of: the full modulus for
/// coefficients, the prime of its plane for transformed words.
pub open spec fn word_modulus(params: &Params, ntt: bool, w: int) -> int {
    if ntt {
        params.prime(w / (params.poly_len as int))
    } else {
        params.modulus as int
    }
}

/// Cell number `idx` of a buffer of cells of `words` words each.
pub open spec fn cell(data: Seq<u64>, words: int, idx: int) -> Seq<u64> {
    data.subrange(idx * words, idx * words + words)
}

/// `data` with the `words` words from `start` on replaced by `piece`.
pub open spec fn splice(data: Seq<u64>, start: int, words: int, piece: Seq<u64>) -> Seq<u64> {
    data.subrange(0, start) + piece + data.subrange(start + words, data.len() as int)
}

/// A cell has at least one word, and its size fits a machine word.
pub proof fn lemma_words_positive(params: &Params, ntt: bool)
    requires
        params.wf(),
    ensures
        1 <= cell_words(params, ntt) <= usize::MAX,
{
    assert(params.poly_len * params.crt_count >= 1) by (nonlinear_arith)
        requires
            params.poly_len >= 1,
            params.crt_count >= 1,
    ;
}

/// A sequence of `len` zero words.
pub open spec fn zeros(len: nat) -> Seq<u64> {
    Seq::new(len, |i: int| 0u64)
}

/// Cell `(row, col)` of a grid with `cols` columns is inside a buffer of `rows * cols` cells.
pub proof fn lemma_cell_in_grid(row: int, col: int, rows: int, cols: int, words: int)
    requires
        0 <= row < rows,
        0 <= col < cols,
        0 <= words,
    ensures
        0 <= row * cols + col < rows * cols,
        0 <= (row * cols + col) * words,
        (row * cols + col) * words + words <= rows * cols * words,
{
    assert(0 <= row * cols + col < rows * cols) by (nonlinear_arith)
        requires
            0 <= row < rows,
            0 <= col < cols,
    ;
    lemma_cell_bounds(row * cols + col, rows * cols, words);
}

/// Cell `idx` of `count` cells lies inside the buffer.
pub proof fn lemma_cell_bounds(idx: int, count: int, words: int)
    requires
        0 <= idx < count,
        0 <= words,
    ensures
        0 <= idx * words,
        idx * words + words <= count * words,
{
    assert(0 <= idx * words && idx * words + words <= count * words) by (nonlinear_arith)
        requires
            0 <= idx < count,
            0 <= words,
    ;
}

/// Replacing one cell of a buffer changes that cell and no other.
pub proof fn lemma_splice_cell(data: Seq<u64>, words: int, count: int, idx: int, piece: Seq<u64>)
    requires
        0 <= idx < count,
        0 <= words,
        data.len() == count * words,
        piece.len() == words,
    ensures
        splice(data, idx * words, words, piece).len() == data.len(),
        cell(splice(data, idx * words, words, piece), words, idx) == piece,
        forall|other: int|
            0 <= other < count && other != idx ==> #[trigger] cell(
                splice(data, idx * words, words, piece),
                words,
                other,
            ) == cell(data, words, other),
{
    lemma_cell_bounds(idx, count, words);
    let out = splice(data, idx * words, words, piece);
    assert(cell(out, words, idx) =~= piece);
    assert forall|other: int| 0 <= other < count && other != idx implies #[trigger] cell(
        out,
        words,
        other,
    ) == cell(data, words, other) by {
        lemma_cell_bounds(other, count, words);
        if other < idx {
            assert(other * words + words <= idx * words) by (nonlinear_arith)
                requires
                    other < idx,
                    0 <= words,
            ;
        } else {
            assert(idx * words + words <= other * words) by (nonlinear_arith)
                requires
                    idx < other,
                    0 <= words,
            ;
        }
        assert(cell(out, words, other) =~= cell(data, words, other));
    }
}

/// Copies `src` over `dst`, word for word.
pub fn copy_words(dst: &mut [u64], src: &[u64])
    requires
        old(dst)@.len() == src@.len(),
    ensures
        final(dst)@ == src@,
{
    let n: usize = src.len();
    let mut i: usize = 0;
    while i < n
        invariant
            n == src@.len(),
            dst@.len() == n,
            i <= n,
            forall|k: int| 0 <= k < i ==> dst@[k] == src@[k],
        decreases n - i,
    {
        dst[i] = src[i];
        i += 1;
    }
    assert(dst@ =~= src@);
}

/// Sets every word of `dst` to zero.
pub fn clear_words(dst: &mut [u64])
    ensures
        final(dst)@ == zeros(old(dst)@.len()),
{
    let n: usize = dst.len();
    let mut i: usize = 0;
    while i < n
        invariant
            dst@.len() == n,
            i <= n,
            forall|k: int| 0 <= k < i ==> dst@[k] == 0,
        decreases n - i,
    {
        dst[i] = 0;
        i += 1;
    }
    assert(dst@ =~= zeros(n as nat));
}

/// The mathematical content of a matrix: its parameters, the form of its
/// cells, its shape and the words of all cells, row by row.
pub struct Grid {
    pub params: Params,
    pub ntt: bool,
    pub rows: nat,
    pub cols: nat,
    pub data: Seq<u64>,
}

impl Grid {
    /// Number of words in one cell.
    pub open spec fn words(self) -> nat {
        cell_words(&self.params, self.ntt)
    }

    /// The parameters are usable and the buffer holds exactly the cells.
    pub open spec fn wf(self) -> bool {
        &&& self.params.wf()
        &&& self.data.len() == self.rows * self.cols * self.words()
    }

    /// Cell number `idx`, counting row by row.
    pub open spec fn cell(self, idx: int) -> Seq<u64> {
        cell(self.data, self.words() as int, idx)
    }

    /// The words of cell `(row, col)`.
    pub open spec fn poly(self, row: int, col: int) -> Seq<u64> {
        self.cell(row * self.cols + col)
    }

    /// Same parameters, form, rows and columns.
    pub open spec fn same_shape(self, other: Grid) -> bool {
        &&& self.params == other.params
        &&& self.ntt == other.ntt
        &&& self.rows == other.rows
        &&& self.cols == other.cols
    }

    /// Every word is a residue in range: below the full modulus for
    /// coefficients, below the prime of its plane for transformed words.
    pub open spec fn reduced(self) -> bool {
        forall|k: int|
            0 <= k < self.data.len() ==> (#[trigger] self.data[k]) < word_modulus(
                &self.params,
                self.ntt,
                k % (self.words() as int),
            )
    }

    /// The grid with the words of cell `(row, col)` replaced by `piece`.
    pub open spec fn with_poly(self, row: int, col: int, piece: Seq<u64>) -> Grid {
        Grid {
            data: splice(
                self.data,
                (row * self.cols + col) * self.words(),
                self.words() as int,
                piece,
            ),
            ..self
        }
    }
}

/// What a matrix of ring elements offers, whichever form its cells are in.
pub trait PolyMatrix<'a>: Sized + View<V = Grid> {
    /// Whether the cells of this kind of matrix are in transformed form.
    spec fn ntt_kind() -> bool;

    fn is_ntt(&self) -> (b: bool)
        ensures
            b == self@.ntt,
    ;

    fn get_rows(&self) -> (r: usize)
        ensures
            r == self@.rows,
    ;

    fn get_cols(&self) -> (c: usize)
        ensures
            c == self@.cols,
    ;

    fn get_params(&self) -> (p: &Params)
        ensures
            *p == self@.params,
    ;

    fn num_words(&self) -> (n: usize)
        requires
            self@.params.wf(),
        ensures
            n == self@.words(),
    ;

    /// A matrix of the given shape with every word zero.
    fn zero(params: &'a Params, rows: usize, cols: usize) -> (m: Self)
        requires
            params.wf(),
            rows * cols * cell_words(params, Self::ntt_kind()) <= usize::MAX,
        ensures
            m@.wf(),
            m@.params == *params,
            m@.ntt == Self::ntt_kind(),
            m@.rows == rows,
            m@.cols == cols,
            m@.data == zeros(m@.data.len()),
    ;

    /// A matrix of the given shape whose words are random residues.
    fn random(params: &'a Params, rows: usize, cols: usize) -> (m: Self)
        requires
            params.wf(),
            rows * cols * cell_words(params, Self::ntt_kind()) <= usize::MAX,
        ensures
            m@.wf(),
            m@.params == *params,
            m@.ntt == Self::ntt_kind(),
            m@.rows == rows,
            m@.cols == cols,
            m@.reduced(),
    ;

    fn as_slice(&self) -> (s: &[u64])
        ensures
            s@ == self@.data,
    ;

    fn as_mut_slice(&mut self) -> (s: &mut [u64])
        ensures
            s@ == old(self)@.data,
            final(self)@ == (Grid { data: final(s)@, ..old(self)@ }),
    ;

    /// Overwrites every word with zero.
    fn zero_out(&mut self)
        ensures
            final(self)@ == (Grid { data: zeros(old(self)@.data.len()), ..old(self)@ }),
    {
        let s = self.as_mut_slice();
        clear_words(s);
    }

    /// The words of cell `(row, col)`.
    fn get_poly(&self, row: usize, col: usize) -> (s: &[u64])
        requires
            self@.wf(),
            row < self@.rows,
            col < self@.cols,
        ensures
            s@ == self@.poly(row as int, col as int),
            s@.len() == self@.words(),
    {
        let nw: usize = self.num_words();
        let cols: usize = self.get_cols();
        let whole = self.as_slice();
        // a buffer is no longer than a machine word can count
        let _len: usize = whole.len();
        proof {
            lemma_words_positive(&self@.params, self@.ntt);
            lemma_cell_in_grid(row as int, col as int, self@.rows as int, cols as int, nw as int);
            assert(row * cols + col <= (row * cols + col) * nw + nw) by (nonlinear_arith)
                requires
                    nw >= 1,
                    row * cols + col >= 0,
            ;
            assert(row * cols <= row * cols + col);
        }
        let start: usize = (row * cols + col) * nw;
        vstd::slice::slice_subrange(whole, start, start + nw)
    }

    /// The words of cell `(row, col)`, to be written to. The rest of the
    /// matrix stays as it is.
    fn get_poly_mut(&mut self, row: usize, col: usize) -> (s: &mut [u64])
        requires
            old(self)@.wf(),
            row < old(self)@.rows,
            col < old(self)@.cols,
        ensures
            s@ == old(self)@.poly(row as int, col as int),
            s@.len() == old(self)@.words(),
            final(self)@ == old(self)@.with_poly(row as int, col as int, final(s)@),
    {
        let nw: usize = self.num_words();
        let cols: usize = self.get_cols();
        let ghost rows = self@.rows;
        let ghost grid0 = self@;
        let whole = self.as_mut_slice();
        // a buffer is no longer than a machine word can count
        let _len: usize = whole.len();
        proof {
            lemma_words_positive(&grid0.params, grid0.ntt);
            lemma_cell_in_grid(row as int, col as int, rows as int, cols as int, nw as int);
            assert(row * cols + col <= (row * cols + col) * nw + nw) by (nonlinear_arith)
                requires
                    nw >= 1,
                    row * cols + col >= 0,
            ;
            assert(row * cols <= row * cols + col);
        }
        let start: usize = (row * cols + col) * nw;
        let ghost data0 = whole@;
        let (head, rest) = whole.split_at_mut(start);
        let (piece, tail) = rest.split_at_mut(nw);
        proof {
            assert(piece@ =~= data0.subrange(start as int, start + nw));
            assert(tail@ =~= data0.subrange(start + nw, data0.len() as int));
            assert(head@ + (final(piece)@ + tail@) =~= (head@ + final(piece)@) + tail@);
        }
        piece
    }

    /// Copies every cell of `p` into this matrix, cell `(0, 0)` of `p` going
    /// to `(target_row, target_col)`. `p` may reach the last row and the last
    /// column of this matrix.
    fn copy_into(&mut self, p: &Self, target_row: usize, target_col: usize)
        requires
            old(self)@.wf(),
            p@.wf(),
            p@.params == old(self)@.params,
            p@.ntt == old(self)@.ntt,
            target_row < old(self)@.rows,
            target_col < old(self)@.cols,
            target_row + p@.rows <= old(self)@.rows,
            target_col + p@.cols <= old(self)@.cols,
        ensures
            final(self)@.wf(),
            final(self)@.same_shape(old(self)@),
            forall|r: int, c: int|
                0 <= r < old(self)@.rows && 0 <= c < old(self)@.cols ==> #[trigger] final(self)@.poly(
                    r,
                    c,
                ) == (if target_row <= r < target_row + p@.rows && target_col <= c < target_col
                    + p@.cols {
                    p@.poly(r - target_row, c - target_col)
                } else {
                    old(self)@.poly(r, c)
                }),
    {
        let p_rows: usize = p.get_rows();
        let p_cols: usize = p.get_cols();
        let rows: usize = self.get_rows();
        let cols: usize = self.get_cols();
        let mut r: usize = 0;
        while r < p_rows
            invariant
                self@.wf(),
                p@.wf(),
                self@.same_shape(old(self)@),
                p@.params == self@.params,
                p@.ntt == self@.ntt,
                p_rows == p@.rows,
                p_cols == p@.cols,
                r <= p_rows,
                rows == self@.rows,
                cols == self@.cols,
                target_row + p_rows <= rows,
                target_col + p_cols <= cols,
                forall|i: int, j: int|
                    0 <= i < self@.rows && 0 <= j < self@.cols ==> #[trigger] self@.poly(i, j) == (
                    if target_row <= i < target_row + r && target_col <= j < target_col + p_cols {
                        p@.poly(i - target_row, j - target_col)
                    } else {
                        old(self)@.poly(i, j)
                    }),
            decreases p_rows - r,
        {
            let mut c: usize = 0;
            while c < p_cols
                invariant
                    self@.wf(),
                    p@.wf(),
                    self@.same_shape(old(self)@),
                    p@.params == self@.params,
                    p@.ntt == self@.ntt,
                    p_rows == p@.rows,
                    p_cols == p@.cols,
                    r < p_rows,
                    c <= p_cols,
                    rows == self@.rows,
                    cols == self@.cols,
                    target_row + p_rows <= rows,
                    target_col + p_cols <= cols,
                    forall|i: int, j: int|
                        0 <= i < self@.rows && 0 <= j < self@.cols ==> #[trigger] self@.poly(i, j)
                            == (if (target_row <= i < target_row + r && target_col <= j < target_col
                            + p_cols) || (i == target_row + r && target_col <= j < target_col + c) {
                            p@.poly(i - target_row, j - target_col)
                        } else {
                            old(self)@.poly(i, j)
                        }),
                decreases p_cols - c,
            {
                let pol_src = p.get_poly(r, c);
                let ghost before = self@;
                let pol_dst = self.get_poly_mut(target_row + r, target_col + c);
                copy_words(pol_dst, pol_src);
                proof {
                    lemma_written_cell(
                        before,
                        (target_row + r) as int,
                        (target_col + c) as int,
                        pol_src@,
                    );
                }
                c += 1;
            }
            r += 1;
        }
    }

    /// A new matrix with `pad_rows` rows of zeros above the rows of this one.
    fn pad_top(&self, pad_rows: usize) -> (m: Self)
        requires
            self@.wf(),
            self@.rows + pad_rows <= usize::MAX,
            (self@.rows + pad_rows) * self@.cols * self@.words() <= usize::MAX,
        ensures
            m@.wf(),
            m@.params == self@.params,
            m@.ntt == self@.ntt,
            m@.rows == self@.rows + pad_rows,
            m@.cols == self@.cols,
            forall|r: int, c: int|
                0 <= r < pad_rows && 0 <= c < m@.cols ==> #[trigger] m@.poly(r, c) == zeros(
                    m@.words(),
                ),
            forall|r: int, c: int|
                0 <= r < self@.rows && 0 <= c < m@.cols ==> #[trigger] m@.poly(pad_rows + r, c)
                    == self@.poly(r, c),
    ;
}

/// After cell `(row, col)` of a grid was overwritten, that cell holds what
/// was written and every other cell holds what it held.
pub proof fn lemma_written_cell(before: Grid, row: int, col: int, piece: Seq<u64>)
    requires
        before.wf(),
        0 <= row < before.rows,
        0 <= col < before.cols,
        piece.len() == before.words(),
    ensures
        before.with_poly(row, col, piece).wf(),
        before.with_poly(row, col, piece).same_shape(before),
        before.with_poly(row, col, piece).poly(row, col) == piece,
        forall|r: int, c: int|
            0 <= r < before.rows && 0 <= c < before.cols && !(r == row && c == col)
                ==> #[trigger] before.with_poly(row, col, piece).poly(r, c) == before.poly(r, c),
        forall|idx: int|
            0 <= idx < before.rows * before.cols && idx != row * before.cols + col
                ==> #[trigger] before.with_poly(row, col, piece).cell(idx) == before.cell(idx),
{
    let rows = before.rows as int;
    let cols = before.cols as int;
    let words = before.words() as int;
    let idx = row * cols + col;
    let after = before.with_poly(row, col, piece);
    lemma_cell_in_grid(row, col, rows, cols, words);
    lemma_splice_cell(before.data, words, rows * cols, idx, piece);
    assert forall|r: int, c: int|
        0 <= r < rows && 0 <= c < cols && !(r == row && c == col) implies #[trigger] after.poly(
        r,
        c,
    ) == before.poly(r, c) by {
        lemma_cell_in_grid(r, c, rows, cols, words);
        assert(r * cols + c != idx) by (nonlinear_arith)
            requires
                0 <= r < rows,
                0 <= c < cols,
                0 <= row < rows,
                0 <= col < cols,
                !(r == row && c == col),
                idx == row * cols + col,
        ;
        assert(after.cell(r * cols + c) == before.cell(r * cols + c));
    }
}

/// A matrix of polynomials in coefficient form: each cell holds the `n`
/// coefficients of one ring element, residues of the full modulus.
pub struct PolyMatrixRaw<'a> {
    pub params: &'a Params,
    pub rows: usize,
    pub cols: usize,
    pub data: Vec<u64>,
}

/// A matrix of polynomials in transformed form: each cell holds one plane of
/// `n` words for each prime.
pub struct PolyMatrixNTT<'a> {
    pub params: &'a Params,
    pub rows: usize,
    pub cols: usize,
    pub data: Vec<u64>,
}

impl<'a> View for PolyMatrixRaw<'a> {
    type V = Grid;

    open spec fn view(&self) -> Grid {
        Grid {
            params: *self.params,
            ntt: false,
            rows: self.rows as nat,
            cols: self.cols as nat,
            data: self.data@,
        }
    }
}

impl<'a> View for PolyMatrixNTT<'a> {
    type V = Grid;

    open spec fn view(&self) -> Grid {
        Grid {
            params: *self.params,
            ntt: true,
            rows: self.rows as nat,
            cols: self.cols as nat,
            data: self.data@,
        }
    }
}

/// The words `samples`, each reduced to a residue of what its place in a
/// cell of `words` words is a residue of.
pub open spec fn reduce_samples(params: &Params, ntt: bool, samples: Seq<u64>) -> Seq<u64> {
    Seq::new(
        samples.len(),
        |k: int|
            ((samples[k] as int) % word_modulus(
                params,
                ntt,
                k % (cell_words(params, ntt) as int),
            )) as u64,
    )
}

/// Reduced samples are residues in range.
pub proof fn lemma_reduce_samples(grid: Grid, samples: Seq<u64>)
    requires
        grid.wf(),
        grid.data == reduce_samples(&grid.params, grid.ntt, samples),
    ensures
        grid.reduced(),
{
    let words = grid.words() as int;
    lemma_words_positive(&grid.params, grid.ntt);
    assert forall|k: int| 0 <= k < grid.data.len() implies (#[trigger] grid.data[k])
        < word_modulus(&grid.params, grid.ntt, k % words) by {
        lemma_word_modulus(&grid.params, grid.ntt, k % words);
        lemma_mod_bound(k, words);
        lemma_mod_bound(samples[k] as int, word_modulus(&grid.params, grid.ntt, k % words));
    }
}

/// What word `w` of a cell is a residue of is at least two and fits a word.
pub proof fn lemma_word_modulus(params: &Params, ntt: bool, w: int)
    requires
        params.wf(),
        0 <= w < cell_words(params, ntt),
    ensures
        2 <= word_modulus(params, ntt, w) <= u64::MAX,
        ntt ==> 0 <= w / (params.poly_len as int) < params.crt_count,
{
    if ntt {
        crate::ntt::lemma_cell_index(w, params.poly_len as int, params.crt_count as int);
        assert(params.plane_ok(w / (params.poly_len as int)));
    }
}

impl<'a> PolyMatrix<'a> for PolyMatrixRaw<'a> {
    open spec fn ntt_kind() -> bool {
        false
    }

    fn is_ntt(&self) -> (b: bool) {
        false
    }

    fn get_rows(&self) -> (r: usize) {
        self.rows
    }

    fn get_cols(&self) -> (c: usize) {
        self.cols
    }

    fn get_params(&self) -> (p: &Params) {
        self.params
    }

    fn as_slice(&self) -> (s: &[u64]) {
        self.data.as_slice()
    }

    fn as_mut_slice(&mut self) -> (s: &mut [u64]) {
        self.data.as_mut_slice()
    }

    fn num_words(&self) -> (n: usize) {
        self.params.poly_len
    }

    fn zero(params: &'a Params, rows: usize, cols: usize) -> (m: PolyMatrixRaw<'a>) {
        proof {
            lemma_words_positive(params, false);
            assert(rows * cols <= rows * cols * params.poly_len) by (nonlinear_arith)
                requires
                    params.poly_len >= 1,
            ;
        }
        let num_coeffs: usize = rows * cols * params.poly_len;
        let data: Vec<u64> = vec![0u64; num_coeffs];
        assert(data@ =~= zeros(data@.len()));
        PolyMatrixRaw { params, rows, cols, data }
    }

    fn random(params: &'a Params, rows: usize, cols: usize) -> (m: PolyMatrixRaw<'a>) {
        proof {
            lemma_words_positive(params, false);
            assert(rows * cols <= rows * cols * params.poly_len) by (nonlinear_arith)
                requires
                    params.poly_len >= 1,
            ;
        }
        let samples: Vec<u64> = crate::rng::random_words(rows * cols * params.poly_len);
        let m = PolyMatrixRaw::from_samples(params, rows, cols, &samples);
        proof {
            lemma_reduce_samples(m@, samples@);
        }
        m
    }

    fn pad_top(&self, pad_rows: usize) -> (m: PolyMatrixRaw<'a>) {
        let mut padded = PolyMatrixRaw::zero(self.params, self.rows + pad_rows, self.cols);
        proof {
            lemma_zero_cells(padded@);
        }
        if self.rows > 0 && self.cols > 0 {
            padded.copy_into(self, pad_rows, 0);
        }
        padded
    }
}

/// Every cell of a grid of zeros is a cell of zeros.
pub proof fn lemma_zero_cells(grid: Grid)
    requires
        grid.wf(),
        grid.data == zeros(grid.data.len()),
    ensures
        forall|r: int, c: int|
            0 <= r < grid.rows && 0 <= c < grid.cols ==> #[trigger] grid.poly(r, c) == zeros(
                grid.words(),
            ),
{
    assert forall|r: int, c: int| 0 <= r < grid.rows && 0 <= c < grid.cols implies #[trigger] grid.poly(
        r,
        c,
    ) == zeros(grid.words()) by {
        lemma_cell_in_grid(r, c, grid.rows as int, grid.cols as int, grid.words() as int);
        assert(grid.poly(r, c) =~= zeros(grid.words()));
    }
}

impl<'a> PolyMatrixRaw<'a> {
    /// The matrix whose words are `samples`, each reduced modulo the full
    /// modulus.
    pub fn from_samples(params: &'a Params, rows: usize, cols: usize, samples: &Vec<u64>) -> (m:
        PolyMatrixRaw<'a>)
        requires
            params.wf(),
            samples@.len() == rows * cols * params.poly_len,
        ensures
            m@.wf(),
            m@.params == *params,
            m@.rows == rows,
            m@.cols == cols,
            m@.data == reduce_samples(params, false, samples@),
    {
        let len: usize = samples.len();
        let mut data: Vec<u64> = Vec::with_capacity(len);
        let mut k: usize = 0;
        while k < len
            invariant
                params.wf(),
                len == samples@.len(),
                k <= len,
                data@.len() == k,
                forall|i: int| 0 <= i < k ==> #[trigger] data@[i] == samples@[i] % params.modulus,
            decreases len - k,
        {
            data.push(samples[k] % params.modulus);
            k += 1;
        }
        assert(data@ =~= reduce_samples(params, false, samples@));
        PolyMatrixRaw { params, rows, cols, data }
    }

    /// The matrix with the constant polynomial 1 in the cells `(r, r)` and
    /// zero elsewhere.
    pub fn identity(params: &'a Params, rows: usize, cols: usize) -> (m: PolyMatrixRaw<'a>)
        requires
            params.wf(),
            rows * cols * params.poly_len <= usize::MAX,
        ensures
            m@.wf(),
            m@.params == *params,
            m@.rows == rows,
            m@.cols == cols,
            forall|r: int, c: int|
                0 <= r < rows && 0 <= c < cols ==> #[trigger] m@.poly(r, c) == (if r == c {
                    zeros(params.poly_len as nat).update(0, 1u64)
                } else {
                    zeros(params.poly_len as nat)
                }),
    {
        let mut m = PolyMatrixRaw::zero(params, rows, cols);
        proof {
            lemma_zero_cells(m@);
        }
        let mut r: usize = 0;
        while r < rows && r < cols
            invariant
                m@.wf(),
                m@.params == *params,
                m@.rows == rows,
                m@.cols == cols,
                forall|i: int, j: int|
                    0 <= i < rows && 0 <= j < cols ==> #[trigger] m@.poly(i, j) == (if i == j && i
                        < r {
                        zeros(params.poly_len as nat).update(0, 1u64)
                    } else {
                        zeros(params.poly_len as nat)
                    }),
            decreases rows - r,
        {
            let ghost before = m@;
            let cell = m.get_poly_mut(r, r);
            cell[0] = 1;
            proof {
                lemma_written_cell(
                    before,
                    r as int,
                    r as int,
                    zeros(params.poly_len as nat).update(0, 1u64),
                );
            }
            r += 1;
        }
        m
    }
}

impl<'a> PolyMatrix<'a> for PolyMatrixNTT<'a> {
    open spec fn ntt_kind() -> bool {
        true
    }

    fn is_ntt(&self) -> (b: bool) {
        true
    }

    fn get_rows(&self) -> (r: usize) {
        self.rows
    }

    fn get_cols(&self) -> (c: usize) {
        self.cols
    }

    fn get_params(&self) -> (p: &Params) {
        self.params
    }

    fn as_slice(&self) -> (s: &[u64]) {
        self.data.as_slice()
    }

    fn as_mut_slice(&mut self) -> (s: &mut [u64]) {
        self.data.as_mut_slice()
    }

    fn num_words(&self) -> (n: usize) {
        self.params.poly_len * self.params.crt_count
    }

    fn zero(params: &'a Params, rows: usize, cols: usize) -> (m: PolyMatrixNTT<'a>) {
        proof {
            lemma_words_positive(params, true);
            assert(rows * cols <= rows * cols * (params.poly_len * params.crt_count))
                by (nonlinear_arith)
                requires
                    params.poly_len * params.crt_count >= 1,
            ;
        }
        let num_coeffs: usize = rows * cols * (params.poly_len * params.crt_count);
        let data: Vec<u64> = vec![0u64; num_coeffs];
        assert(data@ =~= zeros(data@.len()));
        PolyMatrixNTT { params, rows, cols, data }
    }

    fn random(params: &'a Params, rows: usize, cols: usize) -> (m: PolyMatrixNTT<'a>) {
        proof {
            lemma_words_positive(params, true);
            assert(rows * cols <= rows * cols * (params.poly_len * params.crt_count))
                by (nonlinear_arith)
                requires
                    params.poly_len * params.crt_count >= 1,
            ;
        }
        let samples: Vec<u64> = crate::rng::random_words(
            rows * cols * (params.poly_len * params.crt_count),
        );
        let m = PolyMatrixNTT::from_samples(params, rows, cols, &samples);
        proof {
            lemma_reduce_samples(m@, samples@);
        }
        m
    }

    fn pad_top(&self, pad_rows: usize) -> (m: PolyMatrixNTT<'a>) {
        let mut padded = PolyMatrixNTT::zero(self.params, self.rows + pad_rows, self.cols);
        proof {
            lemma_zero_cells(padded@);
        }
        if self.rows > 0 && self.cols > 0 {
            padded.copy_into(self, pad_rows, 0);
        }
        padded
    }
}

impl<'a> PolyMatrixNTT<'a> {
    /// The matrix whose words are `samples`, each reduced modulo the prime
    /// of the plane it falls in.
    pub fn from_samples(params: &'a Params, rows: usize, cols: usize, samples: &Vec<u64>) -> (m:
        PolyMatrixNTT<'a>)
        requires
            params.wf(),
            samples@.len() == rows * cols * (params.poly_len * params.crt_count),
        ensures
            m@.wf(),
            m@.params == *params,
            m@.rows == rows,
            m@.cols == cols,
            m@.data == reduce_samples(params, true, samples@),
    {
        let len: usize = samples.len();
        let n: usize = params.poly_len;
        proof {
            lemma_words_positive(params, true);
        }
        let words: usize = n * params.crt_count;
        let mut data: Vec<u64> = Vec::with_capacity(len);
        let mut k: usize = 0;
        while k < len
            invariant
                params.wf(),
                len == samples@.len(),
                n == params.poly_len,
                words == n * params.crt_count,
                words >= 1,
                k <= len,
                data@.len() == k,
                forall|i: int|
                    0 <= i < k ==> #[trigger] data@[i] == (samples@[i] as int) % word_modulus(
                        params,
                        true,
                        i % (words as int),
                    ),
            decreases len - k,
        {
            proof {
                lemma_mod_bound(k as int, words as int);
                lemma_word_modulus(params, true, (k as int) % (words as int));
            }
            let plane: usize = (k % words) / n;
            data.push(samples[k] % params.moduli[plane]);
            k += 1;
        }
        assert(data@ =~= reduce_samples(params, true, samples@));
        PolyMatrixNTT { params, rows, cols, data }
    }
}

/// Every word of the cell is a residue in range.
pub open spec fn cell_in_range(params: &Params, ntt: bool, cell: Seq<u64>) -> bool {
    forall|w: int| 0 <= w < cell.len() ==> (#[trigger] cell[w]) < word_modulus(params, ntt, w)
}

/// A grid whose cells hold residues in range holds residues in range.
pub proof fn lemma_grid_reduced(grid: Grid)
    requires
        grid.wf(),
        forall|r: int, c: int|
            0 <= r < grid.rows && 0 <= c < grid.cols ==> cell_in_range(
                &grid.params,
                grid.ntt,
                #[trigger] grid.poly(r, c),
            ),
    ensures
        grid.reduced(),
{
    let words = grid.words() as int;
    lemma_words_positive(&grid.params, grid.ntt);
    assert forall|k: int| 0 <= k < grid.data.len() implies (#[trigger] grid.data[k])
        < word_modulus(&grid.params, grid.ntt, k % words) by {
        let idx = k / words;
        let w = k % words;
        let count = (grid.rows * grid.cols) as int;
        assert(grid.rows * grid.cols * grid.words() == words * count) by (nonlinear_arith)
            requires
                count == grid.rows * grid.cols,
                words == grid.words(),
        ;
        crate::ntt::lemma_cell_index(k, words, count);
        let i = idx / (grid.cols as int);
        let j = idx % (grid.cols as int);
        assert(grid.cols > 0 && count == grid.cols * grid.rows) by (nonlinear_arith)
            requires
                0 <= idx < count,
                count == grid.rows * grid.cols,
        ;
        crate::ntt::lemma_cell_index(idx, grid.cols as int, grid.rows as int);
        assert(i * grid.cols + j == idx);
        lemma_cell_bounds(idx, count, words);
        let cell = grid.poly(i, j);
        assert(cell_in_range(&grid.params, grid.ntt, cell));
        assert(cell[w] == grid.data[idx * words + w]);
    }
}

} // verus!
