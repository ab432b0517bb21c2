//! Arithmetic on single cells: the words of one ring element, handed over as
//! slices.

use vstd::prelude::*;
use vstd::arithmetic::div_mod::*;
use crate::params::Params;
use crate::arith::{multiply_modular, multiply_add_modular, add_modular, neg_mod};
use crate::ntt::{
    cell_reduced, lemma_forward_reduced, lemma_plane_bounds, lemma_plane_index, ntt_forward,
    ntt_inverse, spec_ntt_forward, spec_ntt_inverse,
};
use crate::poly::copy_words;
use crate::poly::{word_modulus, cell_words};

verus! {

/// Word by word product of two transformed cells, each word modulo the
/// prime of its plane.
pub open spec fn mul_cell(params: &Params, a: Seq<u64>, b: Seq<u64>) -> Seq<u64> {
    Seq::new(a.len(), |w: int| ((a[w] * b[w]) % word_modulus(params, true, w)) as u64)
}

/// Word by word `a * b + acc` of transformed cells.
pub open spec fn mul_add_cell(params: &Params, acc: Seq<u64>, a: Seq<u64>, b: Seq<u64>) -> Seq<
    u64,
> {
    Seq::new(acc.len(), |w: int| ((a[w] * b[w] + acc[w]) % word_modulus(params, true, w)) as u64)
}

/// Word by word sum of two transformed cells.
pub open spec fn add_cell(params: &Params, a: Seq<u64>, b: Seq<u64>) -> Seq<u64> {
    Seq::new(a.len(), |w: int| ((a[w] + b[w]) % word_modulus(params, true, w)) as u64)
}

/// Each word of a transformed cell reduced modulo the prime of its plane.
pub open spec fn reduce_cell(params: &Params, x: Seq<u64>) -> Seq<u64> {
    Seq::new(x.len(), |w: int| ((x[w] as int) % word_modulus(params, true, w)) as u64)
}

/// The additive inverse of `a` modulo `q`, as a residue in `[0, q)`.
pub open spec fn neg_word(a: u64, q: int) -> u64 {
    ((q - (a as int) % q) % q) as u64
}

/// The additive inverse of each coefficient modulo the full modulus.
pub open spec fn neg_cell(params: &Params, a: Seq<u64>) -> Seq<u64> {
    Seq::new(a.len(), |i: int| neg_word(a[i], params.modulus as int))
}

/// What four-lane multiply-accumulate leaves in each word: the product of
/// the low halves of the two factors, added to the accumulator with
/// wrap-around.
pub open spec fn lane_mul_add_cell(acc: Seq<u64>, a: Seq<u64>, b: Seq<u64>) -> Seq<u64> {
    Seq::new(
        acc.len(),
        |w: int|
            ((acc[w] + ((a[w] as int) % 0x1_0000_0000) * ((b[w] as int) % 0x1_0000_0000))
                % 0x1_0000_0000_0000_0000) as u64,
    )
}

/// Where coefficient `i` goes under `x -> x^t` in a ring of degree `n`.
pub open spec fn slot(i: int, t: int, n: int) -> int {
    (i * t) % n
}

/// Whether coefficient `i` changes sign under `x -> x^t`: `x^(i t)` wraps
/// around `x^n = -1` an odd number of times.
pub open spec fn flipped(i: int, t: int, n: int) -> bool {
    ((i * t) / n) % 2 == 1
}

/// The value that coefficient `i` of `a` contributes under `x -> x^t`.
pub open spec fn moved_word(params: &Params, a: Seq<u64>, t: int, i: int) -> u64 {
    if flipped(i, t, params.poly_len as int) {
        neg_word(a[i], params.modulus as int)
    } else {
        a[i]
    }
}

/// No coefficient after `i` and before `bound` goes where coefficient `i` goes.
pub open spec fn lands_last(i: int, t: int, n: int, bound: int) -> bool {
    forall|j: int| i < j < bound ==> #[trigger] slot(j, t, n) != slot(i, t, n)
}

/// No coefficient before `bound` goes to place `k`.
pub open spec fn untouched(k: int, t: int, n: int, bound: int) -> bool {
    forall|i: int| 0 <= i < bound ==> #[trigger] slot(i, t, n) != k
}

/// `out` is what `x -> x^t` makes of the coefficients `a` when written over
/// `prev`: each coefficient that no later one overwrites stands at its
/// place, with its sign, and the places that none goes to hold what `prev`
/// held.
pub open spec fn is_automorph(
    params: &Params,
    out: Seq<u64>,
    prev: Seq<u64>,
    a: Seq<u64>,
    t: int,
) -> bool {
    let n = params.poly_len as int;
    &&& out.len() == n
    &&& forall|i: int|
        0 <= i < n && lands_last(i, t, n, n) ==> out[#[trigger] slot(i, t, n)] == moved_word(
            params,
            a,
            t,
            i,
        )
    &&& forall|k: int| 0 <= k < n && #[trigger] untouched(k, t, n, n) ==> out[k] == prev[k]
}

/// The coefficients of a cell spread over the planes: word `z` of plane `c`
/// is coefficient `z` modulo prime `c`.
pub open spec fn spread_cell(params: &Params, raw: Seq<u64>) -> Seq<u64> {
    Seq::new(
        cell_words(params, true),
        |k: int|
            ((raw[k % (params.poly_len as int)] as int) % word_modulus(params, true, k)) as u64,
    )
}

/// The transformed form of a cell of coefficients.
pub open spec fn to_ntt_cell(params: &Params, raw: Seq<u64>) -> Seq<u64> {
    spec_ntt_forward(params, spread_cell(params, raw))
}

/// The coefficients of a transformed cell: the planes transformed back and
/// the words at each place recombined.
pub open spec fn from_ntt_cell(params: &Params, x: Seq<u64>) -> Seq<u64> {
    Seq::new(
        params.poly_len as nat,
        |z: int| params.crt_value(params.residues_at(spec_ntt_inverse(params, x), z)) as u64,
    )
}

/// Multiplies two transformed cells word by word into `res`.
pub fn multiply_poly(params: &Params, res: &mut [u64], a: &[u64], b: &[u64])
    requires
        params.wf(),
        old(res)@.len() == cell_words(params, true),
        a@.len() == cell_words(params, true),
        b@.len() == cell_words(params, true),
    ensures
        final(res)@ == mul_cell(params, a@, b@),
{
    let n: usize = params.poly_len;
    let mut c: usize = 0;
    while c < params.crt_count
        invariant
            params.wf(),
            n == params.poly_len,
            c <= params.crt_count,
            res@.len() == n * params.crt_count,
            a@.len() == n * params.crt_count,
            b@.len() == n * params.crt_count,
            forall|w: int| 0 <= w < c * n ==> #[trigger] res@[w] == mul_cell(params, a@, b@)[w],
        decreases params.crt_count - c,
    {
        proof {
            lemma_plane_bounds(c as int, n as int, params.crt_count as int);
        }
        let mut i: usize = 0;
        while i < n
            invariant
                params.wf(),
                n == params.poly_len,
                c < params.crt_count,
                i <= n,
                0 <= c * n,
                c * n + n <= n * params.crt_count,
                res@.len() == n * params.crt_count,
                a@.len() == n * params.crt_count,
                b@.len() == n * params.crt_count,
                forall|w: int|
                    0 <= w < c * n + i ==> #[trigger] res@[w] == mul_cell(params, a@, b@)[w],
            decreases n - i,
        {
            proof {
                lemma_plane_index(c as int, n as int, i as int);
            }
            let idx: usize = c * n + i;
            res[idx] = multiply_modular(params, a[idx], b[idx], c);
            i += 1;
        }
        c += 1;
    }
    proof {
        assert(params.crt_count * n == n * params.crt_count) by (nonlinear_arith);
        assert(res@ =~= mul_cell(params, a@, b@));
    }
}

/// Adds the word by word product of two transformed cells to `res`.
pub fn multiply_add_poly(params: &Params, res: &mut [u64], a: &[u64], b: &[u64])
    requires
        params.wf(),
        old(res)@.len() == cell_words(params, true),
        a@.len() == cell_words(params, true),
        b@.len() == cell_words(params, true),
    ensures
        final(res)@ == mul_add_cell(params, old(res)@, a@, b@),
{
    let ghost acc = res@;
    let n: usize = params.poly_len;
    let mut c: usize = 0;
    while c < params.crt_count
        invariant
            params.wf(),
            n == params.poly_len,
            c <= params.crt_count,
            res@.len() == n * params.crt_count,
            acc.len() == n * params.crt_count,
            a@.len() == n * params.crt_count,
            b@.len() == n * params.crt_count,
            forall|w: int|
                0 <= w < c * n ==> #[trigger] res@[w] == mul_add_cell(params, acc, a@, b@)[w],
            forall|w: int| c * n <= w < res@.len() ==> #[trigger] res@[w] == acc[w],
        decreases params.crt_count - c,
    {
        proof {
            lemma_plane_bounds(c as int, n as int, params.crt_count as int);
        }
        let mut i: usize = 0;
        while i < n
            invariant
                params.wf(),
                n == params.poly_len,
                c < params.crt_count,
                i <= n,
                0 <= c * n,
                c * n + n <= n * params.crt_count,
                res@.len() == n * params.crt_count,
                acc.len() == n * params.crt_count,
                a@.len() == n * params.crt_count,
                b@.len() == n * params.crt_count,
                forall|w: int|
                    0 <= w < c * n + i ==> #[trigger] res@[w] == mul_add_cell(
                        params,
                        acc,
                        a@,
                        b@,
                    )[w],
                forall|w: int| c * n + i <= w < res@.len() ==> #[trigger] res@[w] == acc[w],
            decreases n - i,
        {
            proof {
                lemma_plane_index(c as int, n as int, i as int);
            }
            let idx: usize = c * n + i;
            res[idx] = multiply_add_modular(params, a[idx], b[idx], res[idx], c);
            i += 1;
        }
        c += 1;
    }
    proof {
        assert(params.crt_count * n == n * params.crt_count) by (nonlinear_arith);
        assert(res@ =~= mul_add_cell(params, acc, a@, b@));
    }
}

/// Adds two transformed cells word by word into `res`.
pub fn add_poly(params: &Params, res: &mut [u64], a: &[u64], b: &[u64])
    requires
        params.wf(),
        old(res)@.len() == cell_words(params, true),
        a@.len() == cell_words(params, true),
        b@.len() == cell_words(params, true),
    ensures
        final(res)@ == add_cell(params, a@, b@),
{
    let n: usize = params.poly_len;
    let mut c: usize = 0;
    while c < params.crt_count
        invariant
            params.wf(),
            n == params.poly_len,
            c <= params.crt_count,
            res@.len() == n * params.crt_count,
            a@.len() == n * params.crt_count,
            b@.len() == n * params.crt_count,
            forall|w: int| 0 <= w < c * n ==> #[trigger] res@[w] == add_cell(params, a@, b@)[w],
        decreases params.crt_count - c,
    {
        proof {
            lemma_plane_bounds(c as int, n as int, params.crt_count as int);
        }
        let mut i: usize = 0;
        while i < n
            invariant
                params.wf(),
                n == params.poly_len,
                c < params.crt_count,
                i <= n,
                0 <= c * n,
                c * n + n <= n * params.crt_count,
                res@.len() == n * params.crt_count,
                a@.len() == n * params.crt_count,
                b@.len() == n * params.crt_count,
                forall|w: int|
                    0 <= w < c * n + i ==> #[trigger] res@[w] == add_cell(params, a@, b@)[w],
            decreases n - i,
        {
            proof {
                lemma_plane_index(c as int, n as int, i as int);
            }
            let idx: usize = c * n + i;
            res[idx] = add_modular(params, a[idx], b[idx], c);
            i += 1;
        }
        c += 1;
    }
    proof {
        assert(params.crt_count * n == n * params.crt_count) by (nonlinear_arith);
        assert(res@ =~= add_cell(params, a@, b@));
    }
}

/// Reduces every word of an accumulated transformed cell modulo the prime
/// of its plane.
pub fn modular_reduce(params: &Params, res: &mut [u64])
    requires
        params.wf(),
        old(res)@.len() == cell_words(params, true),
    ensures
        final(res)@ == reduce_cell(params, old(res)@),
{
    let ghost x0 = res@;
    let n: usize = params.poly_len;
    let mut c: usize = 0;
    while c < params.crt_count
        invariant
            params.wf(),
            n == params.poly_len,
            c <= params.crt_count,
            res@.len() == n * params.crt_count,
            x0.len() == n * params.crt_count,
            forall|w: int| 0 <= w < c * n ==> #[trigger] res@[w] == reduce_cell(params, x0)[w],
            forall|w: int| c * n <= w < res@.len() ==> #[trigger] res@[w] == x0[w],
        decreases params.crt_count - c,
    {
        proof {
            lemma_plane_bounds(c as int, n as int, params.crt_count as int);
            assert(params.plane_ok(c as int));
        }
        let p: u64 = params.moduli[c];
        let mut i: usize = 0;
        while i < n
            invariant
                params.wf(),
                n == params.poly_len,
                c < params.crt_count,
                p == params.prime(c as int),
                p >= 2,
                i <= n,
                0 <= c * n,
                c * n + n <= n * params.crt_count,
                res@.len() == n * params.crt_count,
                x0.len() == n * params.crt_count,
                forall|w: int|
                    0 <= w < c * n + i ==> #[trigger] res@[w] == reduce_cell(params, x0)[w],
                forall|w: int| c * n + i <= w < res@.len() ==> #[trigger] res@[w] == x0[w],
            decreases n - i,
        {
            proof {
                lemma_plane_index(c as int, n as int, i as int);
            }
            let idx: usize = c * n + i;
            res[idx] = res[idx] % p;
            i += 1;
        }
        c += 1;
    }
    proof {
        assert(params.crt_count * n == n * params.crt_count) by (nonlinear_arith);
        assert(res@ =~= reduce_cell(params, x0));
    }
}

/// Multiply-accumulate without reduction, as a four-lane vector unit does
/// it: each word of `res` grows by the product of the low 32 bits of the
/// words of `a` and `b`, wrapping at 64 bits. `modular_reduce` finishes the
/// job as long as no sum has wrapped.
pub fn multiply_add_poly_avx(params: &Params, res: &mut [u64], a: &[u64], b: &[u64])
    requires
        params.wf(),
        old(res)@.len() == cell_words(params, true),
        a@.len() == cell_words(params, true),
        b@.len() == cell_words(params, true),
    ensures
        final(res)@ == lane_mul_add_cell(old(res)@, a@, b@),
{
    let ghost acc = res@;
    let n: usize = params.poly_len;
    let mut c: usize = 0;
    while c < params.crt_count
        invariant
            params.wf(),
            n == params.poly_len,
            c <= params.crt_count,
            res@.len() == n * params.crt_count,
            acc.len() == n * params.crt_count,
            a@.len() == n * params.crt_count,
            b@.len() == n * params.crt_count,
            forall|w: int|
                0 <= w < c * n ==> #[trigger] res@[w] == lane_mul_add_cell(acc, a@, b@)[w],
            forall|w: int| c * n <= w < res@.len() ==> #[trigger] res@[w] == acc[w],
        decreases params.crt_count - c,
    {
        proof {
            lemma_plane_bounds(c as int, n as int, params.crt_count as int);
        }
        let mut i: usize = 0;
        while i < n
            invariant
                params.wf(),
                n == params.poly_len,
                c < params.crt_count,
                i <= n,
                0 <= c * n,
                c * n + n <= n * params.crt_count,
                res@.len() == n * params.crt_count,
                acc.len() == n * params.crt_count,
                a@.len() == n * params.crt_count,
                b@.len() == n * params.crt_count,
                forall|w: int|
                    0 <= w < c * n + i ==> #[trigger] res@[w] == lane_mul_add_cell(acc, a@, b@)[w],
                forall|w: int| c * n + i <= w < res@.len() ==> #[trigger] res@[w] == acc[w],
            decreases n - i,
        {
            let idx: usize = c * n + i;
            let x: u64 = a[idx] % 0x1_0000_0000;
            let y: u64 = b[idx] % 0x1_0000_0000;
            assert(x * y <= 0xffff_ffff * 0xffff_ffff) by (nonlinear_arith)
                requires
                    x <= 0xffff_ffff,
                    y <= 0xffff_ffff,
            ;
            let product: u64 = x * y;
            let wide: u128 = (res[idx] as u128) + (product as u128);
            res[idx] = (wide % 0x1_0000_0000_0000_0000u128) as u64;
            i += 1;
        }
        c += 1;
    }
    proof {
        assert(params.crt_count * n == n * params.crt_count) by (nonlinear_arith);
        assert(res@ =~= lane_mul_add_cell(acc, a@, b@));
    }
}

/// Negates every coefficient of a cell modulo the full modulus; zero stays
/// zero.
pub fn invert_poly(params: &Params, res: &mut [u64], a: &[u64])
    requires
        params.wf(),
        old(res)@.len() == params.poly_len,
        a@.len() == params.poly_len,
    ensures
        final(res)@ == neg_cell(params, a@),
{
    let n: usize = params.poly_len;
    let mut i: usize = 0;
    while i < n
        invariant
            params.wf(),
            n == params.poly_len,
            i <= n,
            res@.len() == n,
            a@.len() == n,
            forall|k: int| 0 <= k < i ==> #[trigger] res@[k] == neg_cell(params, a@)[k],
        decreases n - i,
    {
        res[i] = neg_mod(a[i], params.modulus);
        i += 1;
    }
    assert(res@ =~= neg_cell(params, a@));
}

/// Applies `x -> x^t` to the coefficients of a cell: coefficient `i` of `a`
/// goes to place `(i * t) mod n`, negated when `floor(i * t / n)` is odd.
/// Where several coefficients go to one place the last one stays; places
/// that none goes to keep what `res` held.
pub fn automorph_poly(params: &Params, res: &mut [u64], a: &[u64], t: usize)
    requires
        params.wf(),
        old(res)@.len() == params.poly_len,
        a@.len() == params.poly_len,
    ensures
        is_automorph(params, final(res)@, old(res)@, a@, t as int),
        t == 1 ==> final(res)@ == a@,
{
    let ghost res0 = res@;
    let n: usize = params.poly_len;
    let mut i: usize = 0;
    while i < n
        invariant
            params.wf(),
            n == params.poly_len,
            i <= n,
            res@.len() == n,
            res0.len() == n,
            a@.len() == n,
            forall|j: int|
                0 <= j < i && lands_last(j, t as int, n as int, i as int) ==> res@[#[trigger] slot(
                    j,
                    t as int,
                    n as int,
                )] == moved_word(params, a@, t as int, j),
            forall|k: int|
                0 <= k < n && #[trigger] untouched(k, t as int, n as int, i as int) ==> res@[k]
                    == res0[k],
            t == 1 ==> forall|j: int| 0 <= j < i ==> #[trigger] res@[j] == a@[j],
        decreases n - i,
    {
        assert((i as u128) * (t as u128) <= 0xffff_ffff_ffff_ffff * 0xffff_ffff_ffff_ffff)
            by (nonlinear_arith)
            requires
                i <= 0xffff_ffff_ffff_ffff,
                t <= 0xffff_ffff_ffff_ffff,
        ;
        let power: u128 = (i as u128) * (t as u128);
        let num: u128 = power / (n as u128);
        let rem: usize = (power % (n as u128)) as usize;
        let ghost prev = res@;
        if num % 2 == 0 {
            res[rem] = a[i];
        } else {
            res[rem] = neg_mod(a[i], params.modulus);
        }
        proof {
            assert(rem == slot(i as int, t as int, n as int));
            assert(res@[rem as int] == moved_word(params, a@, t as int, i as int));
            assert forall|j: int|
                0 <= j < i + 1 && lands_last(j, t as int, n as int, i + 1) implies res@[#[trigger] slot(
                j,
                t as int,
                n as int,
            )] == moved_word(params, a@, t as int, j) by {
                if j < i {
                    assert(slot(i as int, t as int, n as int) != slot(j, t as int, n as int));
                    assert(lands_last(j, t as int, n as int, i as int));
                    lemma_mod_bound(j * t, n as int);
                }
            }
            assert forall|k: int|
                0 <= k < n && #[trigger] untouched(k, t as int, n as int, i + 1) implies res@[k]
                == res0[k] by {
                assert(slot(i as int, t as int, n as int) != k);
                assert(untouched(k, t as int, n as int, i as int));
            }
            if t == 1 {
                assert(i * 1 == i);
                lemma_small_mod(i as nat, n as nat);
                lemma_basic_div(i as int, n as int);
            }
        }
        i += 1;
    }
    proof {
        if t == 1 {
            assert(res@ =~= a@);
        }
    }
}

/// Brings a cell of coefficients into transformed form: the coefficients
/// are reduced modulo each prime into the planes of `dst`, and `dst` is
/// transformed forward.
pub fn to_ntt_poly(params: &Params, dst: &mut [u64], src: &[u64])
    requires
        params.wf(),
        old(dst)@.len() == cell_words(params, true),
        src@.len() == params.poly_len,
    ensures
        final(dst)@ == to_ntt_cell(params, src@),
        cell_reduced(params, final(dst)@),
{
    let n: usize = params.poly_len;
    let mut c: usize = 0;
    while c < params.crt_count
        invariant
            params.wf(),
            n == params.poly_len,
            c <= params.crt_count,
            dst@.len() == n * params.crt_count,
            src@.len() == n,
            forall|w: int| 0 <= w < c * n ==> #[trigger] dst@[w] == spread_cell(params, src@)[w],
        decreases params.crt_count - c,
    {
        proof {
            lemma_plane_bounds(c as int, n as int, params.crt_count as int);
            assert(params.plane_ok(c as int));
        }
        let p: u64 = params.moduli[c];
        let mut z: usize = 0;
        while z < n
            invariant
                params.wf(),
                n == params.poly_len,
                c < params.crt_count,
                p == params.prime(c as int),
                p >= 2,
                z <= n,
                0 <= c * n,
                c * n + n <= n * params.crt_count,
                dst@.len() == n * params.crt_count,
                src@.len() == n,
                forall|w: int|
                    0 <= w < c * n + z ==> #[trigger] dst@[w] == spread_cell(params, src@)[w],
            decreases n - z,
        {
            proof {
                lemma_plane_index(c as int, n as int, z as int);
            }
            dst[c * n + z] = src[z] % p;
            z += 1;
        }
        c += 1;
    }
    proof {
        assert(params.crt_count * n == n * params.crt_count) by (nonlinear_arith);
        assert(dst@ =~= spread_cell(params, src@));
        lemma_spread_reduced(params, src@);
        lemma_forward_reduced(params, spread_cell(params, src@));
    }
    ntt_forward(params, dst);
}

/// The spread of a cell of coefficients has the size of a transformed cell
/// and every word below the prime of its plane.
pub proof fn lemma_spread_reduced(params: &Params, raw: Seq<u64>)
    requires
        params.wf(),
        raw.len() == params.poly_len,
    ensures
        spread_cell(params, raw).len() == params.poly_len * params.crt_count,
        cell_reduced(params, spread_cell(params, raw)),
{
    let s = spread_cell(params, raw);
    let n = params.poly_len as int;
    assert forall|k: int| 0 <= k < s.len() implies (#[trigger] s[k]) < params.prime(k / n) by {
        crate::poly::lemma_word_modulus(params, true, k);
        lemma_mod_bound(raw[k % n] as int, word_modulus(params, true, k));
    }
}

/// Brings a transformed cell back into coefficients. `scratch` is working
/// space of the size of a transformed cell; what it held does not matter.
pub fn from_ntt_poly(params: &Params, dst: &mut [u64], src: &[u64], scratch: &mut [u64])
    requires
        params.wf(),
        old(dst)@.len() == params.poly_len,
        src@.len() == cell_words(params, true),
        old(scratch)@.len() == cell_words(params, true),
    ensures
        final(dst)@ == from_ntt_cell(params, src@),
        forall|z: int| 0 <= z < params.poly_len ==> (#[trigger] final(dst)@[z]) < params.modulus,
        final(scratch)@.len() == old(scratch)@.len(),
{
    let n: usize = params.poly_len;
    copy_words(scratch, src);
    ntt_inverse(params, scratch);
    let mut z: usize = 0;
    while z < n
        invariant
            params.wf(),
            n == params.poly_len,
            z <= n,
            dst@.len() == n,
            scratch@ == spec_ntt_inverse(params, src@),
            scratch@.len() == n * params.crt_count,
            forall|k: int| 0 <= k < z ==> #[trigger] dst@[k] == from_ntt_cell(params, src@)[k],
            forall|k: int| 0 <= k < z ==> (#[trigger] dst@[k]) < params.modulus,
        decreases n - z,
    {
        dst[z] = params.crt_compose_at(scratch, z);
        z += 1;
    }
    assert(dst@ =~= from_ntt_cell(params, src@));
}

} // verus!
