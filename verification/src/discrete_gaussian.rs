//! A sampler of small signed noise values from a table of integer weights,
//! and matrices filled with such noise.

use vstd::prelude::*;
use vstd::arithmetic::div_mod::*;
use crate::params::{Params, sum};
use crate::poly::{Grid, PolyMatrix, PolyMatrixRaw, lemma_words_positive};
use crate::rng::draw_words;

verus! {

/// The least index from `i` on whose entry of `cumulative` exceeds `t`, or
/// the length if there is none.
pub open spec fn first_above(cumulative: Seq<u64>, t: int, i: int) -> int
    decreases cumulative.len() - i,
{
    if i < 0 || i >= cumulative.len() {
        cumulative.len() as int
    } else if t < cumulative[i] {
        i
    } else {
        first_above(cumulative, t, i + 1)
    }
}

/// The residue of the signed value `v` modulo `q`.
pub open spec fn noise_residue(v: i64, q: int) -> u64 {
    ((v as int) % q) as u64
}

/// The residue of the signed value `v` modulo `q`, in `[0, q)`.
pub fn noise_word(v: i64, q: u64) -> (w: u64)
    requires
        q > 0,
    ensures
        w == noise_residue(v, q as int),
        w < q,
{
    proof {
        lemma_mod_bound(v as int, q as int);
    }
    if v >= 0 {
        (v as u64) % q
    } else {
        let size: u64 = (-(v as i128)) as u64;
        let w: u64 = crate::arith::neg_mod(size, q);
        proof {
            // w < q and size + w is a multiple of q, and v == -size
            let k = (size + w) / (q as int);
            lemma_fundamental_div_mod(size + w, q as int);
            assert(size == -(v as int));
            assert(q * (-k) == -(q * k)) by (nonlinear_arith);
            assert(v == q * (-k) + w);
            lemma_fundamental_div_mod_converse(v as int, q as int, -k, w as int);
        }
        w
    }
}

/// A table-driven sampler: value `choices[i]` is drawn with a chance in
/// proportion to the weight that `cumulative` grows by at `i`.
pub struct DiscreteGaussian {
    /// The values that can be drawn.
    pub choices: Vec<i64>,
    /// Running totals of the weights of the values.
    pub cumulative: Vec<u64>,
    /// Where the randomness comes from.
    pub rng: rand::rngs::ThreadRng,
}

impl DiscreteGaussian {
    /// There is a value for each total, the totals do not fall, and some
    /// weight is positive.
    pub open spec fn wf(&self) -> bool {
        &&& self.choices@.len() == self.cumulative@.len()
        &&& self.cumulative@.len() >= 1
        &&& forall|i: int, j: int|
            0 <= i <= j < self.cumulative@.len() ==> self.cumulative@[i] <= self.cumulative@[j]
        &&& self.cumulative@[self.cumulative@.len() - 1] >= 1
    }

    /// The sum of all weights.
    pub open spec fn total(&self) -> int {
        self.cumulative@[self.cumulative@.len() - 1] as int
    }

    /// The value that the random word `draw` selects.
    pub open spec fn spec_pick(&self, draw: u64) -> i64 {
        self.choices@[first_above(self.cumulative@, (draw as int) % self.total(), 0)]
    }

    /// The words that the random words `draws` make: for each the value it
    /// selects, as a residue modulo `q`.
    pub open spec fn noise_data(&self, q: int, draws: Seq<u64>) -> Seq<u64> {
        Seq::new(draws.len(), |k: int| noise_residue(self.spec_pick(draws[k]), q))
    }

    /// A sampler of `choices[i]` with weight `weights[i]`. There is one
    /// exactly when there are as many weights as values, at least one, and
    /// the sum of the weights is positive and fits a word.
    pub fn init(choices: Vec<i64>, weights: &Vec<u64>) -> (r: Option<DiscreteGaussian>)
        ensures
            match r {
                Some(d) => d.wf() && d.choices == choices && d.cumulative@.len() == weights@.len()
                    && forall|i: int|
                    0 <= i < weights@.len() ==> #[trigger] d.cumulative@[i] == sum(
                        weights@,
                        (i + 1) as nat,
                    ),
                None => choices@.len() != weights@.len() || weights@.len() == 0 || sum(
                    weights@,
                    weights@.len(),
                ) == 0 || sum(weights@, weights@.len()) > u64::MAX,
            },
    {
        let len: usize = weights.len();
        if choices.len() != len || len == 0 {
            return None;
        }
        let mut cumulative: Vec<u64> = Vec::with_capacity(len);
        let mut acc: u64 = 0;
        let mut i: usize = 0;
        while i < len
            invariant
                len == weights@.len(),
                i <= len,
                cumulative@.len() == i,
                acc == sum(weights@, i as nat),
                forall|k: int|
                    0 <= k < i ==> #[trigger] cumulative@[k] == sum(weights@, (k + 1) as nat),
            decreases len - i,
        {
            match acc.checked_add(weights[i]) {
                Some(next) => {
                    acc = next;
                },
                None => {
                    proof {
                        lemma_sum_grows(weights@, (i + 1) as nat, len as nat);
                    }
                    return None;
                },
            }
            cumulative.push(acc);
            i += 1;
        }
        if acc == 0 {
            return None;
        }
        proof {
            assert forall|a: int, b: int| 0 <= a <= b < len implies cumulative@[a]
                <= cumulative@[b] by {
                lemma_sum_grows(weights@, (a + 1) as nat, (b + 1) as nat);
            }
        }
        let rng = rand::thread_rng();
        Some(DiscreteGaussian { choices, cumulative, rng })
    }

    /// The value that the random word `draw` selects: the first whose
    /// running total exceeds `draw` modulo the sum of all weights.
    pub fn pick(&self, draw: u64) -> (v: i64)
        requires
            self.wf(),
        ensures
            v == self.spec_pick(draw),
            exists|i: int| 0 <= i < self.choices@.len() && v == self.choices@[i],
    {
        let len: usize = self.cumulative.len();
        let t: u64 = draw % self.cumulative[len - 1];
        let mut i: usize = 0;
        while self.cumulative[i] <= t
            invariant
                self.wf(),
                len == self.cumulative@.len(),
                t < self.cumulative@[len - 1],
                i < len,
                first_above(self.cumulative@, t as int, 0) == first_above(
                    self.cumulative@,
                    t as int,
                    i as int,
                ),
            decreases len - i,
        {
            i += 1;
        }
        self.choices[i]
    }

    /// Draws one value.
    pub fn sample(&mut self) -> (v: i64)
        requires
            old(self).wf(),
        ensures
            final(self).wf(),
            final(self).choices == old(self).choices,
            final(self).cumulative == old(self).cumulative,
            exists|i: int| 0 <= i < old(self).choices@.len() && v == old(self).choices@[i],
    {
        let draw: u64 = crate::rng::next_word(&mut self.rng);
        self.pick(draw)
    }

    /// Writes over every word of `p` the value that the matching word of
    /// `draws` selects, as a residue of the full modulus.
    pub fn fill_noise(&self, p: &mut PolyMatrixRaw, draws: &Vec<u64>)
        requires
            self.wf(),
            old(p)@.wf(),
            draws@.len() == old(p)@.data.len(),
        ensures
            final(p)@ == (Grid {
                data: self.noise_data(old(p)@.params.modulus as int, draws@),
                ..old(p)@
            }),
            final(p)@.wf(),
            final(p)@.reduced(),
    {
        let q: u64 = p.params.modulus;
        let len: usize = draws.len();
        let ghost grid0 = p@;
        let words = p.as_mut_slice();
        let mut k: usize = 0;
        while k < len
            invariant
                self.wf(),
                q == grid0.params.modulus,
                q >= 2,
                len == draws@.len(),
                words@.len() == len,
                k <= len,
                forall|i: int|
                    0 <= i < k ==> #[trigger] words@[i] == self.noise_data(q as int, draws@)[i],
            decreases len - k,
        {
            words[k] = noise_word(self.pick(draws[k]), q);
            k += 1;
        }
        proof {
            assert(words@ =~= self.noise_data(q as int, draws@));
        }
    }

    /// Fills every word of `p` with a freshly drawn value, as a residue of
    /// the full modulus.
    pub fn sample_matrix(&mut self, p: &mut PolyMatrixRaw)
        requires
            old(self).wf(),
            old(p)@.wf(),
        ensures
            final(self).wf(),
            final(self).choices == old(self).choices,
            final(self).cumulative == old(self).cumulative,
            final(p)@.wf(),
            final(p)@.same_shape(old(p)@),
            final(p)@.reduced(),
            exists|draws: Seq<u64>|
                draws.len() == old(p)@.data.len() && final(p)@.data == #[trigger] old(self).noise_data(
                    old(p)@.params.modulus as int,
                    draws,
                ),
    {
        let len: usize = p.data.len();
        let draws: Vec<u64> = draw_words(&mut self.rng, len);
        self.fill_noise(p, &draws);
        proof {
            assert(p@.data == old(self).noise_data(old(p)@.params.modulus as int, draws@));
        }
    }
}

/// A running sum of weights does not fall.
pub proof fn lemma_sum_grows(s: Seq<u64>, k: nat, len: nat)
    requires
        k <= len <= s.len(),
    ensures
        sum(s, k) <= sum(s, len),
    decreases len - k,
{
    if k < len {
        lemma_sum_grows(s, k, (len - 1) as nat);
    }
}

impl<'a> PolyMatrixRaw<'a> {
    /// A matrix of coefficients of the given shape, every word drawn from `dg`.
    pub fn noise(params: &'a Params, rows: usize, cols: usize, dg: &mut DiscreteGaussian) -> (m:
        PolyMatrixRaw<'a>)
        requires
            params.wf(),
            rows * cols * params.poly_len <= usize::MAX,
            old(dg).wf(),
        ensures
            final(dg).wf(),
            final(dg).choices == old(dg).choices,
            final(dg).cumulative == old(dg).cumulative,
            m@.wf(),
            m@.params == *params,
            m@.rows == rows,
            m@.cols == cols,
            m@.reduced(),
            exists|draws: Seq<u64>|
                draws.len() == m@.data.len() && m@.data == #[trigger] old(dg).noise_data(
                    params.modulus as int,
                    draws,
                ),
    {
        let mut out = PolyMatrixRaw::zero(params, rows, cols);
        dg.sample_matrix(&mut out);
        out
    }
}

} // verus!
