//! The parameter set that every matrix of the ring refers to: ring degree,
//! the word-sized primes, their product, the butterfly tables of the
//! transform and the basis used to recombine residues.

use vstd::prelude::*;
use vstd::arithmetic::div_mod::*;
use vstd::arithmetic::mul::*;

verus! {

/// `n` is a power of two (1, 2, 4, ...).
pub open spec fn is_pow2(n: nat) -> bool
    decreases n,
{
    n == 1 || (n >= 2 && n % 2 == 0 && is_pow2(n / 2))
}

/// Product of the first `k` entries of `s`.
pub open spec fn product(s: Seq<u64>, k: nat) -> nat
    decreases k,
{
    if k == 0 {
        1
    } else {
        product(s, (k - 1) as nat) * (s[k - 1] as nat)
    }
}

/// Sum of the first `k` entries of `s`.
pub open spec fn sum(s: Seq<u64>, k: nat) -> nat
    decreases k,
{
    if k == 0 {
        0
    } else {
        sum(s, (k - 1) as nat) + (s[k - 1] as nat)
    }
}

/// `residues[0] * basis[0] + ... + residues[k-1] * basis[k-1]`.
pub open spec fn weighted_sum(basis: Seq<u64>, residues: Seq<u64>, k: nat) -> nat
    decreases k,
{
    if k == 0 {
        0
    } else {
        weighted_sum(basis, residues, (k - 1) as nat) + (residues[k - 1] as nat) * (
        basis[k - 1] as nat)
    }
}

/// Ring degree, primes and precomputed tables shared by all matrices of one
/// ring. The fields are public so that a parameter set can be written down;
/// `wf` says which sets are usable and `Params::new` admits exactly those.
pub struct Params {
    /// Ring degree `n`, a power of two.
    pub poly_len: usize,
    /// Number of primes the modulus is split over.
    pub crt_count: usize,
    /// The primes, in plane order.
    pub moduli: Vec<u64>,
    /// The full modulus `q`, the product of `moduli`.
    pub modulus: u64,
    /// Per plane, the butterfly multipliers of the forward transform; entry
    /// `m + i` serves group `i` of the layer that has `m` groups.
    pub forward_roots: Vec<Vec<u64>>,
    /// Per plane, for each forward multiplier `w` the value `(2w)^-1`.
    pub inverse_roots: Vec<Vec<u64>>,
    /// Per plane, the inverse of two.
    pub halves: Vec<u64>,
    /// Per plane `i`, a value that is 1 modulo prime `i` and 0 modulo the others.
    pub crt_basis: Vec<u64>,
}

impl Params {
    /// The prime of plane `c`.
    pub open spec fn prime(&self, c: int) -> int {
        self.moduli@[c] as int
    }

    /// Forward multiplier `k` of plane `c`.
    pub open spec fn fwd_root(&self, c: int, k: int) -> int {
        self.forward_roots@[c]@[k] as int
    }

    /// Inverse multiplier `k` of plane `c`.
    pub open spec fn inv_root(&self, c: int, k: int) -> int {
        self.inverse_roots@[c]@[k] as int
    }

    /// Inverse multiplier `k` of plane `c` undoes forward multiplier `k` and a doubling.
    pub open spec fn pair_ok(&self, c: int, k: int) -> bool {
        (2 * (self.fwd_root(c, k) * self.inv_root(c, k))) % self.prime(c) == 1
    }

    /// Basis element `j` is 1 modulo its own prime and 0 modulo prime `c`, `c != j`.
    pub open spec fn basis_ok(&self, c: int, j: int) -> bool {
        (self.crt_basis@[j] as int) % self.prime(c) == (if c == j {
            1int
        } else {
            0int
        })
    }

    /// Everything that is asked of plane `c`.
    pub open spec fn plane_ok(&self, c: int) -> bool {
        &&& self.prime(c) >= 2
        &&& self.forward_roots@[c]@.len() == self.poly_len
        &&& self.inverse_roots@[c]@.len() == self.poly_len
        &&& (2 * self.halves@[c]) % self.prime(c) == 1
        &&& forall|k: int| 1 <= k < self.poly_len ==> #[trigger] self.pair_ok(c, k)
        &&& self.crt_basis@[c] < self.modulus
        &&& (self.prime(c) * self.crt_basis@[c]) % (self.modulus as int) == 0
        &&& forall|j: int| 0 <= j < self.crt_count ==> #[trigger] self.basis_ok(c, j)
    }

    /// The sizes agree, the degree is a power of two and a cell of either
    /// kind can be indexed.
    pub open spec fn shape_ok(&self) -> bool {
        &&& self.poly_len >= 1
        &&& is_pow2(self.poly_len as nat)
        &&& self.crt_count >= 1
        &&& self.poly_len * self.crt_count <= usize::MAX
        &&& self.moduli@.len() == self.crt_count
        &&& self.forward_roots@.len() == self.crt_count
        &&& self.inverse_roots@.len() == self.crt_count
        &&& self.halves@.len() == self.crt_count
        &&& self.crt_basis@.len() == self.crt_count
    }

    /// A usable parameter set.
    pub open spec fn wf(&self) -> bool {
        &&& self.shape_ok()
        &&& self.modulus >= 2
        &&& product(self.moduli@, self.crt_count as nat) == self.modulus
        &&& sum(self.crt_basis@, self.crt_count as nat) % (self.modulus as nat) == 1
        &&& forall|c: int| 0 <= c < self.crt_count ==> #[trigger] self.plane_ok(c)
    }

    /// The value that the residues `residues[i]` modulo prime `i` recombine to.
    pub open spec fn crt_value(&self, residues: Seq<u64>) -> nat {
        weighted_sum(self.crt_basis@, residues, self.crt_count as nat) % (self.modulus as nat)
    }
}

impl Params {
    /// The words at place `z` of each plane of a cell, in plane order.
    pub open spec fn residues_at(&self, cell: Seq<u64>, z: int) -> Seq<u64> {
        Seq::new(self.crt_count as nat, |c: int| cell[c * self.poly_len + z])
    }

    /// Recombines the words at place `z` of the planes of a cell into one
    /// value modulo the full modulus.
    pub fn crt_compose_at(&self, cell: &[u64], z: usize) -> (r: u64)
        requires
            self.wf(),
            cell@.len() == self.poly_len * self.crt_count,
            z < self.poly_len,
        ensures
            r == self.crt_value(self.residues_at(cell@, z as int)),
            r < self.modulus,
    {
        let ghost residues = self.residues_at(cell@, z as int);
        let n: usize = self.poly_len;
        let q: u64 = self.modulus;
        let mut acc: u64 = 0;
        let mut c: usize = 0;
        proof {
            lemma_small_mod(0, q as nat);
        }
        while c < self.crt_count
            invariant
                self.wf(),
                n == self.poly_len,
                q == self.modulus,
                z < n,
                cell@.len() == n * self.crt_count,
                residues == self.residues_at(cell@, z as int),
                c <= self.crt_count,
                acc == weighted_sum(self.crt_basis@, residues, c as nat) % (q as nat),
                acc < q,
            decreases self.crt_count - c,
        {
            proof {
                assert(0 <= c * n && c * n + n <= n * self.crt_count) by (nonlinear_arith)
                    requires
                        0 <= c < self.crt_count,
                        n >= 0,
                ;
            }
            let x: u64 = cell[c * n + z];
            let e: u64 = self.crt_basis[c];
            assert((x as u128) * (e as u128) <= 0xffff_ffff_ffff_ffff * 0xffff_ffff_ffff_ffff)
                by (nonlinear_arith);
            let wide: u128 = (acc as u128) + (x as u128) * (e as u128);
            proof {
                let w = weighted_sum(self.crt_basis@, residues, c as nat) as int;
                assert(residues[c as int] == x);
                lemma_add_mod_noop(w, x * e, q as int);
                lemma_add_mod_noop(w % (q as int), x * e, q as int);
                lemma_mod_twice(w, q as int);
                lemma_mod_bound(wide as int, q as int);
            }
            acc = (wide % (q as u128)) as u64;
            c += 1;
        }
        acc
    }

    /// Recombines a residue modulo the first prime and one modulo the second.
    pub fn crt_compose_2(&self, x: u64, y: u64) -> (r: u64)
        requires
            self.wf(),
            self.crt_count == 2,
        ensures
            r == self.crt_value(seq![x, y]),
            r < self.modulus,
            r % self.moduli@[0] == x % self.moduli@[0],
            r % self.moduli@[1] == y % self.moduli@[1],
    {
        let q: u64 = self.modulus;
        let e0: u64 = self.crt_basis[0];
        let e1: u64 = self.crt_basis[1];
        assert((x as u128) * (e0 as u128) <= 0xffff_ffff_ffff_ffff * 0xffff_ffff_ffff_ffff)
            by (nonlinear_arith);
        assert((y as u128) * (e1 as u128) <= 0xffff_ffff_ffff_ffff * 0xffff_ffff_ffff_ffff)
            by (nonlinear_arith);
        let first: u128 = ((x as u128) * (e0 as u128)) % (q as u128);
        let wide: u128 = first + (y as u128) * (e1 as u128);
        proof {
            let residues = seq![x, y];
            assert(weighted_sum(self.crt_basis@, residues, 0) == 0);
            assert(weighted_sum(self.crt_basis@, residues, 1) == x * e0);
            assert(weighted_sum(self.crt_basis@, residues, 2) == x * e0 + y * e1);
            lemma_add_mod_noop(x * e0, y * e1, q as int);
            lemma_add_mod_noop((x * e0) % (q as int), y * e1, q as int);
            lemma_mod_twice(x * e0, q as int);
            lemma_mod_bound(wide as int, q as int);
            lemma_crt_residues(self, residues, 0);
            lemma_crt_residues(self, residues, 1);
        }
        (wide % (q as u128)) as u64
    }
}

/// Each of the first `k` entries divides their product, and the product is positive
/// when the entries are.
pub proof fn lemma_product_divides(s: Seq<u64>, k: nat, i: int)
    requires
        0 <= i < k <= s.len(),
        forall|j: int| 0 <= j < k ==> #[trigger] s[j] > 0,
    ensures
        product(s, k) > 0,
        product(s, k) == (s[i] as nat) * (product(s, k) / (s[i] as nat)),
        product(s, k) / (s[i] as nat) > 0,
    decreases k,
{
    lemma_product_positive(s, (k - 1) as nat);
    let rest = product(s, (k - 1) as nat);
    let last = s[k - 1] as nat;
    let d = s[i] as nat;
    assert(rest * last > 0) by (nonlinear_arith)
        requires
            rest > 0,
            last > 0,
    ;
    if i == k - 1 {
        lemma_div_multiples_vanish(rest as int, d as int);
        assert(rest * last == d * rest) by (nonlinear_arith)
            requires
                last == d,
        ;
        assert((d * rest) / d == rest) by {
            lemma_div_multiples_vanish(rest as int, d as int);
        }
    } else {
        lemma_product_divides(s, (k - 1) as nat, i);
        let b = rest / d;
        assert(rest * last == d * (b * last)) by (nonlinear_arith)
            requires
                rest == d * b,
        ;
        lemma_div_multiples_vanish((b * last) as int, d as int);
        assert(b * last > 0) by (nonlinear_arith)
            requires
                b > 0,
                last > 0,
        ;
    }
}

/// A product of positive entries is positive.
pub proof fn lemma_product_positive(s: Seq<u64>, k: nat)
    requires
        k <= s.len(),
        forall|j: int| 0 <= j < k ==> #[trigger] s[j] > 0,
    ensures
        product(s, k) > 0,
    decreases k,
{
    if k > 0 {
        lemma_product_positive(s, (k - 1) as nat);
        let rest = product(s, (k - 1) as nat);
        let last = s[k - 1] as nat;
        assert(rest * last > 0) by (nonlinear_arith)
            requires
                rest > 0,
                last > 0,
        ;
    }
}

/// Modulo prime `i`, the first `k` terms of the recombination sum amount to
/// residue `i` once term `i` is among them, and to nothing before.
pub proof fn lemma_weighted_sum_mod(params: &Params, residues: Seq<u64>, i: int, k: nat)
    requires
        params.wf(),
        residues.len() == params.crt_count,
        0 <= i < params.crt_count,
        k <= params.crt_count,
    ensures
        weighted_sum(params.crt_basis@, residues, k) % (params.prime(i) as nat) == (if i < k {
            residues[i] % params.moduli@[i]
        } else {
            0
        }),
    decreases k,
{
    let p = params.prime(i);
    assert(params.plane_ok(i));
    if k == 0 {
        lemma_small_mod(0, p as nat);
    } else {
        lemma_weighted_sum_mod(params, residues, i, (k - 1) as nat);
        let w = weighted_sum(params.crt_basis@, residues, (k - 1) as nat) as int;
        let x = residues[k - 1] as int;
        let e = params.crt_basis@[k - 1] as int;
        assert(params.basis_ok(i, k - 1));
        lemma_add_mod_noop(w, x * e, p);
        lemma_mul_mod_noop_general(x, e, p);
        if i == k - 1 {
            assert(x * 1 == x);
            assert((x * e) % p == x % p);
            lemma_mod_twice(x, p);
            lemma_small_mod(0, p as nat);
        } else {
            assert(x * 0 == 0);
            lemma_small_mod(0, p as nat);
            assert((x * e) % p == 0);
            lemma_mod_twice(w, p);
        }
    }
}

/// The recombined value lies below the modulus and leaves residue `i` modulo prime `i`.
pub proof fn lemma_crt_residues(params: &Params, residues: Seq<u64>, i: int)
    requires
        params.wf(),
        residues.len() == params.crt_count,
        0 <= i < params.crt_count,
    ensures
        params.crt_value(residues) < params.modulus,
        params.crt_value(residues) % (params.prime(i) as nat) == residues[i] % params.moduli@[i],
{
    let q = params.modulus as int;
    let p = params.prime(i);
    let w = weighted_sum(params.crt_basis@, residues, params.crt_count as nat) as int;
    lemma_mod_bound(w, q);
    assert forall|j: int| 0 <= j < params.crt_count implies #[trigger] params.moduli@[j] > 0 by {
        assert(params.plane_ok(j));
    }
    lemma_product_divides(params.moduli@, params.crt_count as nat, i);
    let b = q / p;
    assert(q == p * b);
    lemma_mod_mod(w, p, b);
    lemma_weighted_sum_mod(params, residues, i, params.crt_count as nat);
}

/// Modulo the full modulus, the first `k` terms of the recombination sum of the
/// residues of `a` amount to `a` times the sum of the first `k` basis entries.
pub proof fn lemma_weighted_sum_of_reductions(params: &Params, a: nat, residues: Seq<u64>, k: nat)
    requires
        params.wf(),
        residues.len() == params.crt_count,
        forall|i: int|
            0 <= i < params.crt_count ==> #[trigger] residues[i] == a % (params.prime(i) as nat),
        k <= params.crt_count,
    ensures
        weighted_sum(params.crt_basis@, residues, k) % (params.modulus as nat) == (a * sum(
            params.crt_basis@,
            k,
        )) % (params.modulus as nat),
    decreases k,
{
    let q = params.modulus as int;
    if k == 0 {
        assert(a * 0 == 0);
    } else {
        lemma_weighted_sum_of_reductions(params, a, residues, (k - 1) as nat);
        let i = k - 1;
        assert(params.plane_ok(i));
        let p = params.prime(i);
        let w = weighted_sum(params.crt_basis@, residues, (k - 1) as nat) as int;
        let s = sum(params.crt_basis@, (k - 1) as nat) as int;
        let x = residues[i] as int;
        let e = params.crt_basis@[i] as int;
        let d = (a as int) / p;
        lemma_fundamental_div_mod(a as int, p);
        // a * e == d * (p * e) + x * e, and p * e vanishes modulo q
        assert(a * e == (p * e) * d + x * e) by (nonlinear_arith)
            requires
                a == p * d + x,
        ;
        lemma_mul_mod_noop_general(p * e, d, q);
        assert(0 * d == 0);
        lemma_small_mod(0, q as nat);
        assert(((p * e) * d) % q == 0);
        lemma_add_mod_noop((p * e) * d, x * e, q);
        lemma_mod_twice(x * e, q);
        assert((a * e) % q == (x * e) % q);
        lemma_add_mod_noop(w, x * e, q);
        lemma_add_mod_noop(a * s, a * e, q);
        assert(a * (s + e) == a * s + a * e) by (nonlinear_arith);
    }
}

/// Recombining the residues of `a` gives `a` modulo the full modulus.
pub proof fn lemma_crt_of_reductions(params: &Params, a: nat, residues: Seq<u64>)
    requires
        params.wf(),
        residues.len() == params.crt_count,
        forall|i: int|
            0 <= i < params.crt_count ==> #[trigger] residues[i] == a % (params.prime(i) as nat),
    ensures
        params.crt_value(residues) == a % (params.modulus as nat),
{
    let q = params.modulus as int;
    let s = sum(params.crt_basis@, params.crt_count as nat) as int;
    lemma_weighted_sum_of_reductions(params, a, residues, params.crt_count as nat);
    lemma_mul_mod_noop_general(a as int, s, q);
    assert(a * 1 == a);
}

/// A product of entries that are at least one does not shrink as it grows.
pub proof fn lemma_product_grows(s: Seq<u64>, k: nat, len: nat)
    requires
        k <= len <= s.len(),
        forall|j: int| 0 <= j < len ==> #[trigger] s[j] >= 1,
    ensures
        product(s, k) <= product(s, len),
    decreases len - k,
{
    if k < len {
        lemma_product_grows(s, k, (len - 1) as nat);
        let rest = product(s, (len - 1) as nat);
        let last = s[len - 1] as nat;
        assert(rest <= rest * last) by (nonlinear_arith)
            requires
                last >= 1,
        ;
    }
}

/// Whether `n` is a power of two.
pub fn check_pow2(n: usize) -> (ok: bool)
    ensures
        ok == is_pow2(n as nat),
{
    if n == 0 {
        return false;
    }
    let mut m: usize = n;
    while m % 2 == 0
        invariant
            m >= 1,
            is_pow2(m as nat) == is_pow2(n as nat),
        decreases m,
    {
        m = m / 2;
    }
    m == 1
}

/// The product of the entries of `moduli`, if each is at least two and the
/// product fits a word.
pub fn product_of(moduli: &Vec<u64>) -> (r: Option<u64>)
    ensures
        match r {
            Some(q) => q == product(moduli@, moduli@.len()) && forall|j: int|
                0 <= j < moduli@.len() ==> #[trigger] moduli@[j] >= 2,
            None => product(moduli@, moduli@.len()) > u64::MAX || exists|j: int|
                0 <= j < moduli@.len() && #[trigger] moduli@[j] < 2,
        },
{
    let len: usize = moduli.len();
    let mut j: usize = 0;
    while j < len
        invariant
            len == moduli@.len(),
            j <= len,
            forall|i: int| 0 <= i < j ==> #[trigger] moduli@[i] >= 2,
        decreases len - j,
    {
        if moduli[j] < 2 {
            return None;
        }
        j += 1;
    }
    let mut acc: u64 = 1;
    let mut k: usize = 0;
    while k < len
        invariant
            len == moduli@.len(),
            k <= len,
            acc == product(moduli@, k as nat),
            forall|i: int| 0 <= i < len ==> #[trigger] moduli@[i] >= 2,
        decreases len - k,
    {
        match acc.checked_mul(moduli[k]) {
            Some(next) => {
                acc = next;
            },
            None => {
                proof {
                    lemma_product_grows(moduli@, (k + 1) as nat, len as nat);
                }
                return None;
            },
        }
        k += 1;
    }
    Some(acc)
}

impl Params {
    /// Whether plane `c` of a set of the right shape meets what is asked of it.
    fn check_plane(&self, c: usize) -> (ok: bool)
        requires
            self.shape_ok(),
            self.modulus >= 2,
            c < self.crt_count,
        ensures
            ok == self.plane_ok(c as int),
    {
        let n: usize = self.poly_len;
        let p: u64 = self.moduli[c];
        let q: u64 = self.modulus;
        if p < 2 {
            return false;
        }
        if self.forward_roots[c].len() != n || self.inverse_roots[c].len() != n {
            return false;
        }
        let h: u64 = self.halves[c];
        let twice: u128 = 2 * (h as u128);
        if twice % (p as u128) != 1 {
            return false;
        }
        let mut k: usize = 1;
        while k < n
            invariant
                self.shape_ok(),
                c < self.crt_count,
                n == self.poly_len,
                p == self.prime(c as int),
                p >= 2,
                self.forward_roots@[c as int]@.len() == n,
                self.inverse_roots@[c as int]@.len() == n,
                1 <= k,
                forall|i: int| 1 <= i < k ==> #[trigger] self.pair_ok(c as int, i),
            decreases n - k,
        {
            let f: u64 = self.forward_roots[c][k];
            let g: u64 = self.inverse_roots[c][k];
            let fg: u64 = crate::arith::mul_mod(f, g, p);
            let twice_fg: u128 = 2 * (fg as u128);
            proof {
                lemma_mul_mod_noop_general(2, f * g, p as int);
            }
            if twice_fg % (p as u128) != 1 {
                assert(!self.pair_ok(c as int, k as int));
                return false;
            }
            k += 1;
        }
        let e: u64 = self.crt_basis[c];
        if e >= q {
            return false;
        }
        if crate::arith::mul_mod(p, e, q) != 0 {
            return false;
        }
        let mut j: usize = 0;
        while j < self.crt_count
            invariant
                self.shape_ok(),
                c < self.crt_count,
                p == self.prime(c as int),
                p >= 2,
                j <= self.crt_count,
                forall|i: int| 0 <= i < j ==> #[trigger] self.basis_ok(c as int, i),
            decreases self.crt_count - j,
        {
            let rest: u64 = self.crt_basis[j] % p;
            let want: u64 = if j == c {
                1
            } else {
                0
            };
            if rest != want {
                assert(!self.basis_ok(c as int, j as int));
                return false;
            }
            j += 1;
        }
        true
    }

    /// Whether this is a usable parameter set.
    pub fn check(&self) -> (ok: bool)
        ensures
            ok == self.wf(),
    {
        if self.poly_len < 1 || self.crt_count < 1 {
            return false;
        }
        if !check_pow2(self.poly_len) {
            return false;
        }
        if self.poly_len.checked_mul(self.crt_count).is_none() {
            return false;
        }
        if self.moduli.len() != self.crt_count || self.forward_roots.len() != self.crt_count
            || self.inverse_roots.len() != self.crt_count || self.halves.len() != self.crt_count
            || self.crt_basis.len() != self.crt_count {
            return false;
        }
        assert(self.shape_ok());
        match product_of(&self.moduli) {
            Some(q) => {
                if q != self.modulus {
                    return false;
                }
            },
            None => {
                proof {
                    if self.wf() {
                        let j = choose|j: int|
                            0 <= j < self.moduli@.len() && #[trigger] self.moduli@[j] < 2;
                        assert(self.plane_ok(j));
                    }
                }
                return false;
            },
        }
        let q: u64 = self.modulus;
        proof {
            lemma_product_at_least_two(self.moduli@, self.crt_count as nat);
        }
        let mut total: u64 = 0;
        let mut i: usize = 0;
        proof {
            lemma_small_mod(0, q as nat);
        }
        while i < self.crt_count
            invariant
                self.shape_ok(),
                q == self.modulus,
                q >= 2,
                i <= self.crt_count,
                total == sum(self.crt_basis@, i as nat) % (q as nat),
            decreases self.crt_count - i,
        {
            let e: u64 = self.crt_basis[i];
            proof {
                let prev = sum(self.crt_basis@, i as nat) as int;
                lemma_add_mod_noop(prev, e as int, q as int);
                lemma_add_mod_noop(prev % (q as int), e as int, q as int);
                lemma_mod_twice(prev, q as int);
            }
            total = crate::arith::add_mod(total, e, q);
            i += 1;
        }
        if total != 1 {
            return false;
        }
        let mut c: usize = 0;
        while c < self.crt_count
            invariant
                self.shape_ok(),
                self.modulus >= 2,
                c <= self.crt_count,
                forall|i: int| 0 <= i < c ==> #[trigger] self.plane_ok(i),
            decreases self.crt_count - c,
        {
            if !self.check_plane(c) {
                return false;
            }
            c += 1;
        }
        true
    }

    /// The parameter set with the given degree, primes and tables and the
    /// full modulus `modulus`.
    pub open spec fn assemble(
        poly_len: usize,
        moduli: Vec<u64>,
        forward_roots: Vec<Vec<u64>>,
        inverse_roots: Vec<Vec<u64>>,
        halves: Vec<u64>,
        crt_basis: Vec<u64>,
        modulus: u64,
    ) -> Params {
        Params {
            poly_len,
            crt_count: moduli@.len() as usize,
            moduli,
            modulus,
            forward_roots,
            inverse_roots,
            halves,
            crt_basis,
        }
    }

    /// Puts a parameter set together from the degree, the primes and the
    /// tables, with the product of the primes as full modulus. Gives the set
    /// exactly when it is usable.
    pub fn new(
        poly_len: usize,
        moduli: Vec<u64>,
        forward_roots: Vec<Vec<u64>>,
        inverse_roots: Vec<Vec<u64>>,
        halves: Vec<u64>,
        crt_basis: Vec<u64>,
    ) -> (r: Option<Params>)
        ensures
            match r {
                Some(p) => p.wf() && p == Params::assemble(
                    poly_len,
                    moduli,
                    forward_roots,
                    inverse_roots,
                    halves,
                    crt_basis,
                    p.modulus,
                ),
                None => forall|q: u64|
                    !(#[trigger] Params::assemble(
                        poly_len,
                        moduli,
                        forward_roots,
                        inverse_roots,
                        halves,
                        crt_basis,
                        q,
                    )).wf(),
            },
    {
        let crt_count: usize = moduli.len();
        match product_of(&moduli) {
            Some(modulus) => {
                let p = Params {
                    poly_len,
                    crt_count,
                    moduli,
                    modulus,
                    forward_roots,
                    inverse_roots,
                    halves,
                    crt_basis,
                };
                if p.check() {
                    Some(p)
                } else {
                    None
                }
            },
            None => {
                proof {
                    assert forall|q: u64|
                        !(#[trigger] Params::assemble(
                            poly_len,
                            moduli,
                            forward_roots,
                            inverse_roots,
                            halves,
                            crt_basis,
                            q,
                        )).wf() by {
                        let cand = Params::assemble(
                            poly_len,
                            moduli,
                            forward_roots,
                            inverse_roots,
                            halves,
                            crt_basis,
                            q,
                        );
                        if cand.wf() {
                            let j = choose|j: int|
                                0 <= j < moduli@.len() && #[trigger] moduli@[j] < 2;
                            assert(cand.plane_ok(j));
                        }
                    }
                }
                None
            },
        }
    }
}

/// A non-empty product of entries that are at least two is at least two.
pub proof fn lemma_product_at_least_two(s: Seq<u64>, k: nat)
    requires
        1 <= k <= s.len(),
        forall|j: int| 0 <= j < k ==> #[trigger] s[j] >= 2,
    ensures
        product(s, k) >= 2,
    decreases k,
{
    let last = s[k - 1] as nat;
    if k == 1 {
        assert(product(s, 0) == 1);
        assert(1 * last == last) by (nonlinear_arith);
    } else {
        lemma_product_at_least_two(s, (k - 1) as nat);
        let rest = product(s, (k - 1) as nat);
        assert(rest * last >= 2) by (nonlinear_arith)
            requires
                rest >= 2,
                last >= 2,
        ;
    }
}

} // verus!
