use poly_ring::cell_ops::{
    add_poly, automorph_poly, invert_poly, modular_reduce, multiply_add_poly,
    multiply_add_poly_avx, multiply_poly,
};
use poly_ring::matrix_ops::{
    add, automorph, automorph_alloc, from_ntt, from_ntt_alloc, invert, multiply, scalar_multiply,
    scalar_multiply_alloc, single_poly, stack, to_ntt, to_ntt_alloc,
};
use poly_ring::deferred::{check_deferred_safe, multiply_deferred};
use poly_ring::derive::find_root;
use poly_ring::params::Params;
use poly_ring::poly::{PolyMatrix, PolyMatrixNTT, PolyMatrixRaw};

const Q0: u64 = 268369921;
const Q1: u64 = 249561089;

fn primitive_root(p: u64, n: usize) -> u64 {
    find_root(p, n).expect("a root of unity")
}

fn make_params(poly_len: usize, moduli: &[u64]) -> Params {
    let roots: Vec<u64> = moduli.iter().map(|&p| primitive_root(p, poly_len)).collect();
    let params = Params::derive(poly_len, moduli.to_vec(), &roots).expect("tables");
    assert!(params.check());
    params
}

fn tables(poly_len: usize, moduli: &[u64]) -> (Vec<Vec<u64>>, Vec<Vec<u64>>, Vec<u64>, Vec<u64>) {
    let p = make_params(poly_len, moduli);
    (p.forward_roots, p.inverse_roots, p.halves, p.crt_basis)
}

fn get_params() -> Params {
    make_params(2048, &[Q0, Q1])
}

fn toy_params() -> Params {
    make_params(4, &[Q0, Q1])
}

fn assert_all_zero(a: &[u64]) {
    for i in a {
        assert_eq!(*i, 0);
    }
}

fn raw_from<'a>(params: &'a Params, rows: usize, cols: usize, words: &[u64]) -> PolyMatrixRaw<'a> {
    let mut m = PolyMatrixRaw::zero(params, rows, cols);
    m.as_mut_slice().copy_from_slice(words);
    m
}

#[test]
fn sets_all_zeros() {
    let params = get_params();
    let m1 = PolyMatrixNTT::zero(&params, 2, 1);
    assert_all_zero(m1.as_slice());
}

#[test]
fn multiply_correctness() {
    let params = get_params();
    let m1 = PolyMatrixNTT::zero(&params, 2, 1);
    let m2 = PolyMatrixNTT::zero(&params, 3, 2);
    let m3 = &m2 * &m1;
    assert_all_zero(m3.as_slice());
}

#[test]
fn full_multiply_correctness() {
    let params = get_params();
    let mut m1 = PolyMatrixRaw::zero(&params, 1, 1);
    let mut m2 = PolyMatrixRaw::zero(&params, 1, 1);
    m1.get_poly_mut(0, 0)[1] = 100;
    m2.get_poly_mut(0, 0)[1] = 7;
    let m1_ntt = to_ntt_alloc(&m1);
    let m2_ntt = to_ntt_alloc(&m2);
    let m3_ntt = &m1_ntt * &m2_ntt;
    let m3 = from_ntt_alloc(&m3_ntt);
    assert_eq!(m3.get_poly(0, 0)[2], 700);
}

#[test]
fn params_are_checked() {
    let params = get_params();
    assert!(params.check());
    let (forward, inverse, halves, basis) = tables(4, &[Q0, Q1]);
    let toy = Params::new(4, vec![Q0, Q1], forward, inverse, halves, basis).expect("usable");
    assert!(toy.check());
    assert_eq!(toy.modulus, 66974689739603969);
    assert_eq!(toy.crt_count, 2);
    assert_eq!(params.modulus, 66974689739603969);
    assert_eq!(params.crt_count, 2);
    assert_eq!(params.poly_len, 2048);
}

#[test]
fn params_with_a_wrong_table_are_refused() {
    let (mut forward, inverse, halves, basis) = tables(4, &[Q0, Q1]);
    forward[1][2] += 1;
    assert!(Params::new(4, vec![Q0, Q1], forward, inverse, halves, basis).is_none());
}

#[test]
fn params_with_a_wrong_half_are_refused() {
    let (forward, inverse, mut halves, basis) = tables(4, &[Q0, Q1]);
    halves[0] = 2;
    assert!(Params::new(4, vec![Q0, Q1], forward, inverse, halves, basis).is_none());
}

#[test]
fn params_with_a_wrong_basis_are_refused() {
    let (forward, inverse, halves, mut basis) = tables(4, &[Q0, Q1]);
    basis.swap(0, 1);
    assert!(Params::new(4, vec![Q0, Q1], forward, inverse, halves, basis).is_none());
}

#[test]
fn params_of_odd_degree_are_refused() {
    let (forward, inverse, halves, basis) = tables(4, &[Q0, Q1]);
    assert!(Params::new(3, vec![Q0, Q1], forward, inverse, halves, basis).is_none());
}

#[test]
fn params_without_primes_are_refused() {
    assert!(Params::new(4, vec![], vec![], vec![], vec![], vec![]).is_none());
}

#[test]
fn params_whose_modulus_overflows_are_refused() {
    let big: u64 = 0xffff_ffff_ffff_ffc5;
    let (forward, inverse, halves, basis) = tables(4, &[Q0, Q1]);
    assert!(Params::new(4, vec![big, big], forward, inverse, halves, basis).is_none());
}

#[test]
fn params_with_a_modulus_below_two_are_refused() {
    let (forward, inverse, halves, basis) = tables(4, &[Q0, Q1]);
    assert!(Params::new(4, vec![Q0, 1], forward, inverse, halves, basis).is_none());
}

#[test]
fn a_single_prime_is_enough() {
    let params = make_params(8, &[Q0]);
    assert_eq!(params.modulus, Q0);
    let mut m = PolyMatrixRaw::zero(&params, 1, 1);
    m.get_poly_mut(0, 0)[3] = 5;
    let mut k = PolyMatrixRaw::zero(&params, 1, 1);
    k.get_poly_mut(0, 0)[6] = 11;
    let prod = from_ntt_alloc(&(&to_ntt_alloc(&m) * &to_ntt_alloc(&k)));
    // x^3 * x^6 = x^9 = -x
    let mut want: Vec<u64> = vec![0; 8];
    want[1] = Q0 - 55;
    assert_eq!(prod.data, want);
}

#[test]
fn crt_compose_2_recombines() {
    let params = toy_params();
    let value: u64 = 12345678901234567;
    let r: u64 = params.crt_compose_2(value % Q0, value % Q1);
    assert_eq!(r, value);
    assert_eq!(params.crt_compose_2(0, 0), 0);
    assert_eq!(params.crt_compose_2(1, 1), 1);
    let s: u64 = params.crt_compose_2(5, 9);
    assert_eq!(s % Q0, 5);
    assert_eq!(s % Q1, 9);
    assert!(s < params.modulus);
}

#[test]
fn crt_compose_at_reads_the_planes() {
    let params = toy_params();
    let value: u64 = 66974689739603968;
    let mut cell: Vec<u64> = vec![0; 8];
    cell[2] = value % Q0;
    cell[6] = value % Q1;
    assert_eq!(params.crt_compose_at(&cell, 2), value);
    assert_eq!(params.crt_compose_at(&cell, 1), 0);
}

#[test]
fn shape_and_kind() {
    let params = toy_params();
    let raw = PolyMatrixRaw::zero(&params, 2, 3);
    let ntt = PolyMatrixNTT::zero(&params, 2, 3);
    assert!(!raw.is_ntt());
    assert!(ntt.is_ntt());
    assert_eq!(raw.get_rows(), 2);
    assert_eq!(raw.get_cols(), 3);
    assert_eq!(ntt.get_rows(), 2);
    assert_eq!(ntt.get_cols(), 3);
    assert_eq!(raw.num_words(), 4);
    assert_eq!(ntt.num_words(), 8);
    assert_eq!(raw.as_slice().len(), 24);
    assert_eq!(ntt.as_slice().len(), 48);
    assert_eq!(raw.get_params().poly_len, 4);
    assert_eq!(ntt.get_params().crt_count, 2);
}

#[test]
fn get_poly_addresses_cells_row_by_row() {
    let params = toy_params();
    let words: Vec<u64> = (0..24).collect();
    let m = raw_from(&params, 2, 3, &words);
    assert_eq!(m.get_poly(0, 0), &[0, 1, 2, 3]);
    assert_eq!(m.get_poly(0, 2), &[8, 9, 10, 11]);
    assert_eq!(m.get_poly(1, 0), &[12, 13, 14, 15]);
    assert_eq!(m.get_poly(1, 2), &[20, 21, 22, 23]);
}

#[test]
fn get_poly_mut_changes_one_cell() {
    let params = toy_params();
    let words: Vec<u64> = (0..24).collect();
    let mut m = raw_from(&params, 2, 3, &words);
    m.get_poly_mut(1, 1)[2] = 99;
    let mut want: Vec<u64> = words.clone();
    want[18] = 99;
    assert_eq!(m.data, want);
}

#[test]
fn zero_out_clears_every_word() {
    let params = toy_params();
    let mut m = PolyMatrixNTT::random(&params, 2, 2);
    m.zero_out();
    assert_eq!(m.rows, 2);
    assert_eq!(m.cols, 2);
    assert_eq!(m.data.len(), 32);
    assert_all_zero(m.as_slice());
}

#[test]
fn random_raw_words_are_below_the_modulus() {
    let params = toy_params();
    let m = PolyMatrixRaw::random(&params, 3, 5);
    assert_eq!(m.data.len(), 60);
    for w in m.as_slice() {
        assert!(*w < params.modulus);
    }
    let first: u64 = m.data[0];
    assert!(m.data.iter().any(|w| *w != first));
}

#[test]
fn random_ntt_words_are_below_their_primes() {
    let params = toy_params();
    let m = PolyMatrixNTT::random(&params, 3, 5);
    assert_eq!(m.data.len(), 120);
    for (k, w) in m.as_slice().iter().enumerate() {
        let plane: usize = (k % 8) / 4;
        assert!(*w < params.moduli[plane]);
    }
    let first: u64 = m.data[0];
    assert!(m.data.iter().any(|w| *w != first));
}

#[test]
fn from_samples_reduces_each_word() {
    let params = toy_params();
    let q: u64 = params.modulus;
    let samples: Vec<u64> = vec![0, 1, q - 1, q, q + 1, u64::MAX, 17, 2 * q + 3];
    let raw = PolyMatrixRaw::from_samples(&params, 1, 2, &samples);
    assert_eq!(raw.data, vec![0, 1, q - 1, 0, 1, u64::MAX % q, 17, 3]);
    let ntt = PolyMatrixNTT::from_samples(&params, 1, 1, &samples);
    assert_eq!(
        ntt.data,
        vec![0, 1, (q - 1) % Q0, 0, (q + 1) % Q1, u64::MAX % Q1, 17, (2 * q + 3) % Q1]
    );
}

#[test]
fn round_trip_gives_the_matrix_back() {
    let params = get_params();
    let m = PolyMatrixRaw::random(&params, 2, 3);
    let back = from_ntt_alloc(&to_ntt_alloc(&m));
    assert_eq!(back.rows, 2);
    assert_eq!(back.cols, 3);
    assert_eq!(back.data, m.data);
}

#[test]
fn round_trip_through_the_methods() {
    let params = toy_params();
    let words: Vec<u64> = vec![1, 2, 3, 4, params.modulus - 1, 0, 7, 66974689739603];
    let m = raw_from(&params, 2, 1, &words);
    assert_eq!(m.ntt().raw().data, words);
}

#[test]
fn round_trip_in_place() {
    let params = toy_params();
    let m = PolyMatrixRaw::random(&params, 2, 2);
    let mut t = PolyMatrixNTT::random(&params, 2, 2);
    to_ntt(&mut t, &m);
    let mut back = PolyMatrixRaw::random(&params, 2, 2);
    from_ntt(&mut back, &t);
    assert_eq!(back.data, m.data);
}

#[test]
fn round_trip_reduces_words_above_the_modulus() {
    let params = toy_params();
    let q: u64 = params.modulus;
    let m = raw_from(&params, 1, 1, &[q, q + 5, u64::MAX, 3]);
    assert_eq!(m.ntt().raw().data, vec![0, 5, u64::MAX % q, 3]);
}

#[test]
fn transformed_constant_is_constant() {
    let params = toy_params();
    let one = single_poly(&params, 1).ntt();
    assert_eq!(one.data, vec![1; 8]);
    let big = single_poly(&params, Q0 + 3).ntt();
    assert_eq!(big.data, vec![3, 3, 3, 3, (Q0 + 3) % Q1, (Q0 + 3) % Q1, (Q0 + 3) % Q1, (Q0 + 3) % Q1]);
}

#[test]
fn zero_times_anything_is_zero() {
    let params = toy_params();
    let a = PolyMatrixNTT::random(&params, 3, 2);
    let z = PolyMatrixNTT::zero(&params, 2, 4);
    let p = &a * &z;
    assert_eq!(p.rows, 3);
    assert_eq!(p.cols, 4);
    assert_all_zero(p.as_slice());
    let z2 = PolyMatrixNTT::zero(&params, 5, 3);
    assert_all_zero((&z2 * &a).as_slice());
}

#[test]
fn matrix_plus_its_inverse_is_zero() {
    let params = toy_params();
    let q: u64 = params.modulus;
    let m = PolyMatrixRaw::random(&params, 2, 2);
    let n = -&m;
    for k in 0..m.data.len() {
        assert_eq!((m.data[k] as u128 + n.data[k] as u128) % (q as u128), 0);
        assert!(n.data[k] < q);
    }
}

#[test]
fn inverse_of_zero_is_zero() {
    let params = toy_params();
    let z = PolyMatrixRaw::zero(&params, 2, 2);
    let mut out = PolyMatrixRaw::random(&params, 2, 2);
    invert(&mut out, &z);
    assert_all_zero(out.as_slice());
}

#[test]
fn invert_poly_exact_values() {
    let params = toy_params();
    let q: u64 = params.modulus;
    let mut res: Vec<u64> = vec![9; 4];
    invert_poly(&params, &mut res, &[0, 1, q - 1, q + 2]);
    assert_eq!(res, vec![0, q - 1, 1, q - 2]);
}

#[test]
fn one_is_the_identity_of_scalar_multiply() {
    let params = toy_params();
    let one = single_poly(&params, 1).ntt();
    let b = PolyMatrixNTT::random(&params, 2, 3);
    let out = scalar_multiply_alloc(&one, &b);
    assert_eq!(out.rows, 2);
    assert_eq!(out.cols, 3);
    assert_eq!(out.data, b.data);
}

#[test]
fn scalar_multiply_scales_coefficients() {
    let params = toy_params();
    let three = single_poly(&params, 3).ntt();
    let m = raw_from(&params, 1, 2, &[1, 2, 3, 4, 10, 20, 30, 40]);
    let mut out = PolyMatrixNTT::zero(&params, 1, 2);
    scalar_multiply(&mut out, &three, &m.ntt());
    assert_eq!(out.raw().data, vec![3, 6, 9, 12, 30, 60, 90, 120]);
}

#[test]
fn multiply_is_associative() {
    let params = toy_params();
    let a = PolyMatrixNTT::random(&params, 2, 3);
    let b = PolyMatrixNTT::random(&params, 3, 2);
    let c = PolyMatrixNTT::random(&params, 2, 4);
    let left = &(&a * &b) * &c;
    let right = &a * &(&b * &c);
    assert_eq!(left.raw().data, right.raw().data);
    assert_eq!(left.data, right.data);
}

#[test]
fn multiply_distributes_over_add() {
    let params = toy_params();
    let a = PolyMatrixNTT::random(&params, 2, 3);
    let b = PolyMatrixNTT::random(&params, 3, 2);
    let c = PolyMatrixNTT::random(&params, 3, 2);
    let left = &a * &(&b + &c);
    let right = &(&a * &b) + &(&a * &c);
    assert_eq!(left.raw().data, right.raw().data);
    assert_eq!(left.data, right.data);
}

#[test]
fn multiply_in_place_matches_the_operator() {
    let params = toy_params();
    let a = PolyMatrixNTT::random(&params, 2, 2);
    let b = PolyMatrixNTT::random(&params, 2, 2);
    let mut out = PolyMatrixNTT::random(&params, 2, 2);
    multiply(&mut out, &a, &b);
    assert_eq!(out.data, (&a * &b).data);
}

#[test]
fn multiply_by_identity_keeps_the_matrix() {
    let params = toy_params();
    let id = PolyMatrixRaw::identity(&params, 3, 3).ntt();
    let m = PolyMatrixNTT::random(&params, 3, 2);
    assert_eq!((&id * &m).data, m.data);
}

#[test]
fn multiply_is_a_negacyclic_product() {
    let params = toy_params();
    let q: u64 = params.modulus;
    // (1 + 2x + 3x^3) * (5x + 7x^3) modulo x^4 + 1
    let a = raw_from(&params, 1, 1, &[1, 2, 0, 3]);
    let b = raw_from(&params, 1, 1, &[0, 5, 0, 7]);
    let prod = (&a.ntt() * &b.ntt()).raw();
    assert_eq!(prod.data, vec![q - 29, 5, q - 11, 7]);
}

#[test]
fn matrix_product_sums_over_the_inner_dimension() {
    let params = toy_params();
    // [1, x] * [x; 2]^T = x + 2x
    let a = raw_from(&params, 1, 2, &[1, 0, 0, 0, 0, 1, 0, 0]);
    let b = raw_from(&params, 2, 1, &[0, 1, 0, 0, 2, 0, 0, 0]);
    let prod = (&a.ntt() * &b.ntt()).raw();
    assert_eq!(prod.rows, 1);
    assert_eq!(prod.cols, 1);
    assert_eq!(prod.data, vec![0, 3, 0, 0]);
}

#[test]
fn add_sums_word_by_word() {
    let params = toy_params();
    let a = raw_from(&params, 1, 2, &[1, 2, 3, 4, 5, 6, 7, 8]);
    let q: u64 = params.modulus;
    let b = raw_from(&params, 1, 2, &[10, 20, 30, 40, q - 5, 0, 0, q - 1]);
    let mut out = PolyMatrixNTT::zero(&params, 1, 2);
    add(&mut out, &a.ntt(), &b.ntt());
    assert_eq!(out.raw().data, vec![11, 22, 33, 44, 0, 6, 7, 7]);
}

#[test]
fn cell_kernels_work_plane_by_plane() {
    let params = toy_params();
    let a: Vec<u64> = vec![Q0 - 1, 2, 3, 4, Q1 - 1, 6, 7, 8];
    let b: Vec<u64> = vec![Q0 - 1, 10, 100, 1000, Q1 - 1, 10, 100, 1000];
    let mut res: Vec<u64> = vec![0; 8];
    multiply_poly(&params, &mut res, &a, &b);
    assert_eq!(res, vec![1, 20, 300, 4000, 1, 60, 700, 8000]);
    multiply_add_poly(&params, &mut res, &a, &b);
    assert_eq!(res, vec![2, 40, 600, 8000, 2, 120, 1400, 16000]);
    add_poly(&params, &mut res, &a, &b);
    assert_eq!(res, vec![Q0 - 2, 12, 103, 1004, Q1 - 2, 16, 107, 1008]);
    let mut acc: Vec<u64> = vec![Q0, Q0 + 1, 5, 2 * Q0 + 7, Q1, Q1 + 1, 5, 2 * Q1 + 7];
    modular_reduce(&params, &mut acc);
    assert_eq!(acc, vec![0, 1, 5, 7, 0, 1, 5, 7]);
}

#[test]
fn lane_multiply_accumulate_uses_low_halves_and_wraps() {
    let params = toy_params();
    let hi: u64 = 1 << 32;
    let a: Vec<u64> = vec![3, hi + 3, 0xffff_ffff, 2, 1, 1, 1, 1];
    let b: Vec<u64> = vec![5, 5, 0xffff_ffff, hi, 1, 1, 1, 1];
    let mut res: Vec<u64> = vec![1, 1, 0, 9, u64::MAX, 0, 0, 0];
    multiply_add_poly_avx(&params, &mut res, &a, &b);
    assert_eq!(res, vec![16, 16, 0xffff_fffe_0000_0001, 9, 0, 1, 1, 1]);
}

#[test]
fn deferred_reduction_matches_the_stepwise_product() {
    let params = toy_params();
    let a = PolyMatrixNTT::random(&params, 1, 3);
    let b = PolyMatrixNTT::random(&params, 3, 1);
    let mut acc: Vec<u64> = vec![0; 8];
    for k in 0..3 {
        multiply_add_poly_avx(&params, &mut acc, a.get_poly(0, k), b.get_poly(k, 0));
    }
    modular_reduce(&params, &mut acc);
    assert_eq!(acc, (&a * &b).data);
}

#[test]
fn automorph_with_one_is_the_identity() {
    let params = toy_params();
    let m = PolyMatrixRaw::random(&params, 2, 3);
    let out = automorph_alloc(&m, 1);
    assert_eq!(out.data, m.data);
    let mut again = PolyMatrixRaw::random(&params, 2, 3);
    automorph(&mut again, &m, 1);
    assert_eq!(again.data, m.data);
}

#[test]
fn automorph_moves_and_flips() {
    let params = toy_params();
    let q: u64 = params.modulus;
    let m = raw_from(&params, 1, 1, &[1, 2, 3, 4]);
    // x -> x^3: x^3 stays, x^6 = -x^2, x^9 = x
    assert_eq!(automorph_alloc(&m, 3).data, vec![1, 4, q - 3, 2]);
    // x -> x^5: x^5 = -x, x^10 = x^2, x^15 = -x^3
    assert_eq!(automorph_alloc(&m, 5).data, vec![1, q - 2, 3, q - 4]);
    // x -> x^7: x^7 = -x^3, x^14 = -x^2, x^21 = -x
    assert_eq!(automorph_alloc(&m, 7).data, vec![1, q - 4, q - 3, q - 2]);
}

#[test]
fn automorph_keeps_zero_coefficients_zero() {
    let params = toy_params();
    let m = raw_from(&params, 1, 1, &[0, 0, 0, 0]);
    assert_eq!(automorph_alloc(&m, 5).data, vec![0, 0, 0, 0]);
}

#[test]
fn automorph_with_an_even_power_keeps_the_last_writer() {
    let params = toy_params();
    let q: u64 = params.modulus;
    let a: Vec<u64> = vec![1, 2, 3, 4];
    let mut res: Vec<u64> = vec![50, 60, 70, 80];
    // x -> x^2: 1 and x^4 = -1 go to place 0; x^2 and x^6 = -x^2 go to place 2
    automorph_poly(&params, &mut res, &a, 2);
    assert_eq!(res, vec![q - 3, 60, q - 4, 80]);
}

#[test]
fn automorph_with_a_huge_power_does_not_overflow() {
    let params = toy_params();
    let a: Vec<u64> = vec![1, 2, 3, 4];
    let mut res: Vec<u64> = vec![0; 4];
    // usize::MAX is 7 modulo 8
    automorph_poly(&params, &mut res, &a, usize::MAX);
    let q: u64 = params.modulus;
    assert_eq!(res, vec![1, q - 4, q - 3, q - 2]);
}

#[test]
fn automorph_is_a_ring_map() {
    let params = toy_params();
    let a = PolyMatrixRaw::random(&params, 1, 1);
    let b = PolyMatrixRaw::random(&params, 1, 1);
    let prod = (&a.ntt() * &b.ntt()).raw();
    let left = automorph_alloc(&prod, 3);
    let right = (&automorph_alloc(&a, 3).ntt() * &automorph_alloc(&b, 3).ntt()).raw();
    assert_eq!(left.data, right.data);
}

#[test]
fn toy_product_of_two_monomials() {
    let params = toy_params();
    let mut m1 = PolyMatrixRaw::zero(&params, 1, 1);
    let mut m2 = PolyMatrixRaw::zero(&params, 1, 1);
    m1.get_poly_mut(0, 0)[1] = 100;
    m2.get_poly_mut(0, 0)[1] = 7;
    let m3 = from_ntt_alloc(&(&to_ntt_alloc(&m1) * &to_ntt_alloc(&m2)));
    assert_eq!(m3.get_poly(0, 0), &[0, 0, 700, 0]);
}

#[test]
fn toy_product_of_two_constants() {
    let params = toy_params();
    let a = single_poly(&params, 100);
    let b = single_poly(&params, 7);
    let prod = (&a.ntt() * &b.ntt()).raw();
    assert_eq!(prod.data, vec![700, 0, 0, 0]);
}

#[test]
fn single_poly_holds_one_constant() {
    let params = toy_params();
    let m = single_poly(&params, 42);
    assert_eq!(m.rows, 1);
    assert_eq!(m.cols, 1);
    assert_eq!(m.data, vec![42, 0, 0, 0]);
}

#[test]
fn identity_has_ones_on_the_diagonal() {
    let params = toy_params();
    let m = PolyMatrixRaw::identity(&params, 2, 2);
    assert_eq!(m.data, vec![1, 0, 0, 0, 0, 0, 0, 0, 0, 0, 0, 0, 1, 0, 0, 0]);
}

#[test]
fn identity_of_a_tall_or_wide_shape() {
    let params = toy_params();
    let tall = PolyMatrixRaw::identity(&params, 3, 2);
    assert_eq!(tall.get_poly(0, 0), &[1, 0, 0, 0]);
    assert_eq!(tall.get_poly(1, 1), &[1, 0, 0, 0]);
    assert_eq!(tall.data.iter().sum::<u64>(), 2);
    let wide = PolyMatrixRaw::identity(&params, 2, 3);
    assert_eq!(wide.get_poly(0, 0), &[1, 0, 0, 0]);
    assert_eq!(wide.get_poly(1, 1), &[1, 0, 0, 0]);
    assert_eq!(wide.data.iter().sum::<u64>(), 2);
}

#[test]
fn stack_puts_the_first_on_top() {
    let params = toy_params();
    let a = PolyMatrixRaw::random(&params, 2, 3);
    let b = PolyMatrixRaw::random(&params, 1, 3);
    let c = stack(&a, &b);
    assert_eq!(c.rows, 3);
    assert_eq!(c.cols, 3);
    assert_eq!(&c.data[..24], &a.data[..]);
    assert_eq!(&c.data[24..], &b.data[..]);
}

#[test]
fn stack_with_an_empty_part() {
    let params = toy_params();
    let a = PolyMatrixRaw::random(&params, 2, 2);
    let none = PolyMatrixRaw::zero(&params, 0, 2);
    assert_eq!(stack(&a, &none).data, a.data);
    assert_eq!(stack(&none, &a).data, a.data);
    assert_eq!(stack(&none, &none).rows, 0);
}

#[test]
fn pad_top_puts_zero_rows_above() {
    let params = toy_params();
    let a = PolyMatrixRaw::random(&params, 2, 2);
    let p = a.pad_top(3);
    assert_eq!(p.rows, 5);
    assert_eq!(p.cols, 2);
    assert_all_zero(&p.data[..24]);
    assert_eq!(&p.data[24..], &a.data[..]);
    let n = PolyMatrixNTT::random(&params, 1, 2);
    let pn = n.pad_top(1);
    assert_eq!(pn.rows, 2);
    assert_all_zero(&pn.data[..16]);
    assert_eq!(&pn.data[16..], &n.data[..]);
}

#[test]
fn pad_top_by_nothing_is_a_copy() {
    let params = toy_params();
    let a = PolyMatrixRaw::random(&params, 2, 2);
    assert_eq!(a.pad_top(0).data, a.data);
    let empty = PolyMatrixRaw::zero(&params, 0, 2);
    let padded = empty.pad_top(2);
    assert_eq!(padded.rows, 2);
    assert_all_zero(padded.as_slice());
}

#[test]
fn copy_into_reaches_the_bottom_right_corner() {
    let params = toy_params();
    let mut dst = PolyMatrixRaw::zero(&params, 3, 3);
    let src = raw_from(&params, 2, 2, &(1..17).collect::<Vec<u64>>());
    dst.copy_into(&src, 1, 1);
    assert_all_zero(dst.get_poly(0, 0));
    assert_all_zero(dst.get_poly(0, 1));
    assert_all_zero(dst.get_poly(0, 2));
    assert_all_zero(dst.get_poly(1, 0));
    assert_all_zero(dst.get_poly(2, 0));
    assert_eq!(dst.get_poly(1, 1), &[1, 2, 3, 4]);
    assert_eq!(dst.get_poly(1, 2), &[5, 6, 7, 8]);
    assert_eq!(dst.get_poly(2, 1), &[9, 10, 11, 12]);
    assert_eq!(dst.get_poly(2, 2), &[13, 14, 15, 16]);
}

#[test]
fn copy_into_of_the_same_shape_replaces_everything() {
    let params = toy_params();
    let mut dst = PolyMatrixNTT::random(&params, 2, 2);
    let src = PolyMatrixNTT::random(&params, 2, 2);
    dst.copy_into(&src, 0, 0);
    assert_eq!(dst.data, src.data);
}

#[test]
fn copy_into_leaves_the_rest_alone() {
    let params = toy_params();
    let before = PolyMatrixRaw::random(&params, 2, 3);
    let mut dst = raw_from(&params, 2, 3, &before.data);
    let src = raw_from(&params, 1, 1, &[7, 7, 7, 7]);
    dst.copy_into(&src, 0, 1);
    let mut want: Vec<u64> = before.data.clone();
    want[4..8].copy_from_slice(&[7, 7, 7, 7]);
    assert_eq!(dst.data, want);
}

#[test]
fn deferred_product_matches_the_stepwise_one() {
    let params = toy_params();
    assert!(check_deferred_safe(&params, 3));
    let a = PolyMatrixNTT::random(&params, 2, 3);
    let b = PolyMatrixNTT::random(&params, 3, 2);
    let mut fast = PolyMatrixNTT::random(&params, 2, 2);
    multiply_deferred(&mut fast, &a, &b);
    assert_eq!(fast.data, (&a * &b).data);
}

#[test]
fn deferred_product_of_the_largest_residues() {
    let params = toy_params();
    let top: Vec<u64> = vec![Q0 - 1, Q0 - 1, Q0 - 1, Q0 - 1, Q1 - 1, Q1 - 1, Q1 - 1, Q1 - 1];
    let mut words: Vec<u64> = Vec::new();
    for _ in 0..200 {
        words.extend_from_slice(&top);
    }
    let mut a = PolyMatrixNTT::zero(&params, 1, 200);
    a.as_mut_slice().copy_from_slice(&words);
    let mut b = PolyMatrixNTT::zero(&params, 200, 1);
    b.as_mut_slice().copy_from_slice(&words);
    assert!(check_deferred_safe(&params, 200));
    let mut fast = PolyMatrixNTT::zero(&params, 1, 1);
    multiply_deferred(&mut fast, &a, &b);
    assert_eq!(fast.data, vec![200, 200, 200, 200, 200, 200, 200, 200]);
    assert_eq!(fast.data, (&a * &b).data);
}

#[test]
fn deferred_sums_must_fit_a_word() {
    let params = toy_params();
    let square: u128 = ((Q0 - 1) as u128) * ((Q0 - 1) as u128);
    let most: usize = ((u64::MAX as u128) / square) as usize;
    assert_eq!(most, 256);
    assert!(check_deferred_safe(&params, 0));
    assert!(check_deferred_safe(&params, most));
    assert!(!check_deferred_safe(&params, most + 1));
    assert!(!check_deferred_safe(&params, usize::MAX));
    let wide = make_params(4, &[4294957057]);
    assert!(check_deferred_safe(&wide, 1));
    assert!(!check_deferred_safe(&wide, 2));
}
