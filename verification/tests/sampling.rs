use poly_ring::arith::{
    add_mod, add_modular, invert_modular, mul_add_mod, mul_mod, multiply_add_modular,
    multiply_modular, neg_mod,
};
use poly_ring::derive::{find_root, pow_mod, reverse_bits};
use poly_ring::discrete_gaussian::{noise_word, DiscreteGaussian};
use poly_ring::ntt::{ntt_forward, ntt_inverse};
use poly_ring::params::{check_pow2, product_of, Params};
use poly_ring::poly::{clear_words, copy_words, PolyMatrix, PolyMatrixRaw};
use poly_ring::rng::{draw_words, random_words};

const Q0: u64 = 268369921;
const Q1: u64 = 249561089;

fn root_of(p: u64, n: usize) -> u64 {
    find_root(p, n).expect("a root of unity")
}

fn small_params(poly_len: usize) -> Params {
    let roots: Vec<u64> = vec![root_of(Q0, poly_len), root_of(Q1, poly_len)];
    let params = Params::derive(poly_len, vec![Q0, Q1], &roots).expect("tables");
    assert!(params.check());
    params
}

#[test]
fn powers_modulo_exact_values() {
    assert_eq!(pow_mod(2, 10, 1000), 24);
    assert_eq!(pow_mod(2, 0, 7), 1);
    assert_eq!(pow_mod(5, 0, 1), 0);
    assert_eq!(pow_mod(0, 0, 5), 1);
    assert_eq!(pow_mod(0, 3, 5), 0);
    assert_eq!(pow_mod(3, Q0 - 1, Q0), 1);
    assert_eq!(pow_mod(u64::MAX, 2, u64::MAX - 1), 1);
    assert_eq!(pow_mod(7, u64::MAX, 13), 5);
}

#[test]
fn bits_are_reversed() {
    assert_eq!(reverse_bits(0, 1), 0);
    assert_eq!(reverse_bits(0, 8), 0);
    assert_eq!(reverse_bits(1, 8), 4);
    assert_eq!(reverse_bits(2, 8), 2);
    assert_eq!(reverse_bits(3, 8), 6);
    assert_eq!(reverse_bits(4, 8), 1);
    assert_eq!(reverse_bits(6, 8), 3);
    assert_eq!(reverse_bits(7, 8), 7);
    assert_eq!(reverse_bits(1, 2048), 1024);
    assert_eq!(reverse_bits(2047, 2048), 2047);
}

#[test]
fn derive_fills_the_tables_from_the_roots() {
    let psi0: u64 = root_of(Q0, 4);
    let psi1: u64 = root_of(Q1, 4);
    let p = Params::derive(4, vec![Q0, Q1], &vec![psi0, psi1]).expect("tables");
    assert_eq!(p.poly_len, 4);
    assert_eq!(p.crt_count, 2);
    assert_eq!(p.moduli, vec![Q0, Q1]);
    assert_eq!(p.modulus, 66974689739603969);
    assert_eq!(
        p.forward_roots[0],
        vec![1, pow_mod(psi0, 2, Q0), pow_mod(psi0, 1, Q0), pow_mod(psi0, 3, Q0)]
    );
    assert_eq!(
        p.forward_roots[1],
        vec![1, pow_mod(psi1, 2, Q1), pow_mod(psi1, 1, Q1), pow_mod(psi1, 3, Q1)]
    );
    for c in 0..2 {
        let m: u128 = p.moduli[c] as u128;
        for k in 0..4 {
            let f: u128 = p.forward_roots[c][k] as u128;
            let g: u128 = p.inverse_roots[c][k] as u128;
            assert_eq!(2 * f * g % m, 1);
        }
        assert_eq!(2 * (p.halves[c] as u128) % m, 1);
    }
    assert_eq!(p.halves, vec![(Q0 + 1) / 2, (Q1 + 1) / 2]);
    assert_eq!(p.crt_basis[0] % Q0, 1);
    assert_eq!(p.crt_basis[0] % Q1, 0);
    assert_eq!(p.crt_basis[1] % Q0, 0);
    assert_eq!(p.crt_basis[1] % Q1, 1);
    assert!(p.check());
}

#[test]
fn derive_refuses_malformed_input() {
    assert!(Params::derive(3, vec![Q0, Q1], &vec![1, 1]).is_none());
    assert!(Params::derive(0, vec![Q0, Q1], &vec![1, 1]).is_none());
    assert!(Params::derive(4, vec![Q0, Q1], &vec![1]).is_none());
    assert!(Params::derive(4, vec![Q0, 1], &vec![1, 1]).is_none());
    assert!(Params::derive(4, vec![1 << 40, 1 << 40], &vec![1, 1]).is_none());
}

#[test]
fn derived_tables_of_bad_moduli_do_not_pass_the_check() {
    let even = Params::derive(4, vec![4, 6], &vec![1, 1]).expect("tables");
    assert!(!even.check());
    let shared = Params::derive(4, vec![Q0, Q0], &vec![1, 1]).expect("tables");
    assert!(!shared.check());
    let none = Params::derive(4, vec![], &vec![]).expect("tables");
    assert!(!none.check());
}

#[test]
fn roots_of_unity_are_found() {
    assert_eq!(find_root(17, 4), Some(9));
    assert_eq!(find_root(7, 4), None);
    assert_eq!(find_root(2, 1), None);
    let r: u64 = find_root(Q0, 2048).expect("a root of unity");
    assert_eq!(pow_mod(r, 2048, Q0), Q0 - 1);
    assert_eq!(pow_mod(r, 4096, Q0), 1);
    let s: u64 = find_root(Q1, 4).expect("a root of unity");
    assert_eq!(pow_mod(s, 4, Q1), Q1 - 1);
}

#[test]
fn word_arithmetic_exact_values() {
    assert_eq!(mul_mod(7, 8, 10), 6);
    assert_eq!(mul_mod(u64::MAX, u64::MAX, u64::MAX - 1), 1);
    assert_eq!(mul_add_mod(7, 8, 5, 10), 1);
    assert_eq!(mul_add_mod(u64::MAX, u64::MAX, u64::MAX, u64::MAX), 0);
    assert_eq!(add_mod(u64::MAX, u64::MAX, 1000), (2 * (u64::MAX as u128) % 1000) as u64);
    assert_eq!(add_mod(3, 4, 5), 2);
    assert_eq!(neg_mod(0, 7), 0);
    assert_eq!(neg_mod(7, 7), 0);
    assert_eq!(neg_mod(3, 7), 4);
    assert_eq!(neg_mod(10, 7), 4);
}

#[test]
fn plane_arithmetic_uses_the_prime_of_the_plane() {
    let params = small_params(4);
    assert_eq!(multiply_modular(&params, Q0 - 1, Q0 - 1, 0), 1);
    assert_eq!(multiply_modular(&params, Q1 - 1, 2, 1), Q1 - 2);
    assert_eq!(multiply_add_modular(&params, Q0 - 1, Q0 - 1, Q0 - 1, 0), 0);
    assert_eq!(add_modular(&params, Q1 - 1, 5, 1), 4);
    assert_eq!(add_modular(&params, Q1 - 1, 5, 0), (Q1 + 4) % Q0);
    assert_eq!(invert_modular(&params, 0, 0), 0);
    assert_eq!(invert_modular(&params, 1, 1), Q1 - 1);
    assert_eq!(invert_modular(&params, Q0 + 1, 0), Q0 - 1);
}

#[test]
fn powers_of_two_are_recognised() {
    assert!(!check_pow2(0));
    assert!(check_pow2(1));
    assert!(check_pow2(2));
    assert!(!check_pow2(3));
    assert!(check_pow2(2048));
    assert!(!check_pow2(2049));
    assert!(!check_pow2(6));
}

#[test]
fn product_of_moduli() {
    assert_eq!(product_of(&vec![Q0, Q1]), Some(66974689739603969));
    assert_eq!(product_of(&vec![]), Some(1));
    assert_eq!(product_of(&vec![3, 1]), None);
    assert_eq!(product_of(&vec![0, 5]), None);
    assert_eq!(product_of(&vec![1 << 32, 1 << 32]), None);
    assert_eq!(product_of(&vec![1 << 32, 1 << 31]), Some(1 << 63));
}

#[test]
fn transform_and_back_on_one_cell() {
    let params = small_params(8);
    let cell: Vec<u64> = vec![1, 2, 3, 4, 5, 6, 7, Q0 - 1, 9, 8, 7, 6, 5, 4, 3, Q1 - 1];
    let mut buf: Vec<u64> = cell.clone();
    ntt_forward(&params, &mut buf);
    assert_ne!(buf, cell);
    ntt_inverse(&params, &mut buf);
    assert_eq!(buf, cell);
}

#[test]
fn transform_of_a_degree_one_ring_changes_nothing() {
    let params = small_params(1);
    let mut buf: Vec<u64> = vec![5, 6];
    ntt_forward(&params, &mut buf);
    assert_eq!(buf, vec![5, 6]);
    ntt_inverse(&params, &mut buf);
    assert_eq!(buf, vec![5, 6]);
}

#[test]
fn transform_of_degree_two_exact_values() {
    let params = small_params(2);
    let w0: u64 = params.forward_roots[0][1];
    let w1: u64 = params.forward_roots[1][1];
    let mut buf: Vec<u64> = vec![3, 1, 3, 1];
    ntt_forward(&params, &mut buf);
    assert_eq!(buf, vec![(3 + w0) % Q0, (3 + Q0 - w0) % Q0, (3 + w1) % Q1, (3 + Q1 - w1) % Q1]);
}

#[test]
fn words_are_copied_and_cleared() {
    let mut dst: Vec<u64> = vec![9, 9, 9];
    copy_words(&mut dst, &[1, 2, 3]);
    assert_eq!(dst, vec![1, 2, 3]);
    clear_words(&mut dst);
    assert_eq!(dst, vec![0, 0, 0]);
}

#[test]
fn random_words_have_the_asked_length() {
    assert_eq!(random_words(0).len(), 0);
    let words: Vec<u64> = random_words(64);
    assert_eq!(words.len(), 64);
    let first: u64 = words[0];
    assert!(words.iter().any(|w| *w != first));
    let mut rng = rand::thread_rng();
    let more: Vec<u64> = draw_words(&mut rng, 16);
    assert_eq!(more.len(), 16);
    assert_ne!(&words[..16], &more[..]);
}

#[test]
fn noise_word_is_the_residue() {
    assert_eq!(noise_word(0, 17), 0);
    assert_eq!(noise_word(5, 17), 5);
    assert_eq!(noise_word(-1, 17), 16);
    assert_eq!(noise_word(-17, 17), 0);
    assert_eq!(noise_word(-18, 17), 16);
    assert_eq!(noise_word(35, 17), 1);
    assert_eq!(noise_word(i64::MIN, 1 << 62), 0);
    assert_eq!(noise_word(i64::MIN, u64::MAX), u64::MAX - (1 << 63));
    assert_eq!(noise_word(i64::MAX, u64::MAX), i64::MAX as u64);
}

#[test]
fn sampler_needs_matching_positive_weights() {
    assert!(DiscreteGaussian::init(vec![-1, 0, 1], &vec![1, 2]).is_none());
    assert!(DiscreteGaussian::init(vec![], &vec![]).is_none());
    assert!(DiscreteGaussian::init(vec![0, 1], &vec![0, 0]).is_none());
    assert!(DiscreteGaussian::init(vec![0, 1], &vec![u64::MAX, 1]).is_none());
    let dg = DiscreteGaussian::init(vec![-1, 0, 1], &vec![1, 2, 1]).expect("a sampler");
    assert_eq!(dg.choices, vec![-1, 0, 1]);
    assert_eq!(dg.cumulative, vec![1, 3, 4]);
}

#[test]
fn pick_follows_the_running_totals() {
    let dg = DiscreteGaussian::init(vec![-2, -1, 0, 1, 2], &vec![1, 0, 6, 2, 1]).expect("a sampler");
    assert_eq!(dg.pick(0), -2);
    assert_eq!(dg.pick(1), 0);
    assert_eq!(dg.pick(6), 0);
    assert_eq!(dg.pick(7), 1);
    assert_eq!(dg.pick(8), 1);
    assert_eq!(dg.pick(9), 2);
    assert_eq!(dg.pick(10), -2);
    assert_eq!(dg.pick(19), 2);
}

#[test]
fn sample_gives_one_of_the_choices() {
    let mut dg = DiscreteGaussian::init(vec![-3, 0, 3], &vec![1, 2, 1]).expect("a sampler");
    for _ in 0..100 {
        let v: i64 = dg.sample();
        assert!(v == -3 || v == 0 || v == 3);
    }
    let mut one = DiscreteGaussian::init(vec![-3, 0, 3], &vec![0, 5, 0]).expect("a sampler");
    for _ in 0..20 {
        assert_eq!(one.sample(), 0);
    }
}

#[test]
fn fill_noise_writes_the_picked_residues() {
    let params = small_params(4);
    let q: u64 = params.modulus;
    let dg = DiscreteGaussian::init(vec![-1, 0, 1], &vec![1, 2, 1]).expect("a sampler");
    let mut m = PolyMatrixRaw::random(&params, 1, 2);
    dg.fill_noise(&mut m, &vec![0, 1, 2, 3, 4, 5, 6, 7]);
    assert_eq!(m.data, vec![q - 1, 0, 0, 1, q - 1, 0, 0, 1]);
    assert_eq!(m.rows, 1);
    assert_eq!(m.cols, 2);
}

#[test]
fn noise_matrix_holds_small_residues() {
    let params = small_params(4);
    let q: u64 = params.modulus;
    let mut dg = DiscreteGaussian::init(vec![-2, -1, 0, 1, 2], &vec![1, 4, 6, 4, 1]).expect("a sampler");
    let m = PolyMatrixRaw::noise(&params, 3, 4, &mut dg);
    assert_eq!(m.rows, 3);
    assert_eq!(m.cols, 4);
    assert_eq!(m.data.len(), 48);
    for w in m.as_slice() {
        assert!(*w <= 2 || *w >= q - 2);
    }
    let mut again = PolyMatrixRaw::zero(&params, 3, 4);
    dg.sample_matrix(&mut again);
    for w in again.as_slice() {
        assert!(*w <= 2 || *w >= q - 2);
    }
}

#[test]
fn derived_tables_make_a_negacyclic_transform() {
    assert!(small_params(1).check_negacyclic());
    assert!(small_params(2).check_negacyclic());
    assert!(small_params(4).check_negacyclic());
    assert!(small_params(2048).check_negacyclic());
}

#[test]
fn tables_of_a_wrong_root_are_no_negacyclic_transform() {
    // with the root 1 the transform has an inverse, but multiplies in another ring
    let flat = Params::derive(4, vec![Q0, Q1], &vec![1, 1]).expect("tables");
    assert!(flat.check());
    assert!(!flat.check_negacyclic());
    let mut bent = small_params(8);
    bent.forward_roots[1][5] = bent.forward_roots[1][4];
    bent.inverse_roots[1][5] = bent.inverse_roots[1][4];
    assert!(bent.check());
    assert!(!bent.check_negacyclic());
}
