//! Matrices of polynomials over the cyclotomic ring `Z_q[x]/(x^n + 1)`, held
//! either as coefficients or as number-theoretic-transform images split over
//! word-sized primes, with the arithmetic that ring-learning-with-errors
//! schemes need on them.
//!
//! `params` holds the parameter set and `derive` computes its tables;
//! `arith` and `ntt` are the word arithmetic and the transform; `poly` holds
//! the two kinds of matrix, `cell_ops` and `matrix_ops` the arithmetic on
//! cells and on matrices, `deferred` the product with one reduction for each
//! cell, `operators` the operator forms, `discrete_gaussian` and `rng` the
//! sampling. `laws`, `product_laws`, `evaluation` and `ring_product` prove
//! what holds between the operations.

pub mod params;
pub mod derive;
pub mod arith;
pub mod ntt;
pub mod poly;
pub mod cell_ops;
pub mod matrix_ops;
pub mod deferred;
pub mod operators;
pub mod rng;
pub mod discrete_gaussian;
pub mod laws;
pub mod product_laws;
pub mod evaluation;
pub mod ring_product;
