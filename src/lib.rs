//! A small feed-forward neural-network engine: dense matrices with
//! shape-checked algebra, training batches and their sampling, and layered
//! models trained by gradient descent.
//!
//! The library holds no number type of its own. Matrices are generic over
//! their cells, element-wise work and products take the scalar operations as
//! closures, and a model computes with an [`arith::Arithmetic`]: the scalar
//! operations, supplied by the caller.

pub mod act;
pub mod mat;
pub mod batch;
pub mod nn;
pub mod arith;
