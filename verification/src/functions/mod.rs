//! The array functions that the differentiable operations are made of.
pub mod activation;
pub mod adjoint;
pub mod basic_math;
pub mod checks;
pub mod conv;
pub mod loss;
pub mod matmul;
pub mod reduce;
pub mod shape;
