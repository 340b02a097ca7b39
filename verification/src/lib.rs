//! A define-by-run automatic differentiation framework.
pub mod data;
pub mod engine;
pub mod functions;
pub mod index;
pub mod inner;
pub mod laws;
pub mod layers;
pub mod models;
pub mod optim;
pub mod remap;
pub mod scalar;
pub mod tensor;
pub mod text;
pub mod utils;
