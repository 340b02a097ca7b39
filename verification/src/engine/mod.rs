//! The differentiation engine: configuration, elementwise arithmetic, the graph
//! and the backward pass.
pub mod backward;
pub mod builtin;
pub mod config;
pub mod derivative;
pub mod elementwise;
pub mod function;
pub mod gradient;
pub mod graph;
pub mod laws;
pub mod ops;
pub mod parameter;
pub mod perturb;
pub mod repeated;
pub mod rule;
pub mod schedule;
pub mod tangent;
pub mod term;
pub mod trace;
pub mod transpose;
pub mod unchain;
