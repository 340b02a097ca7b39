//! What the operations, layers and networks are for.
//!
//! Elsewhere an operation is described by how its result is put together. Here it is
//! described by what can be read off the result, element by element, in words that the
//! operations themselves do not use.
pub mod activations;
pub mod axes;
pub mod building;
pub mod chance;
pub mod checking;
pub mod classifier;
pub mod data;
pub mod dropout;
pub mod elements;
pub mod gradients;
pub mod images;
pub mod layers;
pub mod networks;
pub mod shapes;
pub mod training;
