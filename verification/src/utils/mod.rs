//! Shape arithmetic, array helpers and the random source.
pub mod array;
pub mod conv;
pub mod copies;
pub mod dot;
pub mod down;
pub mod numerical;
pub mod random;
pub mod shape;
