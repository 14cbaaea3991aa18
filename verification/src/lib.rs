//! Two-dimensional arrays, bit packing and the integer core of a lossy
//! image codec that stores each 2x2 block of pixels in one 32-bit word.

pub mod array2;
pub mod bitpack;
pub mod blocks;
pub mod codeword;
pub mod compressed;

pub use array2::{Array2, Array2Iter, TypeOfIteration};
