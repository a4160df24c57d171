//! Shape algebra and structural transformations of N-dimensional arrays:
//! reshape and rerank, keep, rotate, windows, pattern search and row lookup,
//! over arrays whose elements are bytes or characters.
//!
//! Every array keeps its element count equal to the product of its shape,
//! and every operation states its result over the row-major model of
//! [`array::Array`]: a shape sequence and an element sequence.

pub mod algebra;
pub mod array;
pub mod error;
pub mod find;
pub mod grid_fmt;
pub mod keep;
pub mod reshape;
pub mod rotate;
pub mod search;
pub mod shape;
pub mod value;
pub mod windows;
