//! Dense matrices over a flat row-major buffer, and three interchangeable
//! strategies for combining two of them cell by cell.
//!
//! The element type is a parameter. Whatever arithmetic the elements have is
//! handed in by the caller as a function, so every contract here speaks of the
//! outcomes of that function and of nothing else.
//!
//! - [`matrix`]: the matrix, its model [`Grid`], its constructors and its
//!   three ways of access: the whole buffer, a row, and a cell of a row.
//! - [`product`]: what combining two matrices means, the three strategies
//!   that do it, and the laws that hold of them.
//! - [`render`]: a matrix as lines of text.

pub mod matrix;
pub mod product;
pub mod render;

pub use matrix::Grid;
pub use matrix::Matrix;
pub use product::accumulate_flat;
pub use product::accumulate_raw;
pub use product::accumulate_rows;
pub use product::matmul1;
pub use product::matmul2;
pub use product::matmul3;
