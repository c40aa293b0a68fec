//! A small dense-array / matrix computation library.
//!
//! The crate stores dense data row-major in flat buffers (`ArrayBuf` for
//! arbitrary rank, `MatBuf` for matrices), offers a zero-copy transposed view
//! of a matrix through a boolean flag, and builds the usual arithmetic
//! kernels on top: elementwise add/subtract, scalar multiply, dense matrix
//! multiplication, Euclidean norms, and the two masked projection operators
//! used to clip a matrix against an observation mask.

pub mod array;
pub mod error;
pub mod linalg;
pub mod number;
pub mod omega;
pub mod synthetic;

pub use error::Error;
pub use omega::Omega;
