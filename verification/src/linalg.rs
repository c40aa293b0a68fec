//! Matrices: a borrowed view (`Mat`), an owning buffer (`MatBuf`), and the
//! arithmetic kernels built on them.

pub mod add_sub;
pub mod mat;
pub mod mul;
pub mod norm;

pub use mat::{Mat, MatBuf};
pub use mul::gemm_scalar;
pub use norm::{EuclideanNorm, Norm};
