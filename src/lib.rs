//! Transposes of flattened, row-major two-dimensional arrays: out of place
//! into a second buffer, or in place with a small workspace.
pub mod inplace;
pub mod outofplace;

pub use inplace::{ip_transpose, square_transpose};
pub use outofplace::oop_transpose;
