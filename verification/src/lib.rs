//! Hodge decomposition of signals and belief states on graphs: the verified core.
//!
//! This crate holds the parts of the library whose behaviour is exact: the error
//! type and its messages, the row-major matrix layout, the graph Laplacian
//! builders with their algebraic laws, and the input validation of the
//! decomposition.
pub mod error;
pub mod hodge;
pub mod laplacian;
pub mod laplacian_laws;
pub mod matrix;
pub mod sums;
