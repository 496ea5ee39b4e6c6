//! Static analysis of polyglot (GraalVM) calls in Java syntax trees.
pub mod cst;
pub mod java;
pub mod order;
pub mod preorder;
pub mod syntax;
pub mod text;
pub mod use_solver;

pub use text::Language;
