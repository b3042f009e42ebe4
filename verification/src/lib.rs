//! Symbolic differentiation of scalar expressions and factoring of the
//! resulting derivative graph.
pub mod construct;
pub mod derivative;
pub mod dominance;
pub mod env;
pub mod error;
pub mod expr;
pub mod factor;
pub mod graph;
pub mod parse;
pub mod pathsum;
pub mod pipeline;
pub mod postorder;
pub mod preserve;
pub mod rational;
pub mod shrink;
pub mod render;
pub mod simplify;
pub mod value;

pub use env::Environment;
pub use error::Error;
pub use expr::{Bop, Expr, Uop, Var};
pub use graph::{Deriv, Edge};
pub use rational::Rational;
