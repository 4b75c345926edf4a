//! A verified symbolic-expression engine: immutable, structurally shared
//! expression trees with canonicalization and symbolic differentiation.

pub mod assumptions;
pub mod big;
pub mod canonicalize;
pub mod convert;
pub mod derivative;
pub mod eval_symbolic;
pub mod expr;
pub mod laws;
pub mod number;
pub mod order;
pub mod plus;
pub mod symbol;
pub mod times;
pub mod undefined;

pub use assumptions::Assumptions;
pub use big::BigInteger;
pub use derivative::Derivative;
pub use expr::{Expr, Node, NodeV};
pub use number::{Number, Sign};
pub use plus::Plus;
pub use symbol::Symbol;
pub use times::Times;
pub use undefined::Undefined;
