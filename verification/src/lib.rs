//! Exact evaluation core for expression-driven musical note properties.

pub mod approx;
pub mod bignum;
pub mod bytecode;
pub mod compiler;
pub mod cycles;
pub mod decimal;
pub mod evaluator;
pub mod fraction;
pub mod graph;
pub mod machine;
pub mod note;
pub mod order;
pub mod parse;
pub mod persistent;
pub mod power;
pub mod rational;
pub mod reach;
pub mod sets;
pub mod symbolic;
pub mod syntax;
pub mod text;
pub mod value;

pub use compiler::ExpressionCompiler;
pub use evaluator::Evaluator;
pub use fraction::Fraction;
pub use graph::DependencyGraph;
pub use persistent::PersistentEvaluator;
