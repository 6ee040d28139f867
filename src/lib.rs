//! Evaluation of integer arithmetic expressions written as text.
//!
//! Text is split into tokens by the `tokenizer` module, and the tokens are
//! evaluated by precedence climbing in the `expr` module. Each step is proved
//! equal to a mathematical description of it; `laws` holds what follows for
//! whole expressions.

pub mod token;
pub mod tokenizer;
pub mod expr;
pub mod laws;

pub use token::{Assoc, Token};
pub use tokenizer::Tokenizer;
pub use expr::{checked_evaluate, evaluate, Expr, ExprError, Failure};
