//! An arithmetic expression engine: a tokenizer, a shunting-yard converter
//! from infix to postfix order, and a stack evaluator whose operands are
//! symbolic terms, together with the text handling of domain sampling.
//!
//! Numbers are kept as their decimal text. Turning a term into a machine
//! number is left to the caller, so that everything here stays exact.

pub mod chart;
pub mod error;
pub mod evaluator;
pub mod laws;
pub mod lexer;
pub mod parser;
pub mod sampling;

pub use chart::{chart_frame, frame_cell};
pub use error::{Error, Fault};
pub use evaluator::{eval, evaluate, evaluation, outcome, FunctionKind, Term, Val};
pub use laws::{
    balanced, calls_unknown, groups_left, is_literal, lemma_eval_repeatable, lemma_literal_round_trip,
    lemma_two_operators,
    lemma_unbalanced_expression, lemma_unbalanced_is_syntax_error, lemma_unknown_function_fails,
};
pub use lexer::{lex, scan, Associativity, OperatorType, Tok, TokenType, VARIABLE};
pub use parser::{postfix, shunting_yard};
pub use sampling::{domain_fields, eval_with_variable, eval_with_variables, substitute, substituted};
