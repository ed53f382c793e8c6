use vstd::prelude::*;

verus! {

/// The ways in which a stage of the engine can fail.
#[derive(Debug, Clone, PartialEq)]
pub enum Error {
    /// A malformed number literal; holds the literal's text.
    LexError(String),
    /// Unbalanced parentheses.
    SyntaxError,
    /// A function name that the evaluator does not know; holds the name.
    UnknownFunctionError(String),
    /// A missing operand, or not exactly one value left at the end.
    EvaluationError,
    /// A malformed domain description; holds the description.
    ConfigError(String),
    /// A token that has no meaning in postfix order.
    InternalError,
}

/// The mathematical value of an [`Error`]: texts become character sequences.
pub enum Fault {
    Lex(Seq<char>),
    Syntax,
    UnknownFunction(Seq<char>),
    Evaluation,
    Config(Seq<char>),
    Internal,
}

impl View for Error {
    type V = Fault;

    open spec fn view(&self) -> Fault {
        match self {
            Error::LexError(s) => Fault::Lex(s@),
            Error::SyntaxError => Fault::Syntax,
            Error::UnknownFunctionError(s) => Fault::UnknownFunction(s@),
            Error::EvaluationError => Fault::Evaluation,
            Error::ConfigError(s) => Fault::Config(s@),
            Error::InternalError => Fault::Internal,
        }
    }
}

} // verus!
