use vstd::prelude::*;

use crate::error::{Error, Fault};
use crate::lexer::{lex, scan, tok_views, OperatorType, Tok, TokenType};
use crate::parser::{postfix, shunting_yard};

verus! {

/// The unary functions that an expression can call.
#[derive(Debug, Clone, Copy, PartialEq, Eq, Structural)]
pub enum FunctionKind {
    Sin,
    Cos,
    Tan,
    Sqrt,
    Log2,
}

/// The function that a name stands for, if any.
pub open spec fn function_named(name: Seq<char>) -> Option<FunctionKind> {
    if name == "sin"@ {
        Some(FunctionKind::Sin)
    } else if name == "cos"@ {
        Some(FunctionKind::Cos)
    } else if name == "tan"@ {
        Some(FunctionKind::Tan)
    } else if name == "sqrt"@ {
        Some(FunctionKind::Sqrt)
    } else if name == "log2"@ {
        Some(FunctionKind::Log2)
    } else {
        None
    }
}

/// Whether `name` reads as `word`.
fn spelled(name: &String, word: &str) -> (r: bool)
    ensures
        r == (name@ == word@),
{
    *name == word.to_owned()
}

impl FunctionKind {
    /// Looks a function up by name.
    pub fn from_name(name: &String) -> (r: Option<FunctionKind>)
        ensures
            r == function_named(name@),
    {
        if spelled(name, "sin") {
            Some(FunctionKind::Sin)
        } else if spelled(name, "cos") {
            Some(FunctionKind::Cos)
        } else if spelled(name, "tan") {
            Some(FunctionKind::Tan)
        } else if spelled(name, "sqrt") {
            Some(FunctionKind::Sqrt)
        } else if spelled(name, "log2") {
            Some(FunctionKind::Log2)
        } else {
            None
        }
    }
}

/// The value of an expression, kept symbolic: a literal's text, an operator
/// applied to a left and a right operand, or a function applied to one.
#[derive(Debug, PartialEq)]
pub enum Term {
    Number(String),
    Binary(OperatorType, Box<Term>, Box<Term>),
    Call(FunctionKind, Box<Term>),
}

/// The mathematical value of a [`Term`].
pub enum Val {
    Number(Seq<char>),
    Binary(OperatorType, Box<Val>, Box<Val>),
    Call(FunctionKind, Box<Val>),
}

pub open spec fn term_view(t: Term) -> Val
    decreases t,
{
    match t {
        Term::Number(s) => Val::Number(s@),
        Term::Binary(op, l, r) => Val::Binary(op, Box::new(term_view(*l)), Box::new(term_view(*r))),
        Term::Call(f, a) => Val::Call(f, Box::new(term_view(*a))),
    }
}

impl View for Term {
    type V = Val;

    open spec fn view(&self) -> Val {
        term_view(*self)
    }
}

pub open spec fn term_views(ts: Seq<Term>) -> Seq<Val> {
    ts.map_values(|t: Term| t@)
}

/// One postfix token applied to the operand stack. An operator takes the
/// top as its right operand and the one below as its left.
pub open spec fn eval_step(stack: Seq<Val>, t: Tok) -> Result<Seq<Val>, Fault> {
    let n = stack.len();
    match t {
        Tok::Number(s) => Ok(stack.push(Val::Number(s))),
        Tok::Operator(op) => if n < 2 {
            Err(Fault::Evaluation)
        } else {
            Ok(
                stack.subrange(0, n - 2).push(
                    Val::Binary(op, Box::new(stack[n - 2]), Box::new(stack[n - 1])),
                ),
            )
        },
        Tok::Function(name) => match function_named(name) {
            None => Err(Fault::UnknownFunction(name)),
            Some(f) => if n < 1 {
                Err(Fault::Evaluation)
            } else {
                Ok(stack.drop_last().push(Val::Call(f, Box::new(stack[n - 1]))))
            },
        },
        _ => Err(Fault::Internal),
    }
}

/// The operand stack after all of `ts`.
pub open spec fn eval_run(ts: Seq<Tok>) -> Result<Seq<Val>, Fault>
    decreases ts.len(),
{
    if ts.len() == 0 {
        Ok(seq![])
    } else {
        match eval_run(ts.drop_last()) {
            Ok(stack) => eval_step(stack, ts.last()),
            Err(e) => Err(e),
        }
    }
}

/// The value of a postfix sequence: the one operand left at the end.
pub open spec fn eval_postfix(ts: Seq<Tok>) -> Result<Val, Fault> {
    match eval_run(ts) {
        Ok(stack) => if stack.len() == 1 {
            Ok(stack[0])
        } else {
            Err(Fault::Evaluation)
        },
        Err(e) => Err(e),
    }
}

/// The value of an expression's text: tokens, postfix order, evaluation.
pub open spec fn evaluation(s: Seq<char>) -> Result<Val, Fault> {
    match lex(s) {
        Err(lit) => Err(Fault::Lex(lit)),
        Ok(ts) => match postfix(ts) {
            Err(e) => Err(e),
            Ok(p) => eval_postfix(p),
        },
    }
}

pub open spec fn outcome(r: Result<Term, Error>) -> Result<Val, Fault> {
    match r {
        Ok(t) => Ok(t@),
        Err(e) => Err(e@),
    }
}

proof fn lemma_eval_error_stays(ts: Seq<Tok>, k: int)
    requires
        0 <= k <= ts.len(),
        eval_run(ts.take(k)) is Err,
    ensures
        eval_run(ts) == eval_run(ts.take(k)),
    decreases ts.len() - k,
{
    if k < ts.len() {
        assert(ts.take(k + 1).drop_last() =~= ts.take(k));
        lemma_eval_error_stays(ts, k + 1);
    } else {
        assert(ts.take(k) =~= ts);
    }
}

/// Evaluates a postfix sequence against an operand stack.
pub fn evaluate(postfix: &[TokenType]) -> (r: Result<Term, Error>)
    ensures
        outcome(r) == eval_postfix(tok_views(postfix@)),
{
    let ghost ts = tok_views(postfix@);
    let mut stack: Vec<Term> = Vec::new();
    let mut i: usize = 0;
    assert(ts.take(0) =~= seq![]);
    assert(term_views(stack@) =~= seq![]);
    while i < postfix.len()
        invariant
            ts == tok_views(postfix@),
            i <= postfix@.len(),
            eval_run(ts.take(i as int)) == Ok::<Seq<Val>, Fault>(term_views(stack@)),
        decreases postfix@.len() - i,
    {
        let token = &postfix[i];
        let ghost before = term_views(stack@);
        proof {
            assert(ts.take(i + 1).drop_last() =~= ts.take(i as int));
            assert(ts.take(i + 1).last() == token@);
        }
        match token {
            TokenType::Number(text) => {
                stack.push(Term::Number(text.clone()));
                assert(term_views(stack@) =~= before.push(Val::Number(text@)));
            },
            TokenType::Operator(op) => {
                if stack.len() < 2 {
                    proof { lemma_eval_error_stays(ts, i + 1); }
                    return Err(Error::EvaluationError);
                }
                let rhs = stack.pop().unwrap();
                let lhs = stack.pop().unwrap();
                stack.push(Term::Binary(*op, Box::new(lhs), Box::new(rhs)));
                proof {
                    let n = before.len();
                    assert(term_views(stack@) =~= before.subrange(0, n - 2).push(
                        Val::Binary(*op, Box::new(before[n - 2]), Box::new(before[n - 1])),
                    ));
                }
            },
            TokenType::Function(name) => {
                let kind = FunctionKind::from_name(name);
                match kind {
                    None => {
                        proof { lemma_eval_error_stays(ts, i + 1); }
                        return Err(Error::UnknownFunctionError(name.clone()));
                    },
                    Some(f) => {
                        if stack.len() < 1 {
                            proof { lemma_eval_error_stays(ts, i + 1); }
                            return Err(Error::EvaluationError);
                        }
                        let arg = stack.pop().unwrap();
                        stack.push(Term::Call(f, Box::new(arg)));
                        proof {
                            let n = before.len();
                            assert(term_views(stack@) =~= before.drop_last().push(
                                Val::Call(f, Box::new(before[n - 1])),
                            ));
                        }
                    },
                }
            },
            _ => {
                proof { lemma_eval_error_stays(ts, i + 1); }
                return Err(Error::InternalError);
            },
        }
        i = i + 1;
    }
    assert(ts.take(i as int) =~= ts);
    if stack.len() != 1 {
        return Err(Error::EvaluationError);
    }
    Ok(stack.pop().unwrap())
}

/// Evaluates an expression's text.
pub fn eval(expression: &str) -> (r: Result<Term, Error>)
    ensures
        outcome(r) == evaluation(expression@),
{
    let tokens = match scan(expression) {
        Ok(tokens) => tokens,
        Err(e) => return Err(e),
    };
    let order = match shunting_yard(tokens.as_slice()) {
        Ok(order) => order,
        Err(e) => return Err(e),
    };
    evaluate(order.as_slice())
}

} // verus!
