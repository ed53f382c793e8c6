use vstd::prelude::*;

use crate::error::{Error, Fault};
use crate::lexer::{tok_views, Associativity, OperatorType, Tok, TokenType};

verus! {

/// The state of the converter: the output queue and the operator stack.
pub struct Yard {
    pub out: Seq<Tok>,
    pub stack: Seq<Tok>,
}

/// Whether the operator on top of `stack` is moved to the output before `op`
/// is pushed.
pub open spec fn yields_to(stack: Seq<Tok>, op: OperatorType) -> bool {
    &&& stack.len() > 0
    &&& stack.last() is Operator
    &&& stack.last()->Operator_0.spec_precedence() >= op.spec_precedence()
    &&& op.spec_associativity() == Associativity::Left
}

/// Moves operators from the stack to the output while they bind at least as
/// tightly as a left-associative `op`.
pub open spec fn pop_binding(y: Yard, op: OperatorType) -> Yard
    decreases y.stack.len(),
{
    if yields_to(y.stack, op) {
        pop_binding(Yard { out: y.out.push(y.stack.last()), stack: y.stack.drop_last() }, op)
    } else {
        y
    }
}

/// Moves operators to the output down to the nearest `(`, which is dropped.
pub open spec fn pop_to_paren(y: Yard) -> Result<Yard, Fault>
    decreases y.stack.len(),
{
    if y.stack.len() == 0 {
        Err(Fault::Syntax)
    } else if y.stack.last() is LeftParen {
        Ok(Yard { out: y.out, stack: y.stack.drop_last() })
    } else {
        pop_to_paren(Yard { out: y.out.push(y.stack.last()), stack: y.stack.drop_last() })
    }
}

/// After a `)`: a function on top of the stack follows its argument.
pub open spec fn close_call(y: Yard) -> Yard {
    if y.stack.len() > 0 && y.stack.last() is Function {
        Yard { out: y.out.push(y.stack.last()), stack: y.stack.drop_last() }
    } else {
        y
    }
}

/// One token of input read by the converter.
pub open spec fn yard_step(y: Yard, t: Tok) -> Result<Yard, Fault> {
    match t {
        Tok::Number(_) | Tok::Variable => Ok(Yard { out: y.out.push(t), stack: y.stack }),
        Tok::Function(_) | Tok::LeftParen => Ok(Yard { out: y.out, stack: y.stack.push(t) }),
        Tok::Operator(op) => {
            let z = pop_binding(y, op);
            Ok(Yard { out: z.out, stack: z.stack.push(t) })
        },
        Tok::RightParen => match pop_to_paren(y) {
            Ok(z) => Ok(close_call(z)),
            Err(e) => Err(e),
        },
    }
}

/// The converter's state after reading all of `ts`.
pub open spec fn yard_run(ts: Seq<Tok>) -> Result<Yard, Fault>
    decreases ts.len(),
{
    if ts.len() == 0 {
        Ok(Yard { out: seq![], stack: seq![] })
    } else {
        match yard_run(ts.drop_last()) {
            Ok(y) => yard_step(y, ts.last()),
            Err(e) => Err(e),
        }
    }
}

/// The output, followed by the stack from its top down; an unclosed `(` fails.
pub open spec fn flush(y: Yard) -> Result<Seq<Tok>, Fault> {
    if y.stack.contains(Tok::LeftParen) {
        Err(Fault::Syntax)
    } else {
        Ok(y.out + y.stack.reverse())
    }
}

/// The postfix order of an infix token sequence.
pub open spec fn postfix(ts: Seq<Tok>) -> Result<Seq<Tok>, Fault> {
    match yard_run(ts) {
        Ok(y) => flush(y),
        Err(e) => Err(e),
    }
}

proof fn lemma_views_push(ts: Seq<TokenType>, t: TokenType)
    ensures
        tok_views(ts.push(t)) == tok_views(ts).push(t@),
{
    assert(tok_views(ts.push(t)) =~= tok_views(ts).push(t@));
}

proof fn lemma_views_drop_last(ts: Seq<TokenType>)
    requires
        ts.len() > 0,
    ensures
        tok_views(ts.drop_last()) == tok_views(ts).drop_last(),
        tok_views(ts).last() == ts.last()@,
{
    assert(tok_views(ts.drop_last()) =~= tok_views(ts).drop_last());
}

proof fn lemma_yard_error_stays(ts: Seq<Tok>, k: int)
    requires
        0 <= k <= ts.len(),
        yard_run(ts.take(k)) is Err,
    ensures
        yard_run(ts) == yard_run(ts.take(k)),
    decreases ts.len() - k,
{
    if k < ts.len() {
        assert(ts.take(k + 1).drop_last() =~= ts.take(k));
        lemma_yard_error_stays(ts, k + 1);
    } else {
        assert(ts.take(k) =~= ts);
    }
}

pub open spec fn yard_of(out: Seq<TokenType>, stack: Seq<TokenType>) -> Yard {
    Yard { out: tok_views(out), stack: tok_views(stack) }
}

/// Converts an infix token sequence to postfix order (shunting-yard).
/// Tokens are copied; the input is left as it is.
pub fn shunting_yard(tokens: &[TokenType]) -> (r: Result<Vec<TokenType>, Error>)
    ensures
        match postfix(tok_views(tokens@)) {
            Ok(p) => r is Ok && tok_views(r->Ok_0@) == p,
            Err(f) => r is Err && r->Err_0@ == f,
        },
{
    let ghost ts = tok_views(tokens@);
    let mut out: Vec<TokenType> = Vec::new();
    let mut stack: Vec<TokenType> = Vec::new();
    let mut i: usize = 0;
    assert(ts.take(0) =~= seq![]);
    assert(tok_views(out@) =~= seq![]);
    assert(tok_views(stack@) =~= seq![]);
    while i < tokens.len()
        invariant
            ts == tok_views(tokens@),
            i <= tokens@.len(),
            yard_run(ts.take(i as int)) == Ok::<Yard, Fault>(yard_of(out@, stack@)),
        decreases tokens@.len() - i,
    {
        let token = &tokens[i];
        let ghost y0 = yard_of(out@, stack@);
        proof {
            assert(ts.take(i + 1).drop_last() =~= ts.take(i as int));
            assert(ts.take(i + 1).last() == token@);
        }
        match token {
            TokenType::Number(_) | TokenType::Variable => {
                proof { lemma_views_push(out@, *token); }
                out.push(token.duplicate());
            },
            TokenType::Function(_) | TokenType::LeftParen => {
                proof { lemma_views_push(stack@, *token); }
                stack.push(token.duplicate());
            },
            TokenType::Operator(op) => {
                while stack.len() > 0
                    invariant
                        pop_binding(y0, *op) == pop_binding(yard_of(out@, stack@), *op),
                    ensures
                        pop_binding(y0, *op) == yard_of(out@, stack@),
                    decreases stack@.len(),
                {
                    let top = stack.len() - 1;
                    let binds = match &stack[top] {
                        TokenType::Operator(other) => other.precedence() >= op.precedence()
                            && op.associativity() == Associativity::Left,
                        _ => false,
                    };
                    proof { lemma_views_drop_last(stack@); }
                    if !binds {
                        break;
                    }
                    let moved = stack.pop().unwrap();
                    proof { lemma_views_push(out@, moved); }
                    out.push(moved);
                }
                proof { lemma_views_push(stack@, *token); }
                stack.push(token.duplicate());
            },
            TokenType::RightParen => {
                let mut found = false;
                while !found && stack.len() > 0
                    invariant
                        found ==> pop_to_paren(y0) == Ok::<Yard, Fault>(yard_of(out@, stack@)),
                        !found ==> pop_to_paren(y0) == pop_to_paren(yard_of(out@, stack@)),
                    decreases stack@.len(),
                {
                    let ghost before = stack@;
                    let top = stack.pop().unwrap();
                    proof {
                        lemma_views_drop_last(before);
                    }
                    match top {
                        TokenType::LeftParen => {
                            found = true;
                        },
                        _ => {
                            proof { lemma_views_push(out@, top); }
                            out.push(top);
                        },
                    }
                }
                if !found {
                    proof {
                        assert(yard_run(ts.take(i + 1)) == Err::<Yard, Fault>(Fault::Syntax));
                        lemma_yard_error_stays(ts, i + 1);
                        assert(ts.take(ts.len() as int) =~= ts);
                    }
                    return Err(Error::SyntaxError);
                }
                if stack.len() > 0 {
                    let top = stack.len() - 1;
                    proof { lemma_views_drop_last(stack@); }
                    if let TokenType::Function(_) = &stack[top] {
                        let call = stack.pop().unwrap();
                        proof { lemma_views_push(out@, call); }
                        out.push(call);
                    }
                }
            },
        }
        i = i + 1;
    }
    assert(ts.take(i as int) =~= ts);
    let ghost y = yard_of(out@, stack@);
    let ghost out_before = out@;
    let ghost stack_before = stack@;
    let mut open = false;
    while stack.len() > 0
        invariant
            y == yard_of(out_before, stack_before),
            tok_views(out@) == tok_views(out_before) + tok_views(stack_before).subrange(
                stack@.len() as int,
                stack_before.len() as int,
            ).reverse(),
            stack@ == stack_before.subrange(0, stack@.len() as int),
            stack@.len() <= stack_before.len(),
            open == exists|k: int|
                stack@.len() <= k < stack_before.len() && #[trigger] stack_before[k]@ == Tok::LeftParen,
        decreases stack@.len(),
    {
        let top = stack.pop().unwrap();
        let ghost n: int = stack@.len() as int;
        if let TokenType::LeftParen = top {
            open = true;
        }
        proof {
            lemma_views_push(out@, top);
            assert(top == stack_before[n]);
            let a = tok_views(stack_before).subrange(n + 1, stack_before.len() as int);
            let b = tok_views(stack_before).subrange(n, stack_before.len() as int);
            assert(b.reverse() =~= a.reverse().push(top@));
        }
        out.push(top);
        assert(stack@ =~= stack_before.subrange(0, stack@.len() as int));
    }
    proof {
        assert(tok_views(stack_before).subrange(0, stack_before.len() as int) =~= tok_views(stack_before));
        if y.stack.contains(Tok::LeftParen) {
            let k = choose|k: int| 0 <= k < y.stack.len() && y.stack[k] == Tok::LeftParen;
            assert(stack_before[k]@ == Tok::LeftParen);
        }
        if open {
            let k = choose|k: int| 0 <= k < stack_before.len() && #[trigger] stack_before[k]@ == Tok::LeftParen;
            assert(y.stack[k] == Tok::LeftParen);
        }
    }
    if open {
        return Err(Error::SyntaxError);
    }
    Ok(out)
}

} // verus!
