use vstd::prelude::*;

use crate::error::{Error, Fault};
use crate::evaluator::{eval_postfix, eval_run, evaluation, function_named, outcome, Term, Val};
use crate::lexer::{
    has_two_points, is_digit, lex, lex_from, numeric_end, starts_number, Associativity, OperatorType, Tok,
};
use crate::parser::{pop_binding, pop_to_paren, postfix, yard_run, yard_step, yields_to, Yard};

verus! {

/// A well-formed number literal: a digit, or a minus sign and a digit, then
/// digits with at most one decimal point among them.
pub open spec fn is_literal(n: Seq<char>) -> bool {
    &&& starts_number(n, 0)
    &&& forall|k: int| 1 <= k < n.len() ==> is_digit(#[trigger] n[k]) || n[k] == '.'
    &&& !has_two_points(n, 0, n.len() as int)
}

proof fn lemma_numeric_end_at_end(s: Seq<char>, i: int)
    requires
        0 <= i <= s.len(),
        forall|k: int| i <= k < s.len() ==> is_digit(#[trigger] s[k]) || s[k] == '.',
    ensures
        numeric_end(s, i) == s.len(),
    decreases s.len() - i,
{
    if i < s.len() {
        lemma_numeric_end_at_end(s, i + 1);
    }
}

/// A literal alone reads back as itself: it is one number token, and its
/// value is that number, with the text unchanged.
pub proof fn lemma_literal_round_trip(n: Seq<char>)
    requires
        is_literal(n),
    ensures
        lex(n) == Ok::<Seq<Tok>, Seq<char>>(seq![Tok::Number(n)]),
        evaluation(n) == Ok::<Val, Fault>(Val::Number(n)),
{
    lemma_numeric_end_at_end(n, 1);
    assert(n.subrange(0, n.len() as int) =~= n);
    assert(lex_from(n, n.len() as int) == Ok::<Seq<Tok>, Seq<char>>(seq![]));
    assert(seq![Tok::Number(n)] + Seq::<Tok>::empty() =~= seq![Tok::Number(n)]);
    let ts = seq![Tok::Number(n)];
    assert(ts.drop_last() =~= Seq::<Tok>::empty());
    let y = Yard { out: seq![], stack: seq![] };
    assert(yard_run(ts.drop_last()) == Ok::<Yard, Fault>(y));
    assert(yard_run(ts) == yard_step(y, Tok::Number(n)));
    assert(y.out.push(Tok::Number(n)) =~= ts);
    assert(!Seq::<Tok>::empty().contains(Tok::LeftParen));
    assert(ts + Seq::<Tok>::empty().reverse() =~= ts);
    assert(postfix(ts) == Ok::<Seq<Tok>, Fault>(ts));
    assert(Seq::<Val>::empty().push(Val::Number(n)) =~= seq![Val::Number(n)]);
    assert(eval_run(ts.drop_last()) == Ok::<Seq<Val>, Fault>(seq![]));
    assert(eval_run(ts) == Ok::<Seq<Val>, Fault>(seq![Val::Number(n)]));
}

/// How many more `(` than `)` stand in `ts`.
pub open spec fn depth(ts: Seq<Tok>) -> int
    decreases ts.len(),
{
    if ts.len() == 0 {
        0
    } else {
        depth(ts.drop_last()) + if ts.last() is LeftParen {
            1int
        } else if ts.last() is RightParen {
            -1int
        } else {
            0int
        }
    }
}

/// Every `)` closes an earlier `(`, and every `(` is closed.
pub open spec fn balanced(ts: Seq<Tok>) -> bool {
    &&& forall|k: int| 0 <= k <= ts.len() ==> depth(#[trigger] ts.take(k)) >= 0
    &&& depth(ts) == 0
}

/// How many `(` wait on a stack.
pub open spec fn opens(st: Seq<Tok>) -> int
    decreases st.len(),
{
    if st.len() == 0 {
        0
    } else {
        opens(st.drop_last()) + if st.last() is LeftParen {
            1int
        } else {
            0int
        }
    }
}

proof fn lemma_opens_contains(st: Seq<Tok>)
    ensures
        opens(st) >= 0,
        opens(st) > 0 <==> st.contains(Tok::LeftParen),
    decreases st.len(),
{
    if st.len() > 0 {
        lemma_opens_contains(st.drop_last());
        if st.drop_last().contains(Tok::LeftParen) {
            let k = choose|k: int| 0 <= k < st.drop_last().len() && st.drop_last()[k] == Tok::LeftParen;
            assert(st[k] == Tok::LeftParen);
        }
        if st.contains(Tok::LeftParen) && !(st.last() is LeftParen) {
            let k = choose|k: int| 0 <= k < st.len() && st[k] == Tok::LeftParen;
            assert(k < st.len() - 1);
            assert(st.drop_last()[k] == Tok::LeftParen);
        }
        if st.last() is LeftParen {
            assert(st[st.len() - 1] == Tok::LeftParen);
        }
    }
}

proof fn lemma_pop_binding_opens(y: Yard, op: crate::lexer::OperatorType)
    ensures
        opens(pop_binding(y, op).stack) == opens(y.stack),
    decreases y.stack.len(),
{
    if yields_to(y.stack, op) {
        lemma_pop_binding_opens(
            Yard { out: y.out.push(y.stack.last()), stack: y.stack.drop_last() },
            op,
        );
    }
}

proof fn lemma_pop_to_paren_opens(y: Yard)
    ensures
        pop_to_paren(y) is Err <==> opens(y.stack) == 0,
        pop_to_paren(y) is Err ==> pop_to_paren(y) == Err::<Yard, Fault>(Fault::Syntax),
        pop_to_paren(y) is Ok ==> opens(pop_to_paren(y)->Ok_0.stack) == opens(y.stack) - 1,
    decreases y.stack.len(),
{
    lemma_opens_contains(y.stack);
    if y.stack.len() > 0 {
        lemma_opens_contains(y.stack.drop_last());
        if !(y.stack.last() is LeftParen) {
            lemma_pop_to_paren_opens(
                Yard { out: y.out.push(y.stack.last()), stack: y.stack.drop_last() },
            );
        }
    }
}

proof fn lemma_push_opens(st: Seq<Tok>, t: Tok)
    ensures
        opens(st.push(t)) == opens(st) + if t is LeftParen {
            1int
        } else {
            0int
        },
{
    assert(st.push(t).drop_last() =~= st);
}

/// The converter fails exactly when some prefix closes more than it opened,
/// and otherwise holds as many `(` as the input leaves open.
proof fn lemma_yard_depth(ts: Seq<Tok>)
    ensures
        yard_run(ts) is Err <==> exists|k: int| 0 <= k <= ts.len() && depth(#[trigger] ts.take(k)) < 0,
        yard_run(ts) is Err ==> yard_run(ts) == Err::<Yard, Fault>(Fault::Syntax),
        yard_run(ts) is Ok ==> opens(yard_run(ts)->Ok_0.stack) == depth(ts),
    decreases ts.len(),
{
    if ts.len() == 0 {
        assert(ts.take(0) =~= ts);
    } else {
        let p = ts.drop_last();
        let t = ts.last();
        lemma_yard_depth(p);
        assert(ts.take(ts.len() as int) =~= ts);
        assert forall|k: int| 0 <= k <= p.len() implies #[trigger] ts.take(k) == p.take(k) by {
            assert(ts.take(k) =~= p.take(k));
        }
        if yard_run(p) is Err {
            let k = choose|k: int| 0 <= k <= p.len() && depth(#[trigger] p.take(k)) < 0;
            assert(ts.take(k) == p.take(k));
        } else {
            let y = yard_run(p)->Ok_0;
            assert(forall|k: int| 0 <= k <= p.len() ==> depth(#[trigger] p.take(k)) >= 0);
            assert(depth(p.take(p.len() as int)) >= 0) by {
                assert(p.take(p.len() as int) =~= p);
            }
            lemma_opens_contains(y.stack);
            match t {
                Tok::Number(_) | Tok::Variable => {},
                Tok::Function(_) | Tok::LeftParen => {
                    lemma_push_opens(y.stack, t);
                },
                Tok::Operator(op) => {
                    lemma_pop_binding_opens(y, op);
                    lemma_push_opens(pop_binding(y, op).stack, t);
                },
                Tok::RightParen => {
                    lemma_pop_to_paren_opens(y);
                    if pop_to_paren(y) is Ok {
                        let z = pop_to_paren(y)->Ok_0;
                        if z.stack.len() > 0 && z.stack.last() is Function {
                            assert(z.stack.drop_last().push(z.stack.last()) =~= z.stack);
                            lemma_push_opens(z.stack.drop_last(), z.stack.last());
                        }
                    }
                },
            }
            if yard_run(ts) is Ok {
                assert forall|k: int| 0 <= k <= ts.len() implies depth(#[trigger] ts.take(k)) >= 0 by {
                    if k <= p.len() {
                        assert(ts.take(k) == p.take(k));
                    }
                }
            }
        }
    }
}

/// Unbalanced parentheses make the conversion to postfix order fail with a
/// syntax error, and balanced ones never do.
pub proof fn lemma_unbalanced_is_syntax_error(ts: Seq<Tok>)
    ensures
        postfix(ts) is Err <==> !balanced(ts),
        postfix(ts) is Err ==> postfix(ts) == Err::<Seq<Tok>, Fault>(Fault::Syntax),
{
    lemma_yard_depth(ts);
    if yard_run(ts) is Ok {
        let y = yard_run(ts)->Ok_0;
        lemma_opens_contains(y.stack);
        assert(ts.take(ts.len() as int) =~= ts);
    } else {
        let k = choose|k: int| 0 <= k <= ts.len() && depth(#[trigger] ts.take(k)) < 0;
    }
}

/// An expression whose tokens hold unbalanced parentheses fails with a
/// syntax error, never with a value.
pub proof fn lemma_unbalanced_expression(s: Seq<char>)
    requires
        lex(s) is Ok,
        !balanced(lex(s)->Ok_0),
    ensures
        evaluation(s) == Err::<Val, Fault>(Fault::Syntax),
{
    lemma_unbalanced_is_syntax_error(lex(s)->Ok_0);
}

/// Evaluation holds no state between calls: two calls of `eval` on one text
/// give equal results.
pub proof fn lemma_eval_repeatable(s: Seq<char>, first: Result<Term, Error>, second: Result<Term, Error>)
    requires
        outcome(first) == evaluation(s),
        outcome(second) == evaluation(s),
    ensures
        outcome(first) == outcome(second),
{
}

/// Whether `t` is in the output or on the stack.
pub open spec fn holds(y: Yard, t: Tok) -> bool {
    y.out.contains(t) || y.stack.contains(t)
}

proof fn lemma_push_contains(s: Seq<Tok>, x: Tok, t: Tok)
    requires
        s.contains(t) || x == t,
    ensures
        s.push(x).contains(t),
{
    if x == t {
        assert(s.push(x)[s.len() as int] == t);
    } else {
        let k = choose|k: int| 0 <= k < s.len() && s[k] == t;
        assert(s.push(x)[k] == t);
    }
}

proof fn lemma_move_top_holds(y: Yard, t: Tok)
    requires
        holds(y, t),
        y.stack.len() > 0,
    ensures
        holds(Yard { out: y.out.push(y.stack.last()), stack: y.stack.drop_last() }, t),
{
    if y.out.contains(t) {
        lemma_push_contains(y.out, y.stack.last(), t);
    } else {
        let k = choose|k: int| 0 <= k < y.stack.len() && y.stack[k] == t;
        if k == y.stack.len() - 1 {
            lemma_push_contains(y.out, y.stack.last(), t);
        } else {
            assert(y.stack.drop_last()[k] == t);
        }
    }
}

proof fn lemma_pop_binding_holds(y: Yard, op: crate::lexer::OperatorType, t: Tok)
    requires
        holds(y, t),
    ensures
        holds(pop_binding(y, op), t),
    decreases y.stack.len(),
{
    if yields_to(y.stack, op) {
        lemma_move_top_holds(y, t);
        lemma_pop_binding_holds(
            Yard { out: y.out.push(y.stack.last()), stack: y.stack.drop_last() },
            op,
            t,
        );
    }
}

proof fn lemma_pop_to_paren_holds(y: Yard, t: Tok)
    requires
        holds(y, t),
        t != Tok::LeftParen,
        pop_to_paren(y) is Ok,
    ensures
        holds(pop_to_paren(y)->Ok_0, t),
    decreases y.stack.len(),
{
    if y.stack.last() is LeftParen {
        if !y.out.contains(t) {
            let k = choose|k: int| 0 <= k < y.stack.len() && y.stack[k] == t;
            assert(k != y.stack.len() - 1);
            assert(y.stack.drop_last()[k] == t);
        }
    } else {
        lemma_move_top_holds(y, t);
        lemma_pop_to_paren_holds(
            Yard { out: y.out.push(y.stack.last()), stack: y.stack.drop_last() },
            t,
        );
    }
}

proof fn lemma_step_holds(y: Yard, x: Tok, t: Tok)
    requires
        holds(y, t) || (x == t && x is Function),
        t is Function,
        yard_step(y, x) is Ok,
    ensures
        holds(yard_step(y, x)->Ok_0, t),
{
    match x {
        Tok::Number(_) | Tok::Variable => {
            if y.out.contains(t) {
                lemma_push_contains(y.out, x, t);
            }
        },
        Tok::Function(_) | Tok::LeftParen => {
            if !y.out.contains(t) {
                lemma_push_contains(y.stack, x, t);
            }
        },
        Tok::Operator(op) => {
            lemma_pop_binding_holds(y, op, t);
            let z = pop_binding(y, op);
            if !z.out.contains(t) {
                lemma_push_contains(z.stack, x, t);
            }
        },
        Tok::RightParen => {
            lemma_pop_to_paren_holds(y, t);
            let z = pop_to_paren(y)->Ok_0;
            if z.stack.len() > 0 && z.stack.last() is Function {
                lemma_move_top_holds(z, t);
            }
        },
    }
}

/// The converter drops no function token: each one is in the output or
/// still on the stack.
proof fn lemma_yard_holds(ts: Seq<Tok>)
    requires
        yard_run(ts) is Ok,
    ensures
        forall|j: int| 0 <= j < ts.len() && (#[trigger] ts[j]) is Function ==> holds(yard_run(ts)->Ok_0, ts[j]),
    decreases ts.len(),
{
    if ts.len() > 0 {
        let p = ts.drop_last();
        if yard_run(p) is Ok {
            lemma_yard_holds(p);
            let y = yard_run(p)->Ok_0;
            assert forall|j: int| 0 <= j < ts.len() && (#[trigger] ts[j]) is Function implies holds(
                yard_run(ts)->Ok_0,
                ts[j],
            ) by {
                if j < p.len() {
                    assert(p[j] == ts[j]);
                }
                lemma_step_holds(y, ts.last(), ts[j]);
            }
        }
    }
}

proof fn lemma_eval_run_known(p: Seq<Tok>)
    requires
        eval_run(p) is Ok,
    ensures
        forall|j: int| 0 <= j < p.len() && (#[trigger] p[j]) is Function ==> function_named(p[j]->Function_0) is Some,
    decreases p.len(),
{
    if p.len() > 0 {
        lemma_eval_run_known(p.drop_last());
        assert forall|j: int| 0 <= j < p.len() && (#[trigger] p[j]) is Function implies function_named(
            p[j]->Function_0,
        ) is Some by {
            if j < p.len() - 1 {
                assert(p.drop_last()[j] == p[j]);
            }
        }
    }
}

/// Whether a token sequence calls a function of a name that nothing stands for.
pub open spec fn calls_unknown(ts: Seq<Tok>) -> bool {
    exists|k: int| 0 <= k < ts.len() && (#[trigger] ts[k]) is Function && function_named(ts[k]->Function_0) is None
}

/// A call of an unknown function never yields a value: evaluation fails.
pub proof fn lemma_unknown_function_fails(s: Seq<char>)
    requires
        lex(s) is Ok,
        calls_unknown(lex(s)->Ok_0),
    ensures
        evaluation(s) is Err,
{
    let ts = lex(s)->Ok_0;
    let k = choose|k: int| 0 <= k < ts.len() && (#[trigger] ts[k]) is Function && function_named(ts[k]->Function_0) is None;
    let u = ts[k];
    if postfix(ts) is Ok {
        lemma_yard_holds(ts);
        let y = yard_run(ts)->Ok_0;
        let p = postfix(ts)->Ok_0;
        assert(p == y.out + y.stack.reverse());
        let i: int = if y.out.contains(u) {
            choose|i: int| 0 <= i < y.out.len() && y.out[i] == u
        } else {
            let m = choose|m: int| 0 <= m < y.stack.len() && y.stack[m] == u;
            assert(y.stack.reverse()[y.stack.len() - 1 - m] == u);
            y.out.len() + y.stack.len() - 1 - m
        };
        assert(p[i] == u);
        if eval_run(p) is Ok {
            lemma_eval_run_known(p);
            assert(p[i] is Function);
        }
    }
}

/// Whether, in `x p y q z`, the left operator `p` takes `y` first.
pub open spec fn groups_left(p: OperatorType, q: OperatorType) -> bool {
    p.spec_precedence() >= q.spec_precedence() && q.spec_associativity() == Associativity::Left
}

/// Two operators between three numbers group by precedence, and at equal
/// precedence by associativity: `x p y q z` is `(x p y) q z` when `p` binds
/// at least as tightly and `q` groups to the left, and `x p (y q z)` else.
pub proof fn lemma_two_operators(
    x: Seq<char>,
    y: Seq<char>,
    z: Seq<char>,
    p: OperatorType,
    q: OperatorType,
)
    ensures
        ({
            let ts = seq![
                Tok::Number(x),
                Tok::Operator(p),
                Tok::Number(y),
                Tok::Operator(q),
                Tok::Number(z),
            ];
            let (nx, ny, nz) = (Val::Number(x), Val::Number(y), Val::Number(z));
            &&& postfix(ts) == Ok::<Seq<Tok>, Fault>(
                if groups_left(p, q) {
                    seq![ts[0], ts[2], ts[1], ts[4], ts[3]]
                } else {
                    seq![ts[0], ts[2], ts[4], ts[3], ts[1]]
                },
            )
            &&& eval_postfix(postfix(ts)->Ok_0) == Ok::<Val, Fault>(
                if groups_left(p, q) {
                    Val::Binary(q, Box::new(Val::Binary(p, Box::new(nx), Box::new(ny))), Box::new(nz))
                } else {
                    Val::Binary(p, Box::new(nx), Box::new(Val::Binary(q, Box::new(ny), Box::new(nz))))
                },
            )
        }),
{
    let ts = seq![Tok::Number(x), Tok::Operator(p), Tok::Number(y), Tok::Operator(q), Tok::Number(z)];
    let e = Seq::<Tok>::empty();
    assert(ts.take(0) =~= e);
    assert(yard_run(ts.take(0)) == Ok::<Yard, Fault>(Yard { out: e, stack: e }));
    assert(ts.take(1).drop_last() =~= ts.take(0));
    assert(ts.take(2).drop_last() =~= ts.take(1));
    assert(ts.take(3).drop_last() =~= ts.take(2));
    assert(ts.take(4).drop_last() =~= ts.take(3));
    assert(ts.take(5).drop_last() =~= ts.take(4));
    let y1 = Yard { out: seq![ts[0]], stack: e };
    assert(e.push(ts[0]) =~= seq![ts[0]]);
    assert(yard_run(ts.take(1)) == Ok::<Yard, Fault>(y1));
    assert(pop_binding(y1, p) == y1);
    let y2 = Yard { out: seq![ts[0]], stack: seq![ts[1]] };
    assert(e.push(ts[1]) =~= seq![ts[1]]);
    assert(yard_run(ts.take(2)) == Ok::<Yard, Fault>(y2));
    let y3 = Yard { out: seq![ts[0], ts[2]], stack: seq![ts[1]] };
    assert(seq![ts[0]].push(ts[2]) =~= seq![ts[0], ts[2]]);
    assert(yard_run(ts.take(3)) == Ok::<Yard, Fault>(y3));
    let y4 = if groups_left(p, q) {
        Yard { out: seq![ts[0], ts[2], ts[1]], stack: seq![ts[3]] }
    } else {
        Yard { out: seq![ts[0], ts[2]], stack: seq![ts[1], ts[3]] }
    };
    if groups_left(p, q) {
        let mid = Yard { out: seq![ts[0], ts[2], ts[1]], stack: e };
        assert(seq![ts[0], ts[2]].push(ts[1]) =~= mid.out);
        assert(seq![ts[1]].drop_last() =~= e);
        assert(pop_binding(mid, q) == mid);
        assert(pop_binding(y3, q) == mid);
        assert(e.push(ts[3]) =~= seq![ts[3]]);
    } else {
        assert(pop_binding(y3, q) == y3);
        assert(seq![ts[1]].push(ts[3]) =~= seq![ts[1], ts[3]]);
    }
    assert(yard_run(ts.take(4)) == Ok::<Yard, Fault>(y4));
    let y5 = Yard { out: y4.out.push(ts[4]), stack: y4.stack };
    assert(yard_run(ts.take(5)) == Ok::<Yard, Fault>(y5));
    assert(ts.take(5) =~= ts);
    assert(!y5.stack.contains(Tok::LeftParen)) by {
        if y5.stack.contains(Tok::LeftParen) {
            let i = choose|i: int| 0 <= i < y5.stack.len() && y5.stack[i] == Tok::LeftParen;
        }
    }
    let out = if groups_left(p, q) {
        seq![ts[0], ts[2], ts[1], ts[4], ts[3]]
    } else {
        seq![ts[0], ts[2], ts[4], ts[3], ts[1]]
    };
    assert(y5.out + y5.stack.reverse() =~= out);
    assert(postfix(ts) == Ok::<Seq<Tok>, Fault>(out));
    let (nx, ny, nz) = (Val::Number(x), Val::Number(y), Val::Number(z));
    assert(out.take(1).drop_last() =~= out.take(0));
    assert(out.take(2).drop_last() =~= out.take(1));
    assert(out.take(3).drop_last() =~= out.take(2));
    assert(out.take(4).drop_last() =~= out.take(3));
    assert(out.take(5).drop_last() =~= out.take(4));
    assert(out.take(0) =~= Seq::<Tok>::empty());
    let v0 = Seq::<Val>::empty();
    assert(eval_run(out.take(0)) == Ok::<Seq<Val>, Fault>(v0));
    assert(v0.push(nx) =~= seq![nx]);
    assert(eval_run(out.take(1)) == Ok::<Seq<Val>, Fault>(seq![nx]));
    assert(seq![nx].push(ny) =~= seq![nx, ny]);
    assert(eval_run(out.take(2)) == Ok::<Seq<Val>, Fault>(seq![nx, ny]));
    if groups_left(p, q) {
        let l = Val::Binary(p, Box::new(nx), Box::new(ny));
        assert(seq![nx, ny].subrange(0, 0).push(l) =~= seq![l]);
        assert(eval_run(out.take(3)) == Ok::<Seq<Val>, Fault>(seq![l]));
        assert(seq![l].push(nz) =~= seq![l, nz]);
        assert(eval_run(out.take(4)) == Ok::<Seq<Val>, Fault>(seq![l, nz]));
        let t = Val::Binary(q, Box::new(l), Box::new(nz));
        assert(seq![l, nz].subrange(0, 0).push(t) =~= seq![t]);
        assert(eval_run(out.take(5)) == Ok::<Seq<Val>, Fault>(seq![t]));
    } else {
        assert(seq![nx, ny].push(nz) =~= seq![nx, ny, nz]);
        assert(eval_run(out.take(3)) == Ok::<Seq<Val>, Fault>(seq![nx, ny, nz]));
        let r = Val::Binary(q, Box::new(ny), Box::new(nz));
        assert(seq![nx, ny, nz].subrange(0, 1).push(r) =~= seq![nx, r]);
        assert(eval_run(out.take(4)) == Ok::<Seq<Val>, Fault>(seq![nx, r]));
        let t = Val::Binary(p, Box::new(nx), Box::new(r));
        assert(seq![nx, r].subrange(0, 0).push(t) =~= seq![t]);
        assert(eval_run(out.take(5)) == Ok::<Seq<Val>, Fault>(seq![t]));
    }
    assert(out.take(5) =~= out);
}

} // verus!
