use vstd::prelude::*;

use crate::error::{Error, Fault};
use vstd::std_specs::iter::IteratorSpec;

verus! {

/// How operators of equal precedence group.
#[derive(Debug, Clone, Copy, PartialEq, Eq, Structural)]
pub enum Associativity {
    Right,
    Left,
}

/// The binary operators of the expression language.
#[derive(Debug, Clone, Copy, PartialEq, Eq, Structural)]
pub enum OperatorType {
    Plus,
    Minus,
    Multiplication,
    Division,
    Pow,
}

impl OperatorType {
    /// Binding strength: additive 1, multiplicative 2, power 3.
    pub open spec fn spec_precedence(self) -> u8 {
        match self {
            OperatorType::Plus | OperatorType::Minus => 1,
            OperatorType::Multiplication | OperatorType::Division => 2,
            OperatorType::Pow => 3,
        }
    }

    /// Power groups to the right, everything else to the left.
    pub open spec fn spec_associativity(self) -> Associativity {
        match self {
            OperatorType::Pow => Associativity::Right,
            _ => Associativity::Left,
        }
    }

    pub fn precedence(&self) -> (r: u8)
        ensures
            r == self.spec_precedence(),
            1 <= r <= 3,
    {
        match self {
            OperatorType::Plus => 1,
            OperatorType::Minus => 1,
            OperatorType::Multiplication => 2,
            OperatorType::Division => 2,
            OperatorType::Pow => 3,
        }
    }

    pub fn associativity(&self) -> (r: Associativity)
        ensures
            r == self.spec_associativity(),
    {
        match self {
            OperatorType::Pow => Associativity::Right,
            _ => Associativity::Left,
        }
    }
}

/// A token of an expression. A number keeps the text of its literal.
#[derive(Debug, Clone, PartialEq)]
pub enum TokenType {
    Number(String),
    Function(String),
    Operator(OperatorType),
    Variable,
    LeftParen,
    RightParen,
}

/// The mathematical value of a [`TokenType`].
pub enum Tok {
    Number(Seq<char>),
    Function(Seq<char>),
    Operator(OperatorType),
    Variable,
    LeftParen,
    RightParen,
}

impl View for TokenType {
    type V = Tok;

    open spec fn view(&self) -> Tok {
        match self {
            TokenType::Number(s) => Tok::Number(s@),
            TokenType::Function(s) => Tok::Function(s@),
            TokenType::Operator(op) => Tok::Operator(*op),
            TokenType::Variable => Tok::Variable,
            TokenType::LeftParen => Tok::LeftParen,
            TokenType::RightParen => Tok::RightParen,
        }
    }
}

impl TokenType {
    /// An owned copy of the token, equal to it.
    pub fn duplicate(&self) -> (r: TokenType)
        ensures
            r == *self,
    {
        match self {
            TokenType::Number(s) => TokenType::Number(s.clone()),
            TokenType::Function(s) => TokenType::Function(s.clone()),
            TokenType::Operator(op) => TokenType::Operator(*op),
            TokenType::Variable => TokenType::Variable,
            TokenType::LeftParen => TokenType::LeftParen,
            TokenType::RightParen => TokenType::RightParen,
        }
    }
}

/// The character that marks where the variable stands in an expression.
pub const VARIABLE: char = '$';

pub open spec fn tok_views(ts: Seq<TokenType>) -> Seq<Tok> {
    ts.map_values(|t: TokenType| t@)
}

pub open spec fn is_digit(c: char) -> bool {
    '0' <= c && c <= '9'
}

pub open spec fn is_letter(c: char) -> bool {
    ('a' <= c && c <= 'z') || ('A' <= c && c <= 'Z')
}

/// The token that a single character stands for, if it stands for one alone.
pub open spec fn symbol(c: char) -> Option<Tok> {
    if c == '+' {
        Some(Tok::Operator(OperatorType::Plus))
    } else if c == '-' {
        Some(Tok::Operator(OperatorType::Minus))
    } else if c == '*' {
        Some(Tok::Operator(OperatorType::Multiplication))
    } else if c == '/' {
        Some(Tok::Operator(OperatorType::Division))
    } else if c == '^' {
        Some(Tok::Operator(OperatorType::Pow))
    } else if c == '(' {
        Some(Tok::LeftParen)
    } else if c == ')' {
        Some(Tok::RightParen)
    } else if c == VARIABLE {
        Some(Tok::Variable)
    } else {
        None
    }
}

/// End of the run of digits and decimal points that starts at `i`.
pub open spec fn numeric_end(s: Seq<char>, i: int) -> int
    decreases s.len() - i,
{
    if 0 <= i < s.len() && (is_digit(s[i]) || s[i] == '.') {
        numeric_end(s, i + 1)
    } else {
        i
    }
}

/// End of the run of letters that starts at `i`.
pub open spec fn alpha_end(s: Seq<char>, i: int) -> int
    decreases s.len() - i,
{
    if 0 <= i < s.len() && is_letter(s[i]) {
        alpha_end(s, i + 1)
    } else {
        i
    }
}

pub open spec fn is_log_prefix(s: Seq<char>, lo: int, hi: int) -> bool {
    &&& hi == lo + 3
    &&& 0 <= lo
    &&& hi <= s.len()
    &&& s[lo] == 'l'
    &&& s[lo + 1] == 'o'
    &&& s[lo + 2] == 'g'
}

/// End of the function name that starts with the letter at `i`: a run of
/// letters, and after exactly `log` one digit more.
pub open spec fn name_end(s: Seq<char>, i: int) -> int {
    let e = alpha_end(s, i + 1);
    if is_log_prefix(s, i, e) && e < s.len() && is_digit(s[e]) {
        e + 1
    } else {
        e
    }
}

/// Whether two decimal points stand in `s[lo..hi]`.
pub open spec fn has_two_points(s: Seq<char>, lo: int, hi: int) -> bool {
    exists|p: int, q: int| lo <= p < q < hi && s[p] == '.' && s[q] == '.'
}

pub open spec fn prepend(t: Tok, r: Result<Seq<Tok>, Seq<char>>) -> Result<Seq<Tok>, Seq<char>> {
    match r {
        Ok(ts) => Ok(seq![t] + ts),
        Err(e) => Err(e),
    }
}

pub open spec fn starts_number(s: Seq<char>, i: int) -> bool {
    &&& 0 <= i < s.len()
    &&& is_digit(s[i]) || (s[i] == '-' && i + 1 < s.len() && is_digit(s[i + 1]))
}

/// The tokens of `s[i..]`, or the text of the first malformed literal.
/// A `-` right before a digit starts a negative literal; characters that
/// belong to no token are passed over.
pub open spec fn lex_from(s: Seq<char>, i: int) -> Result<Seq<Tok>, Seq<char>>
    decreases s.len() - i,
    via lex_from_decreases
{
    if i < 0 || i >= s.len() {
        Ok(seq![])
    } else if starts_number(s, i) {
        let e = numeric_end(s, i + 1);
        if has_two_points(s, i, e) {
            Err(s.subrange(i, e))
        } else {
            prepend(Tok::Number(s.subrange(i, e)), lex_from(s, e))
        }
    } else if is_letter(s[i]) {
        let e = name_end(s, i);
        prepend(Tok::Function(s.subrange(i, e)), lex_from(s, e))
    } else {
        match symbol(s[i]) {
            Some(t) => prepend(t, lex_from(s, i + 1)),
            None => lex_from(s, i + 1),
        }
    }
}

#[via_fn]
proof fn lex_from_decreases(s: Seq<char>, i: int) {
    if 0 <= i < s.len() {
        lemma_numeric_end_bounds(s, i + 1);
        lemma_alpha_end_bounds(s, i + 1);
    }
}

/// The tokens of a whole expression.
pub open spec fn lex(s: Seq<char>) -> Result<Seq<Tok>, Seq<char>> {
    lex_from(s, 0)
}

proof fn lemma_numeric_end_bounds(s: Seq<char>, i: int)
    requires
        0 <= i <= s.len(),
    ensures
        i <= numeric_end(s, i) <= s.len(),
        forall|k: int| i <= k < numeric_end(s, i) ==> is_digit(#[trigger] s[k]) || s[k] == '.',
    decreases s.len() - i,
{
    if i < s.len() && (is_digit(s[i]) || s[i] == '.') {
        lemma_numeric_end_bounds(s, i + 1);
    }
}

proof fn lemma_alpha_end_bounds(s: Seq<char>, i: int)
    requires
        0 <= i <= s.len(),
    ensures
        i <= alpha_end(s, i) <= s.len(),
    decreases s.len() - i,
{
    if i < s.len() && is_letter(s[i]) {
        lemma_alpha_end_bounds(s, i + 1);
    }
}

/// The characters of `s`, in order.
pub(crate) fn chars_of(s: &str) -> (r: Vec<char>)
    ensures
        r@ == s@,
{
    broadcast use vstd::string::axiom_spec_iter, vstd::string::next_postcondition;

    let mut it = s.chars();
    let mut r: Vec<char> = Vec::new();
    loop
        invariant
            it.obeys_prophetic_iter_laws(),
            r@ + it.remaining() == s@,
        decreases s@.len() - r@.len(),
    {
        let ghost before = it.remaining();
        match it.next() {
            Some(c) => {
                r.push(c);
                assert(r@ + it.remaining() =~= s@) by {
                    assert(before =~= seq![c] + it.remaining());
                }
            },
            None => {
                assert(r@ + it.remaining() =~= r@);
                return r;
            },
        }
    }
}

fn digit(c: char) -> (r: bool)
    ensures
        r == is_digit(c),
{
    '0' <= c && c <= '9'
}

fn letter(c: char) -> (r: bool)
    ensures
        r == is_letter(c),
{
    ('a' <= c && c <= 'z') || ('A' <= c && c <= 'Z')
}

/// Where the number literal that starts at `start` ends, and whether it
/// holds two decimal points.
fn number(chars: &Vec<char>, start: usize) -> (r: (usize, bool))
    requires
        start < chars@.len(),
        chars@[start as int] != '.',
    ensures
        r.0 == numeric_end(chars@, start + 1),
        start < r.0 <= chars@.len(),
        r.1 == has_two_points(chars@, start as int, r.0 as int),
{
    let ghost s = chars@;
    let n = chars.len();
    let mut k: usize = start + 1;
    let mut seen = false;
    let mut twice = false;
    while k < n && (digit(chars[k]) || chars[k] == '.')
        invariant
            s == chars@,
            n == s.len(),
            start < k <= n,
            s[start as int] != '.',
            numeric_end(s, start + 1) == numeric_end(s, k as int),
            seen == exists|p: int| start <= p < k && s[p] == '.',
            twice == has_two_points(s, start as int, k as int),
        decreases n - k,
    {
        if chars[k] == '.' {
            if seen {
                let ghost p = choose|p: int| start <= p < k && s[p] == '.';
                assert(has_two_points(s, start as int, k + 1)) by {
                    assert(start <= p < k && s[p] == '.' && s[k as int] == '.');
                }
                twice = true;
            } else {
                assert(!has_two_points(s, start as int, k + 1)) by {
                    if has_two_points(s, start as int, k + 1) {
                        let (p, q) = choose|p: int, q: int|
                            start <= p < q < k + 1 && s[p] == '.' && s[q] == '.';
                        assert(start <= p < k && s[p] == '.');
                    }
                }
            }
            seen = true;
            assert(s[k as int] == '.');
        } else {
            assert(has_two_points(s, start as int, k + 1) == has_two_points(s, start as int, k as int)) by {
                if has_two_points(s, start as int, k + 1) {
                    let (p, q) = choose|p: int, q: int|
                        start <= p < q < k + 1 && s[p] == '.' && s[q] == '.';
                    assert(q < k);
                }
            }
        }
        k = k + 1;
    }
    (k, twice)
}

/// Where the function name that starts at `start` ends, and its text.
fn function(expression: &str, chars: &Vec<char>, start: usize) -> (r: (String, usize))
    requires
        chars@ == expression@,
        start < chars@.len(),
    ensures
        r.1 == name_end(chars@, start as int),
        start < r.1 <= chars@.len(),
        r.0@ == chars@.subrange(start as int, r.1 as int),
{
    let ghost s = chars@;
    let n = chars.len();
    let mut k: usize = start + 1;
    while k < n && letter(chars[k])
        invariant
            s == chars@,
            n == s.len(),
            start < k <= n,
            alpha_end(s, start + 1) == alpha_end(s, k as int),
        decreases n - k,
    {
        k = k + 1;
    }
    if k - start == 3 && chars[start] == 'l' && chars[start + 1] == 'o' && chars[start + 2] == 'g'
        && k < n && digit(chars[k]) {
        k = k + 1;
    }
    (expression.substring_char(start, k).to_owned(), k)
}

pub open spec fn prepend_all(ts: Seq<Tok>, r: Result<Seq<Tok>, Seq<char>>) -> Result<Seq<Tok>, Seq<char>> {
    match r {
        Ok(rest) => Ok(ts + rest),
        Err(e) => Err(e),
    }
}

proof fn lemma_prepend_all_push(ts: Seq<Tok>, t: Tok, r: Result<Seq<Tok>, Seq<char>>)
    ensures
        prepend_all(ts.push(t), r) == prepend_all(ts, prepend(t, r)),
{
    if let Ok(rest) = r {
        assert(ts.push(t) + rest =~= ts + (seq![t] + rest));
    }
}

/// Splits an expression into tokens, left to right in one pass.
pub fn scan(expression: &str) -> (r: Result<Vec<TokenType>, Error>)
    ensures
        match lex(expression@) {
            Ok(ts) => r is Ok && tok_views(r->Ok_0@) == ts,
            Err(lit) => r is Err && r->Err_0@ == Fault::Lex(lit),
        },
{
    let ghost s = expression@;
    let chars = chars_of(expression);
    let n = chars.len();
    let mut tokens: Vec<TokenType> = Vec::new();
    let mut i: usize = 0;
    assert(tok_views(tokens@) =~= seq![]);
    assert(prepend_all(seq![], lex_from(s, 0)) =~= lex_from(s, 0)) by {
        if let Ok(rest) = lex_from(s, 0) {
            assert(Seq::<Tok>::empty() + rest =~= rest);
        }
    }
    while i < n
        invariant
            s == expression@,
            chars@ == s,
            n == s.len(),
            i <= n,
            lex(s) == prepend_all(tok_views(tokens@), lex_from(s, i as int)),
        decreases n - i,
    {
        let c = chars[i];
        let ghost before = tokens@;
        if digit(c) || (c == '-' && i + 1 < n && digit(chars[i + 1])) {
            let (end, malformed) = number(&chars, i);
            let text = expression.substring_char(i, end).to_owned();
            if malformed {
                return Err(Error::LexError(text));
            }
            let ghost t = Tok::Number(s.subrange(i as int, end as int));
            tokens.push(TokenType::Number(text));
            proof {
                lemma_prepend_all_push(tok_views(before), t, lex_from(s, end as int));
                assert(tok_views(tokens@) =~= tok_views(before).push(t));
            }
            i = end;
        } else if letter(c) {
            let (name, end) = function(expression, &chars, i);
            let ghost t = Tok::Function(s.subrange(i as int, end as int));
            tokens.push(TokenType::Function(name));
            proof {
                lemma_prepend_all_push(tok_views(before), t, lex_from(s, end as int));
                assert(tok_views(tokens@) =~= tok_views(before).push(t));
            }
            i = end;
        } else {
            let tok = if c == '+' {
                Some(TokenType::Operator(OperatorType::Plus))
            } else if c == '-' {
                Some(TokenType::Operator(OperatorType::Minus))
            } else if c == '*' {
                Some(TokenType::Operator(OperatorType::Multiplication))
            } else if c == '/' {
                Some(TokenType::Operator(OperatorType::Division))
            } else if c == '^' {
                Some(TokenType::Operator(OperatorType::Pow))
            } else if c == '(' {
                Some(TokenType::LeftParen)
            } else if c == ')' {
                Some(TokenType::RightParen)
            } else if c == VARIABLE {
                Some(TokenType::Variable)
            } else {
                None
            };
            match tok {
                Some(t) => {
                    let ghost tv = t@;
                    tokens.push(t);
                    proof {
                        lemma_prepend_all_push(tok_views(before), tv, lex_from(s, i + 1));
                        assert(tok_views(tokens@) =~= tok_views(before).push(tv));
                    }
                },
                None => {},
            }
            i = i + 1;
        }
    }
    assert(tok_views(tokens@) + seq![] =~= tok_views(tokens@));
    Ok(tokens)
}

} // verus!
