use vstd::prelude::*;

use crate::error::{Error, Fault};
use crate::evaluator::{eval, evaluation, outcome, Term, Val};
use crate::lexer::{chars_of, VARIABLE};

verus! {

/// `s` with every variable character replaced by the text `v`.
pub open spec fn substituted(s: Seq<char>, v: Seq<char>) -> Seq<char>
    decreases s.len(),
{
    if s.len() == 0 {
        seq![]
    } else if s.last() == VARIABLE {
        substituted(s.drop_last(), v) + v
    } else {
        substituted(s.drop_last(), v).push(s.last())
    }
}

/// Writes the text `value` wherever the variable stands in `expression`.
pub fn substitute(expression: &str, value: &str) -> (r: String)
    ensures
        r@ == substituted(expression@, value@),
{
    let ghost s = expression@;
    let chars = chars_of(expression);
    let n = chars.len();
    let mut r = String::new();
    let mut run: usize = 0;
    let mut i: usize = 0;
    assert(s.take(0) =~= seq![]);
    while i < n
        invariant
            chars@ == s,
            s == expression@,
            n == s.len(),
            run <= i <= n,
            r@ + s.subrange(run as int, i as int) == substituted(s.take(i as int), value@),
        decreases n - i,
    {
        let ghost prefix = s.take(i + 1);
        assert(prefix.drop_last() =~= s.take(i as int));
        if chars[i] == VARIABLE {
            r.append(expression.substring_char(run, i));
            r.append(value);
            run = i + 1;
            assert(r@ + s.subrange(run as int, i + 1) =~= r@);
        } else {
            assert(s.subrange(run as int, i + 1) =~= s.subrange(run as int, i as int).push(chars@[i as int]));
            assert(r@ + s.subrange(run as int, i + 1) =~= (r@ + s.subrange(run as int, i as int)).push(chars@[i as int]));
        }
        i = i + 1;
    }
    r.append(expression.substring_char(run, n));
    assert(s.take(n as int) =~= s);
    r
}

/// Evaluates `expression` with the variable standing for the text `value`.
pub fn eval_with_variable(expression: &str, value: &str) -> (r: Result<Term, Error>)
    ensures
        outcome(r) == evaluation(substituted(expression@, value@)),
{
    let text = substitute(expression, value);
    eval(text.as_str())
}

/// The value of `expression` at the `i`-th of `values`.
pub open spec fn sample(expression: Seq<char>, values: Seq<String>, i: int) -> Result<Val, Fault> {
    evaluation(substituted(expression, values[i]@))
}

/// Evaluates `expression` once for each of `values`, in order, and stops at
/// the first failure, whose error it returns.
pub fn eval_with_variables(expression: &str, values: &Vec<String>) -> (r: Result<Vec<Term>, Error>)
    ensures
        r is Ok <==> forall|i: int| 0 <= i < values@.len() ==> sample(expression@, values@, i) is Ok,
        r is Ok ==> r->Ok_0@.len() == values@.len() && forall|i: int|
            0 <= i < values@.len() ==> #[trigger] sample(expression@, values@, i) == Ok::<Val, Fault>(
                r->Ok_0@[i]@,
            ),
        r is Err ==> exists|k: int|
            0 <= k < values@.len() && sample(expression@, values@, k) == Err::<Val, Fault>(
                r->Err_0@,
            ) && forall|j: int| 0 <= j < k ==> #[trigger] sample(expression@, values@, j) is Ok,
{
    let mut results: Vec<Term> = Vec::new();
    let mut i: usize = 0;
    while i < values.len()
        invariant
            i <= values@.len(),
            results@.len() == i,
            forall|j: int|
                0 <= j < i ==> #[trigger] sample(expression@, values@, j) == Ok::<Val, Fault>(
                    results@[j]@,
                ),
        decreases values@.len() - i,
    {
        match eval_with_variable(expression, values[i].as_str()) {
            Ok(t) => {
                results.push(t);
                assert(sample(expression@, values@, i as int) == Ok::<Val, Fault>(results@[i as int]@));
            },
            Err(e) => {
                assert(sample(expression@, values@, i as int) == Err::<Val, Fault>(e@));
                return Err(e);
            },
        }
        i = i + 1;
    }
    Ok(results)
}

/// How many times `c` occurs in `s`.
pub open spec fn occurrences(s: Seq<char>, c: char) -> nat
    decreases s.len(),
{
    if s.len() == 0 {
        0
    } else {
        occurrences(s.drop_last(), c) + if s.last() == c { 1nat } else { 0nat }
    }
}

/// Splits a domain description `lower:step:upper` into its three fields.
/// Anything but exactly two colons is a configuration error.
pub fn domain_fields(domain: &str) -> (r: Result<(String, String, String), Error>)
    ensures
        r is Ok <==> occurrences(domain@, ':') == 2,
        r is Ok ==> ({
            let (lo, step, hi) = r->Ok_0;
            &&& domain@ == lo@ + seq![':'] + step@ + seq![':'] + hi@
            &&& occurrences(lo@, ':') == 0
            &&& occurrences(step@, ':') == 0
            &&& occurrences(hi@, ':') == 0
        }),
        r is Err ==> r->Err_0@ == Fault::Config(domain@),
{
    let chars = chars_of(domain);
    let n = chars.len();
    let mut first: usize = n;
    let mut second: usize = n;
    let mut count: usize = 0;
    let mut i: usize = 0;
    assert(domain@.take(0) =~= seq![]);
    while i < n
        invariant
            chars@ == domain@,
            n == domain@.len(),
            i <= n,
            count == if occurrences(domain@.take(i as int), ':') > 3 {
                3
            } else {
                occurrences(domain@.take(i as int), ':')
            },
            count >= 1 ==> first < i && domain@[first as int] == ':' && occurrences(domain@.take(first as int), ':') == 0,
            count >= 2 ==> first < second < i && domain@[second as int] == ':' && occurrences(domain@.take(second as int), ':') == 1,
        decreases n - i,
    {
        proof {
            assert(domain@.take(i + 1).drop_last() =~= domain@.take(i as int));
        }
        if chars[i] == ':' {
            if count == 0 {
                first = i;
            } else if count == 1 {
                second = i;
            }
            if count < 3 {
                count = count + 1;
            }
        }
        i = i + 1;
    }
    assert(domain@.take(n as int) =~= domain@);
    if count != 2 {
        return Err(Error::ConfigError(domain.to_owned()));
    }
    let lo = domain.substring_char(0, first).to_owned();
    let step = domain.substring_char(first + 1, second).to_owned();
    let hi = domain.substring_char(second + 1, n).to_owned();
    proof {
        lemma_three_fields(domain@, first as int, second as int, lo@, step@, hi@);
    }
    Ok((lo, step, hi))
}

proof fn lemma_three_fields(s: Seq<char>, first: int, second: int, lo: Seq<char>, step: Seq<char>, hi: Seq<char>)
    requires
        0 <= first < second < s.len(),
        s[first] == ':',
        s[second] == ':',
        occurrences(s.take(first), ':') == 0,
        occurrences(s.take(second), ':') == 1,
        occurrences(s, ':') == 2,
        lo == s.subrange(0, first),
        step == s.subrange(first + 1, second),
        hi == s.subrange(second + 1, s.len() as int),
    ensures
        s == lo + seq![':'] + step + seq![':'] + hi,
        occurrences(lo, ':') == 0,
        occurrences(step, ':') == 0,
        occurrences(hi, ':') == 0,
{
    assert(s =~= lo + seq![':'] + step + seq![':'] + hi);
    assert(lo =~= s.take(first));
    assert(occurrences(seq![':'], ':') == 1) by {
        assert(seq![':'].drop_last() =~= Seq::<char>::empty());
        assert(occurrences(Seq::<char>::empty(), ':') == 0);
    }
    let t = s.take(second);
    lemma_occurrences_split(t, first, ':');
    assert(t.take(first) =~= s.take(first));
    assert(t.skip(first) =~= seq![':'] + step);
    lemma_occurrences_split(seq![':'] + step, 1, ':');
    assert((seq![':'] + step).take(1) =~= seq![':']);
    assert((seq![':'] + step).skip(1) =~= step);
    lemma_occurrences_split(s, second, ':');
    assert(s.skip(second) =~= seq![':'] + hi);
    lemma_occurrences_split(seq![':'] + hi, 1, ':');
    assert((seq![':'] + hi).take(1) =~= seq![':']);
    assert((seq![':'] + hi).skip(1) =~= hi);
}

proof fn lemma_occurrences_split(s: Seq<char>, k: int, c: char)
    requires
        0 <= k <= s.len(),
    ensures
        occurrences(s, c) == occurrences(s.take(k), c) + occurrences(s.skip(k), c),
    decreases s.len(),
{
    if s.len() == k {
        assert(s.take(k) =~= s);
        assert(s.skip(k) =~= Seq::<char>::empty());
    } else {
        lemma_occurrences_split(s.drop_last(), k, c);
        assert(s.drop_last().take(k) =~= s.take(k));
        assert(s.skip(k).drop_last() =~= s.drop_last().skip(k));
        assert(s.skip(k).last() == s.last());
    }
}

} // verus!
