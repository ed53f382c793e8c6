use rplot::{
    chart_frame, domain_fields, eval, eval_with_variable, eval_with_variables, evaluate, scan, shunting_yard,
    substitute, Associativity, Error, FunctionKind, OperatorType, Term, TokenType,
};

fn value(t: &Term) -> f64 {
    match t {
        Term::Number(text) => text.parse::<f64>().unwrap(),
        Term::Binary(op, l, r) => {
            let (l, r) = (value(l), value(r));
            match op {
                OperatorType::Plus => l + r,
                OperatorType::Minus => l - r,
                OperatorType::Multiplication => l * r,
                OperatorType::Division => l / r,
                OperatorType::Pow => l.powf(r),
            }
        }
        Term::Call(f, a) => {
            let a = value(a);
            match f {
                FunctionKind::Sin => a.sin(),
                FunctionKind::Cos => a.cos(),
                FunctionKind::Tan => a.tan(),
                FunctionKind::Sqrt => a.sqrt(),
                FunctionKind::Log2 => a.log2(),
            }
        }
    }
}

fn calc(expression: &str) -> f64 {
    value(&eval(expression).unwrap())
}

fn num(s: &str) -> TokenType {
    TokenType::Number(s.to_string())
}

#[test]
fn precedence_and_associativity() {
    assert_eq!(OperatorType::Plus.precedence(), 1);
    assert_eq!(OperatorType::Minus.precedence(), 1);
    assert_eq!(OperatorType::Multiplication.precedence(), 2);
    assert_eq!(OperatorType::Division.precedence(), 2);
    assert_eq!(OperatorType::Pow.precedence(), 3);
    assert_eq!(OperatorType::Pow.associativity(), Associativity::Right);
    assert_eq!(OperatorType::Minus.associativity(), Associativity::Left);
    assert_eq!(OperatorType::Division.associativity(), Associativity::Left);
}

#[test]
fn scan_symbols_and_literals() {
    let tokens = scan("(1.5+x2)*$^-3 / 4").unwrap();
    assert_eq!(
        tokens,
        vec![
            TokenType::LeftParen,
            num("1.5"),
            TokenType::Operator(OperatorType::Plus),
            TokenType::Function("x".to_string()),
            num("2"),
            TokenType::RightParen,
            TokenType::Operator(OperatorType::Multiplication),
            TokenType::Variable,
            TokenType::Operator(OperatorType::Pow),
            num("-3"),
            TokenType::Operator(OperatorType::Division),
            num("4"),
        ]
    );
}

#[test]
fn scan_empty_and_unknown_characters() {
    assert_eq!(scan("").unwrap(), vec![]);
    assert_eq!(scan(" # ; ").unwrap(), vec![]);
    assert_eq!(scan("1 # 2").unwrap(), vec![num("1"), num("2")]);
}

#[test]
fn scan_minus_adjacency() {
    assert_eq!(scan("-8").unwrap(), vec![num("-8")]);
    assert_eq!(
        scan("1 - 1").unwrap(),
        vec![num("1"), TokenType::Operator(OperatorType::Minus), num("1")]
    );
    assert_eq!(
        scan("- 1").unwrap(),
        vec![TokenType::Operator(OperatorType::Minus), num("1")]
    );
    assert_eq!(scan("2-").unwrap(), vec![num("2"), TokenType::Operator(OperatorType::Minus)]);
}

#[test]
fn scan_log2_name() {
    assert_eq!(
        scan("log2(8)").unwrap(),
        vec![
            TokenType::Function("log2".to_string()),
            TokenType::LeftParen,
            num("8"),
            TokenType::RightParen,
        ]
    );
    assert_eq!(scan("sin2").unwrap(), vec![TokenType::Function("sin".to_string()), num("2")]);
    assert_eq!(scan("log23").unwrap(), vec![TokenType::Function("log2".to_string()), num("3")]);
}

#[test]
fn scan_malformed_literal() {
    assert_eq!(scan("1 + 1..2"), Err(Error::LexError("1..2".to_string())));
    assert_eq!(eval("3.1.4"), Err(Error::LexError("3.1.4".to_string())));
    assert_eq!(scan("5.").unwrap(), vec![num("5.")]);
}

#[test]
fn shunting_yard_orders_by_precedence() {
    let tokens = scan("1 + 2 * 3").unwrap();
    let post = shunting_yard(&tokens).unwrap();
    assert_eq!(
        post,
        vec![
            num("1"),
            num("2"),
            num("3"),
            TokenType::Operator(OperatorType::Multiplication),
            TokenType::Operator(OperatorType::Plus),
        ]
    );
    let tokens = scan("2^3^2").unwrap();
    let post = shunting_yard(&tokens).unwrap();
    assert_eq!(
        post,
        vec![
            num("2"),
            num("3"),
            num("2"),
            TokenType::Operator(OperatorType::Pow),
            TokenType::Operator(OperatorType::Pow),
        ]
    );
}

#[test]
fn shunting_yard_places_function_after_argument() {
    let tokens = scan("sqrt(2 + 2)").unwrap();
    let post = shunting_yard(&tokens).unwrap();
    assert_eq!(
        post,
        vec![
            num("2"),
            num("2"),
            TokenType::Operator(OperatorType::Plus),
            TokenType::Function("sqrt".to_string()),
        ]
    );
}

#[test]
fn literal_round_trip() {
    for n in ["0", "7", "42", "-3.5", "0.25", "1001.5", "-600"] {
        assert_eq!(eval(n), Ok(Term::Number(n.to_string())));
        assert_eq!(calc(n), n.parse::<f64>().unwrap());
    }
}

#[test]
fn operator_precedence() {
    assert_eq!(calc("1 + 2 * 3"), 7.0);
}

#[test]
fn right_associative_power() {
    assert_eq!(calc("2^2^2"), 16.0);
    assert_eq!(calc("2^3^2"), 512.0);
}

#[test]
fn parenthesized_expression() {
    assert_eq!(calc("(2*4) / (2^2 + 4^2)"), 0.4);
}

#[test]
fn function_calls_through_parentheses() {
    assert_eq!(calc("sqrt(2 + 2)"), 2.0);
    assert_eq!(calc("log2(8)"), 3.0);
}

#[test]
fn negative_literal_adjacency() {
    assert_eq!(calc("-8 / 4"), -2.0);
    assert_eq!(calc("1 - 1"), 0.0);
}

#[test]
fn unknown_function_fails() {
    assert_eq!(eval("foo(1)"), Err(Error::UnknownFunctionError("foo".to_string())));
    assert_eq!(eval("2 * bar(3)"), Err(Error::UnknownFunctionError("bar".to_string())));
}

#[test]
fn unbalanced_parentheses_fail() {
    assert_eq!(eval("(1 + 2"), Err(Error::SyntaxError));
    assert_eq!(eval("1 + 2)"), Err(Error::SyntaxError));
    assert_eq!(eval(")("), Err(Error::SyntaxError));
}

#[test]
fn malformed_postfix_fails() {
    assert_eq!(eval("1 +"), Err(Error::EvaluationError));
    assert_eq!(eval(""), Err(Error::EvaluationError));
    assert_eq!(eval("1 2"), Err(Error::EvaluationError));
    assert_eq!(eval("sin()"), Err(Error::EvaluationError));
    assert_eq!(eval("$ + 1"), Err(Error::InternalError));
}

#[test]
fn evaluate_builds_operands_in_order() {
    let post = vec![num("8"), num("2"), TokenType::Operator(OperatorType::Division)];
    let t = evaluate(&post).unwrap();
    assert_eq!(
        t,
        Term::Binary(
            OperatorType::Division,
            Box::new(Term::Number("8".to_string())),
            Box::new(Term::Number("2".to_string()))
        )
    );
    assert_eq!(evaluate(&[TokenType::LeftParen]), Err(Error::InternalError));
}

#[test]
fn function_lookup() {
    assert_eq!(FunctionKind::from_name(&"sin".to_string()), Some(FunctionKind::Sin));
    assert_eq!(FunctionKind::from_name(&"log2".to_string()), Some(FunctionKind::Log2));
    assert_eq!(FunctionKind::from_name(&"log".to_string()), None);
}

#[test]
fn substitution_replaces_every_placeholder() {
    assert_eq!(substitute("sin($) + $", "2.5"), "sin(2.5) + 2.5");
    assert_eq!(substitute("1 + 1", "9"), "1 + 1");
    assert_eq!(calc(&substitute("$ * $", "3")), 9.0);
    assert_eq!(value(&eval_with_variable("$^2", "-3").unwrap()), 9.0);
}

#[test]
fn domain_fields_split() {
    assert_eq!(
        domain_fields("0:1:3"),
        Ok(("0".to_string(), "1".to_string(), "3".to_string()))
    );
    assert_eq!(
        domain_fields("-1.5:0.5:2"),
        Ok(("-1.5".to_string(), "0.5".to_string(), "2".to_string()))
    );
    assert_eq!(domain_fields("0:1"), Err(Error::ConfigError("0:1".to_string())));
    assert_eq!(domain_fields("0:1:2:3"), Err(Error::ConfigError("0:1:2:3".to_string())));
}

#[test]
fn sample_sine_over_domain() {
    let (lo, step, hi) = domain_fields("0:1:3").unwrap();
    let (lo, step, hi) = (
        lo.parse::<f64>().unwrap(),
        step.parse::<f64>().unwrap(),
        hi.parse::<f64>().unwrap(),
    );
    let mut domain = Vec::new();
    let mut x = lo;
    while x <= hi {
        domain.push(x);
        x += step;
    }
    assert_eq!(domain, vec![0.0, 1.0, 2.0, 3.0]);
    let texts: Vec<String> = domain.iter().map(|x| x.to_string()).collect();
    let image: Vec<f64> = eval_with_variables("sin($)", &texts).unwrap().iter().map(value).collect();
    assert_eq!(image.len(), domain.len());
    assert_eq!(image, vec![0f64.sin(), 1f64.sin(), 2f64.sin(), 3f64.sin()]);
}

#[test]
fn sampling_stops_at_first_failure() {
    let texts = vec!["1".to_string(), "0".to_string()];
    assert_eq!(eval_with_variables("foo($)", &texts), Err(Error::UnknownFunctionError("foo".to_string())));
    assert_eq!(eval_with_variables("1 / $", &vec![]), Ok(vec![]));
}

#[test]
fn repeated_evaluation_is_identical() {
    let a = calc("sin(1) / 3 + 2^0.5");
    let b = calc("sin(1) / 3 + 2^0.5");
    assert_eq!(a.to_bits(), b.to_bits());
    assert_eq!(eval("cos(2) * 4"), eval("cos(2) * 4"));
}

#[test]
fn sum() {
    assert_eq!(calc("1 + 1"), 2.0);
    assert_eq!(calc("3 + 5"), 8.0);
    assert_eq!(calc("44 + 11"), 55.0);
    assert_eq!(calc("1001.5 + 2.5"), 1004.0);
}

#[test]
fn subtraction() {
    assert_eq!(calc("1 - 1"), 0.0);
    assert_eq!(calc("1000 - 200"), 800.0);
    assert_eq!(calc("3 - 4.5"), -1.5);
    assert_eq!(calc("555 - 200"), 355.0);
    assert_eq!(calc("-600 - 300"), -900.0);
}

#[test]
fn multiplication() {
    assert_eq!(calc("5 * 0"), 0.0);
    assert_eq!(calc("9 * 6"), 54.0);
    assert_eq!(calc("-4 * 2.4"), -9.6);
}

#[test]
fn division() {
    assert_eq!(calc("25 / 5"), 5.0);
    assert_eq!(calc("1 / 2"), 0.5);
    assert_eq!(calc("-8 / 4"), -2.0);
    assert_eq!(calc("-99 / -3"), 33.0);
    assert!(calc("1 / 0").is_infinite());
}

#[test]
fn power() {
    assert_eq!(calc("2^3"), 8.0);
    assert_eq!(calc("999^0"), 1.0);
    assert_eq!(calc("5^3"), 125.0);
}

#[test]
fn functions() {
    assert_eq!(calc("sin(0) * 4"), 0.0);
    assert_eq!(calc("cos(0) * -9.99"), -9.99);
    assert!(calc("sqrt(-1)").is_nan());
}

#[test]
fn mix() {
    assert_eq!(calc("4^2 - (1 - 5)^2^1"), 0.0);
    assert_eq!(calc("4 + 18 / (9 - 3)"), 7.0);
}

#[test]
fn left_associative_chains() {
    assert_eq!(calc("8 / 4 / 2"), 1.0);
    assert_eq!(calc("2 - 3 + 4"), 3.0);
    assert_eq!(calc("2 * 3 ^ 2"), 18.0);
}

#[test]
fn chart_frame_draws_axes() {
    assert_eq!(chart_frame(3, 2), vec!['│', ' ', ' ', '└', '─', '─']);
    assert_eq!(chart_frame(1, 1), vec!['└']);
    let grid = chart_frame(4, 3);
    assert_eq!(grid.len(), 12);
    assert_eq!(grid[4], '│');
    assert_eq!(grid[5], ' ');
    assert_eq!(grid[8], '└');
    assert_eq!(grid[11], '─');
}
