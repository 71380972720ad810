use compromise::parser::{parse, Expr, Stmt};

fn num(v: i64) -> Box<Expr> {
    Box::new(Expr::Num(v))
}

fn var(name: &str) -> Box<Expr> {
    Box::new(Expr::Var(name.to_string()))
}

fn check(input: &str, expected: Stmt) {
    let result = parse(input).unwrap();
    assert_eq!(result, expected);
}

#[test]
fn test_num() {
    check("42", Stmt::Eval(Expr::Num(42)));
}

#[test]
fn test_var() {
    check("x", Stmt::Eval(Expr::Var("x".to_string())));
}

#[test]
fn test_add() {
    check("1 + 2", Stmt::Eval(Expr::Add(num(1), num(2))));
}

#[test]
fn test_sub() {
    check("3 - 4", Stmt::Eval(Expr::Sub(num(3), num(4))));
}

#[test]
fn test_div() {
    check("10 / 2", Stmt::Eval(Expr::Div(num(10), num(2))));
}

#[test]
fn test_lam1() {
    check(
        "|x| x + 1",
        Stmt::Eval(Expr::Lam("x".to_string(), Box::new(Expr::Add(var("x"), num(1))))),
    );
}

#[test]
fn test_lam2() {
    check(
        "|x, y| x + y",
        Stmt::Eval(Expr::Lam(
            "x".to_string(),
            Box::new(Expr::Lam("y".to_string(), Box::new(Expr::Add(var("x"), var("y"))))),
        )),
    );
}

#[test]
fn test_app() {
    check(
        "(|x| x + 1)(5)",
        Stmt::Eval(Expr::App(
            Box::new(Expr::Lam("x".to_string(), Box::new(Expr::Add(var("x"), num(1))))),
            num(5),
        )),
    );
}

#[test]
fn test_stmt() {
    check("x = 10", Stmt::Let("x".to_string(), Expr::Num(10)));
}

#[test]
fn test_precedence() {
    check(
        "1 + 2 * 3",
        Stmt::Eval(Expr::Add(num(1), Box::new(Expr::Mul(num(2), num(3))))),
    );
}

#[test]
fn test_parentheses() {
    check(
        "(1 + 2) * 3",
        Stmt::Eval(Expr::Mul(Box::new(Expr::Add(num(1), num(2))), num(3))),
    );
}

#[test]
fn test_assignment() {
    check(
        "x = 5 * 3",
        Stmt::Let("x".to_string(), Expr::Mul(num(5), num(3))),
    );
}

fn check_same(lhs: &str, rhs: &str) {
    let result1 = parse(lhs).unwrap();
    let result2 = parse(rhs).unwrap();
    assert_eq!(result1, result2);
}

#[test]
fn test_prec() {
    check_same("1 + 2 * 3", "1 + (2 * 3)");
}

#[test]
fn test_spaces() {
    check_same("    1 + 2   * 3   ", "1 + 2 * 3");
}

fn check_err(input: &str) {
    let result = parse(input);
    assert!(result.is_err());
}

#[test]
fn test_invalid_char() {
    check_err("1 + 2a");
}

#[test]
fn test_unmatched_paren() {
    check_err("(1 + 2");
}

#[test]
fn test_empty_input() {
    check_err("");
}

#[test]
fn test_invalid_assignment() {
    check_err("x = ");
}

#[test]
fn test_invalid_expression() {
    check_err("1 + * 2");
}

// Further cases.

#[test]
fn every_error_is_a_syntax_error() {
    for input in ["1 +", "#", "(", ")", "|x", "|x y| x", "|1| 2", "x = = 1", "f(1", "1 2", "   "] {
        assert_eq!(parse(input), Err("syntax error"), "input {:?}", input);
    }
}

#[test]
fn subtraction_and_division_group_to_the_left() {
    check("8 - 4 - 2", Stmt::Eval(Expr::Sub(Box::new(Expr::Sub(num(8), num(4))), num(2))));
    check("8 / 4 / 2", Stmt::Eval(Expr::Div(Box::new(Expr::Div(num(8), num(4))), num(2))));
}

#[test]
fn calls_chain_and_bind_tighter_than_products() {
    check(
        "f(1)(2) * g(3)",
        Stmt::Eval(Expr::Mul(
            Box::new(Expr::App(Box::new(Expr::App(var("f"), num(1))), num(2))),
            Box::new(Expr::App(var("g"), num(3))),
        )),
    );
}

#[test]
fn a_lambda_body_extends_to_the_end() {
    check(
        "|f| |x| f(x) + 1",
        Stmt::Eval(Expr::Lam(
            "f".to_string(),
            Box::new(Expr::Lam(
                "x".to_string(),
                Box::new(Expr::Add(Box::new(Expr::App(var("f"), var("x"))), num(1))),
            )),
        )),
    );
}

#[test]
fn identifiers_and_numbers() {
    check("_a1_ = 007", Stmt::Let("_a1_".to_string(), Expr::Num(7)));
    check("9223372036854775807", Stmt::Eval(Expr::Num(i64::MAX)));
    assert_eq!(parse("9223372036854775808"), Err("syntax error"));
}

#[test]
fn a_binding_needs_a_name_first() {
    assert_eq!(parse("1 = 2"), Err("syntax error"));
    check("x", Stmt::Eval(Expr::Var("x".to_string())));
}

#[test]
fn other_whitespace_separates_tokens() {
    check_same("\t1\u{a0}+\u{3000}2\r\n", "1 + 2");
}

#[test]
fn whitespace_agrees_with_the_standard_library() {
    for code in 0u32..=0x10FFFF {
        if let Some(c) = char::from_u32(code) {
            let text = format!("1{}+{}2", c, c);
            let spaced = parse(&text).is_ok() && c != '+';
            if c.is_whitespace() {
                assert!(spaced, "{:?}", c);
            }
        }
    }
}

#[test]
fn whitespace_between_tokens_changes_nothing() {
    assert_eq!(parse("x=|a,b|a*(b-1)"), parse("x = | a , b |\ta * ( b - 1 )"));
    assert_eq!(parse("f(2)/3"), parse("f (2)  /\u{3000}3"));
    // tokens that would run together are another text
    assert_ne!(parse("ab"), parse("a b"));
}
