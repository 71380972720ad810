use compromise::eval::EvalOutput;
use compromise::parser::{Expr, Stmt};
use compromise::zz_slop::eval::{eval, eval_str, new};
use compromise::zz_slop::parser::{parse, tokenize, Token};

#[test]
fn statements_report_what_they_produced() {
    let mut state = new();
    assert_eq!(eval(&mut state, &Stmt::Let("f".to_string(), parse("|x| x * x").map(|s| match s {
        Stmt::Eval(e) => e,
        Stmt::Let(_, e) => e,
    }).unwrap())), Ok(EvalOutput::Dec));
    assert_eq!(eval(&mut state, &parse("f").unwrap()), Ok(EvalOutput::Lam));
    assert_eq!(eval(&mut state, &parse("f(7)").unwrap()), Ok(EvalOutput::Val(49)));
    assert_eq!(eval(&mut state, &Stmt::Eval(Expr::Var("g".to_string()))), Err("unbound variable"));
    assert_eq!(eval_str(&mut state, "f(f(2))"), Ok(Some(16)));
}

#[test]
fn a_binding_is_read_back() {
    let mut state = new();
    assert_eq!(eval(&mut state, &Stmt::Let("n".to_string(), Expr::Num(-3))), Ok(EvalOutput::Dec));
    assert_eq!(eval(&mut state, &Stmt::Eval(Expr::Var("n".to_string()))), Ok(EvalOutput::Val(-3)));
}

#[test]
fn a_failed_binding_binds_nothing() {
    let mut state = new();
    assert_eq!(eval_str(&mut state, "a = 1 / 0"), Err("division by zero"));
    assert_eq!(eval_str(&mut state, "a"), Err("unbound variable"));
}

#[test]
fn tokens_of_a_line() {
    let tokens = tokenize("f = |x, y| (x*y)/2 - 1 + g(3)").unwrap();
    assert_eq!(tokens.len(), 21);
    assert!(matches!(tokens[0], Token::Ident(ref n) if n == "f"));
    assert!(matches!(tokens[1], Token::Equal));
    assert!(matches!(tokens[2], Token::Pipe));
    assert!(matches!(tokens[4], Token::Comma));
    assert!(matches!(tokens[7], Token::LeftParen));
    assert!(matches!(tokens[9], Token::Star));
    assert!(matches!(tokens[12], Token::Slash));
    assert!(matches!(tokens[13], Token::Number(2)));
    assert!(matches!(tokens[14], Token::Minus));
    assert!(matches!(tokens[16], Token::Plus));
    assert!(matches!(tokens[20], Token::RightParen));
    assert!(tokenize("").unwrap().is_empty());
    assert!(tokenize("   \t").unwrap().is_empty());
    assert_eq!(tokenize("1 $ 2").err(), Some("syntax error"));
    assert_eq!(tokenize("99999999999999999999").err(), Some("syntax error"));
}

#[test]
fn tokens_written_out_again_lex_back() {
    let tokens = format!("{:?}", tokenize("f=|x,y|(x*y)/20-g(0)").unwrap());
    assert_eq!(format!("{:?}", tokenize("f = | x , y | ( x * y ) / 20 - g ( 0 )").unwrap()), tokens);
}
