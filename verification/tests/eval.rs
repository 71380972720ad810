use compromise::eval::Eval;

fn one(input: &str) -> Result<Option<i64>, &'static str> {
    let mut eval = Eval::new();
    eval.eval_str(input)
}

#[test]
fn test_addition() {
    assert_eq!(one("1 + 1"), Ok(Some(2)));
}

#[test]
fn test_subtraction() {
    assert_eq!(one("5 - 3"), Ok(Some(2)));
}

#[test]
fn test_multiplication() {
    assert_eq!(one("2 * 3"), Ok(Some(6)));
}

#[test]
fn test_let() {
    assert_eq!(one("x = 10"), Ok(None));
}

#[test]
fn test_variable() {
    assert_eq!(one("x = 10\nx + 5"), Ok(Some(15)));
}

#[test]
fn test_unbound() {
    assert_eq!(one("y + 1"), Err("unbound variable"));
}

#[test]
fn example_scenario() {
    let mut eval = Eval::new();
    assert_eq!(eval.eval_str("x = 10"), Ok(None));
    assert_eq!(eval.eval_str("y = 5"), Ok(None));
    assert_eq!(eval.eval_str("x + y"), Ok(Some(15)));
    assert_eq!(eval.eval_str("z + x"), Err("unbound variable"));
    assert_eq!(eval.eval_str("z = 20"), Ok(None));
    assert_eq!(eval.eval_str("z +"), Err("syntax error"));
    assert_eq!(eval.eval_str("z + x"), Ok(Some(30)));
}

// Further cases.

#[test]
fn division_truncates_toward_zero() {
    assert_eq!(one("7 / 2"), Ok(Some(3)));
    assert_eq!(one("0 - 7 / 2"), Ok(Some(-3)));
    assert_eq!(one("(0 - 7) / 2"), Ok(Some(-3)));
    assert_eq!(one("7 / (0 - 2)"), Ok(Some(-3)));
    assert_eq!(one("(0 - 7) / (0 - 2)"), Ok(Some(3)));
}

#[test]
fn errors_are_reported() {
    assert_eq!(one("1 / 0"), Err("division by zero"));
    assert_eq!(one("9223372036854775807 + 1"), Err("overflow"));
    assert_eq!(one("0 - 9223372036854775807 - 2"), Err("overflow"));
    assert_eq!(one("4611686018427387904 * 2"), Err("overflow"));
    assert_eq!(one("(0 - 9223372036854775807 - 1) / (0 - 1)"), Err("overflow"));
    assert_eq!(one("1(2)"), Err("not a function"));
    assert_eq!(one("(|x| x) + 1"), Err("not a number"));
    assert_eq!(one(""), Err("syntax error"));
    assert_eq!(one(" \n \t\n"), Err("syntax error"));
    assert_eq!(one("1 +"), Err("syntax error"));
}

#[test]
fn the_left_operand_fails_first() {
    assert_eq!(one("a + 1 / 0"), Err("unbound variable"));
    assert_eq!(one("(1 / 0) + b"), Err("division by zero"));
    assert_eq!(one("(|x| x) + b"), Err("unbound variable"));
    assert_eq!(one("1(b)"), Err("not a function"));
}

#[test]
fn closures_apply_and_capture() {
    assert_eq!(one("(|x| x + 1)(5)"), Ok(Some(6)));
    assert_eq!(one("(|x, y| x * y)(3)(4)"), Ok(Some(12)));
    assert_eq!(one("|x| x"), Ok(None));
    assert_eq!(one("k = 2\nf = |x| x * k\nk = 100\nf(5)"), Ok(Some(10)));
    assert_eq!(one("twice = |f| |x| f(f(x))\ninc = |n| n + 1\ntwice(inc)(5)"), Ok(Some(7)));
    assert_eq!(one("f = |x| y\nf(1)"), Err("unbound variable"));
}

#[test]
fn lines_run_in_turn() {
    assert_eq!(one("x = 1\r\n\n   \nx + 1\n"), Ok(Some(2)));
    assert_eq!(one("1\nx = 3"), Ok(None));
    let mut eval = Eval::new();
    assert_eq!(eval.eval_str("a = 1\nb = a +\nc = 3"), Err("syntax error"));
    assert_eq!(eval.eval_str("a"), Ok(Some(1)));
    assert_eq!(eval.eval_str("c"), Err("unbound variable"));
    assert_eq!(eval.eval_str("b"), Err("unbound variable"));
}

#[test]
fn rebinding_replaces_the_value() {
    let mut eval = Eval::new();
    assert_eq!(eval.eval_str("x = 1\nx = x + 1\nx = x * 10"), Ok(None));
    assert_eq!(eval.eval_str("x"), Ok(Some(20)));
}

#[test]
fn a_new_evaluator_knows_no_name() {
    for name in ["x", "_", "y2", "longer_name_9", "Self"] {
        let mut eval = Eval::new();
        assert_eq!(eval.eval_str(name), Err("unbound variable"));
        assert_eq!(eval.eval_str(name), Err("unbound variable"));
    }
}
