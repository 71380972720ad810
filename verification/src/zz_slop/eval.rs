//! The evaluator: numbers, variables, closures and checked arithmetic.
use std::rc::Rc;

use vstd::prelude::*;

use crate::eval::EvalOutput;
use crate::parser::{clone_expr, Expr, SExpr, SStmt, Stmt};
use crate::zz_slop::parser::{
    is_identifier, lemma_identifier_parses, parse, parse_spec, syntax_error,
};
use crate::zz_slop::text::lines;
use crate::zz_slop::text::{
    is_blank, is_ident_continue, is_whitespace, lemma_run_end, line_end, lines_from, strip_cr,
    unicode_white_space,
};

verus! {

/// A value: a number, or a closure with its parameter, body and captured
/// environment.
pub enum Value {
    Num(i64),
    Closure(String, Rc<Expr>, Rc<Env>),
}

/// An environment: bindings of names to values, the latest binding of a name
/// shadowing the earlier ones.
pub enum Env {
    Empty,
    Bind(String, Value, Rc<Env>),
}

/// The mathematical form of a [`Value`].
pub enum SValue {
    Num(i64),
    Closure(Seq<char>, SExpr, Map<Seq<char>, SValue>),
}

pub open spec fn value_view(v: Value) -> SValue
    decreases v,
{
    match v {
        Value::Num(n) => SValue::Num(n),
        Value::Closure(p, b, e) => SValue::Closure(p@, (*b)@, env_view(*e)),
    }
}

/// The map from each bound name to the value of its latest binding.
pub open spec fn env_view(e: Env) -> Map<Seq<char>, SValue>
    decreases e,
{
    match e {
        Env::Empty => Map::empty(),
        Env::Bind(k, v, rest) => env_view(*rest).insert(k@, value_view(v)),
    }
}

impl View for Value {
    type V = SValue;

    open spec fn view(&self) -> SValue {
        value_view(*self)
    }
}

impl View for Env {
    type V = Map<Seq<char>, SValue>;

    open spec fn view(&self) -> Map<Seq<char>, SValue> {
        env_view(*self)
    }
}

pub open spec fn unbound_variable() -> Seq<char> {
    "unbound variable"@
}

pub open spec fn not_a_function() -> Seq<char> {
    "not a function"@
}

pub open spec fn not_a_number() -> Seq<char> {
    "not a number"@
}

pub open spec fn division_by_zero() -> Seq<char> {
    "division by zero"@
}

pub open spec fn overflow() -> Seq<char> {
    "overflow"@
}

/// The checked operations of addition, subtraction and multiplication.
#[derive(Clone, Copy)]
pub enum ArithOp {
    Add,
    Sub,
    Mul,
}

pub open spec fn in_i64(v: int) -> bool {
    i64::MIN <= v <= i64::MAX
}

/// The result of `op` on `a` and `b`, or `None` where it does not fit in `i64`.
pub open spec fn apply_op(op: ArithOp, a: i64, b: i64) -> Option<i64> {
    let r: int = match op {
        ArithOp::Add => a + b,
        ArithOp::Sub => a - b,
        ArithOp::Mul => a * b,
    };
    if in_i64(r) {
        Some(r as i64)
    } else {
        None
    }
}

/// The quotient of `a` by `b`, rounded toward zero.
pub open spec fn quotient(a: int, b: int) -> int {
    if a >= 0 {
        if b > 0 {
            a / b
        } else {
            -(a / (-b))
        }
    } else {
        if b > 0 {
            -((-a) / b)
        } else {
            (-a) / (-b)
        }
    }
}

pub type Outcome = Option<Result<SValue, Seq<char>>>;

/// Evaluation of `e` in `env` with at most `fuel` nested steps: `None` where
/// the fuel runs out, else the value or the error message.
/// Sub-expressions are evaluated left to right and the first error wins; a
/// call evaluates the function before its argument.
pub open spec fn eval_fuel(fuel: nat, env: Map<Seq<char>, SValue>, e: SExpr) -> Outcome
    decreases fuel, 0int,
{
    if fuel == 0 {
        None
    } else {
        let f = (fuel - 1) as nat;
        match e {
            SExpr::Num(v) => Some(Ok(SValue::Num(v))),
            SExpr::Var(n) => Some(
                if env.contains_key(n) {
                    Ok(env[n])
                } else {
                    Err(unbound_variable())
                },
            ),
            SExpr::Lam(p, b) => Some(Ok(SValue::Closure(p, *b, env))),
            SExpr::App(fe, ae) => match eval_fuel(f, env, *fe) {
                None => None,
                Some(Err(m)) => Some(Err(m)),
                Some(Ok(SValue::Num(_))) => Some(Err(not_a_function())),
                Some(Ok(SValue::Closure(p, body, captured))) => match eval_fuel(f, env, *ae) {
                    None => None,
                    Some(Err(m)) => Some(Err(m)),
                    Some(Ok(a)) => eval_fuel(f, captured.insert(p, a), body),
                },
            },
            SExpr::Add(l, r) => arith_outcome(ArithOp::Add, numbers_fuel(f, env, *l, *r)),
            SExpr::Sub(l, r) => arith_outcome(ArithOp::Sub, numbers_fuel(f, env, *l, *r)),
            SExpr::Mul(l, r) => arith_outcome(ArithOp::Mul, numbers_fuel(f, env, *l, *r)),
            SExpr::Div(l, r) => div_outcome(numbers_fuel(f, env, *l, *r)),
        }
    }
}

/// Both operands of an arithmetic operation, left first, as numbers.
pub open spec fn numbers_fuel(fuel: nat, env: Map<Seq<char>, SValue>, l: SExpr, r: SExpr) -> Option<
    Result<(i64, i64), Seq<char>>,
>
    decreases fuel, 1int,
{
    match eval_fuel(fuel, env, l) {
        None => None,
        Some(Err(m)) => Some(Err(m)),
        Some(Ok(lv)) => match eval_fuel(fuel, env, r) {
            None => None,
            Some(Err(m)) => Some(Err(m)),
            Some(Ok(rv)) => Some(
                match (lv, rv) {
                    (SValue::Num(a), SValue::Num(b)) => Ok((a, b)),
                    _ => Err(not_a_number()),
                },
            ),
        },
    }
}

pub open spec fn arith_outcome(op: ArithOp, n: Option<Result<(i64, i64), Seq<char>>>) -> Outcome {
    match n {
        None => None,
        Some(Err(m)) => Some(Err(m)),
        Some(Ok((a, b))) => Some(
            match apply_op(op, a, b) {
                Some(v) => Ok(SValue::Num(v)),
                None => Err(overflow()),
            },
        ),
    }
}

pub open spec fn div_outcome(n: Option<Result<(i64, i64), Seq<char>>>) -> Outcome {
    match n {
        None => None,
        Some(Err(m)) => Some(Err(m)),
        Some(Ok((a, b))) => Some(
            if b == 0 {
                Err(division_by_zero())
            } else if in_i64(quotient(a as int, b as int)) {
                Ok(SValue::Num(quotient(a as int, b as int) as i64))
            } else {
                Err(overflow())
            },
        ),
    }
}

/// Whether evaluating `e` in `env` comes to an end.
pub open spec fn terminates(env: Map<Seq<char>, SValue>, e: SExpr) -> bool {
    exists|n: nat| #[trigger] eval_fuel(n, env, e) is Some
}

/// Fuel with which the evaluation of `e` in `env` comes to an end, where it does.
pub open spec fn fuel_for(env: Map<Seq<char>, SValue>, e: SExpr) -> nat {
    choose|n: nat| #[trigger] eval_fuel(n, env, e) is Some
}

/// The value of `e` in `env`, or the error that evaluating it reports; what it
/// states holds where the evaluation terminates.
pub open spec fn evaluate(env: Map<Seq<char>, SValue>, e: SExpr) -> Result<SValue, Seq<char>> {
    eval_fuel(fuel_for(env, e), env, e)->Some_0
}

/// The expression that a statement evaluates.
pub open spec fn stmt_expr(st: SStmt) -> SExpr {
    match st {
        SStmt::Let(_, e) => e,
        SStmt::Eval(e) => e,
    }
}

/// The environment after the statement `st` and what it produced: a binding
/// adds its name only where its expression has a value; an error leaves the
/// environment as it was.
pub open spec fn step(env: Map<Seq<char>, SValue>, st: SStmt) -> (
    Map<Seq<char>, SValue>,
    Result<EvalOutput, Seq<char>>,
) {
    match st {
        SStmt::Let(n, e) => match evaluate(env, e) {
            Ok(v) => (env.insert(n, v), Ok(EvalOutput::Dec)),
            Err(m) => (env, Err(m)),
        },
        SStmt::Eval(e) => match evaluate(env, e) {
            Ok(SValue::Num(v)) => (env, Ok(EvalOutput::Val(v))),
            Ok(SValue::Closure(..)) => (env, Ok(EvalOutput::Lam)),
            Err(m) => (env, Err(m)),
        },
    }
}

/// The number that a statement's output reports, if any.
pub open spec fn output_number(o: EvalOutput) -> Option<i64> {
    match o {
        EvalOutput::Val(v) => Some(v),
        _ => None,
    }
}

/// Runs the lines `ls` in turn from `env`: blank lines are skipped, a line that
/// does not parse or whose statement fails ends the run with that error, and
/// the result is the number that the last statement reported; a text without
/// any statement is a syntax error. `None` where some statement's evaluation
/// does not terminate.
pub open spec fn run_lines(
    env: Map<Seq<char>, SValue>,
    ls: Seq<Seq<char>>,
    result: Option<i64>,
    saw: bool,
) -> Option<(Map<Seq<char>, SValue>, Result<Option<i64>, Seq<char>>)>
    decreases ls.len(),
{
    if ls.len() == 0 {
        Some(
            (
                env,
                if saw {
                    Ok(result)
                } else {
                    Err(syntax_error())
                },
            ),
        )
    } else if is_blank(ls[0]) {
        run_lines(env, ls.drop_first(), result, saw)
    } else {
        match parse_spec(ls[0]) {
            None => Some((env, Err(syntax_error()))),
            Some(st) => if terminates(env, stmt_expr(st)) {
                match step(env, st) {
                    (env2, Err(m)) => Some((env2, Err(m))),
                    (env2, Ok(o)) => run_lines(env2, ls.drop_first(), output_number(o), true),
                }
            } else {
                None
            },
        }
    }
}

/// More fuel never changes an outcome that less fuel already reached.
pub proof fn lemma_eval_fuel_monotone(n: nat, m: nat, env: Map<Seq<char>, SValue>, e: SExpr)
    requires
        n <= m,
        eval_fuel(n, env, e) is Some,
    ensures
        eval_fuel(m, env, e) == eval_fuel(n, env, e),
    decreases n, 0int,
{
    if n > 0 {
        let f = (n - 1) as nat;
        let g = (m - 1) as nat;
        match e {
            SExpr::App(fe, ae) => {
                lemma_eval_fuel_monotone(f, g, env, *fe);
                if let Some(Ok(SValue::Closure(p, body, captured))) = eval_fuel(f, env, *fe) {
                    lemma_eval_fuel_monotone(f, g, env, *ae);
                    if let Some(Ok(a)) = eval_fuel(f, env, *ae) {
                        lemma_eval_fuel_monotone(f, g, captured.insert(p, a), body);
                    }
                }
            },
            SExpr::Add(l, r) => lemma_numbers_fuel_monotone(f, g, env, *l, *r),
            SExpr::Sub(l, r) => lemma_numbers_fuel_monotone(f, g, env, *l, *r),
            SExpr::Mul(l, r) => lemma_numbers_fuel_monotone(f, g, env, *l, *r),
            SExpr::Div(l, r) => lemma_numbers_fuel_monotone(f, g, env, *l, *r),
            _ => {},
        }
    }
}

proof fn lemma_numbers_fuel_monotone(
    n: nat,
    m: nat,
    env: Map<Seq<char>, SValue>,
    l: SExpr,
    r: SExpr,
)
    requires
        n <= m,
        numbers_fuel(n, env, l, r) is Some,
    ensures
        numbers_fuel(m, env, l, r) == numbers_fuel(n, env, l, r),
    decreases n, 1int,
{
    lemma_eval_fuel_monotone(n, m, env, l);
    if let Some(Ok(_)) = eval_fuel(n, env, l) {
        lemma_eval_fuel_monotone(n, m, env, r);
    }
}

/// An evaluation that comes to an end with some fuel has the outcome that
/// [`evaluate`] states: the outcome does not depend on the fuel.
pub proof fn law_outcome_independent_of_fuel(n: nat, env: Map<Seq<char>, SValue>, e: SExpr)
    requires
        eval_fuel(n, env, e) is Some,
    ensures
        terminates(env, e),
        eval_fuel(n, env, e) == Some(evaluate(env, e)),
{
    let k = fuel_for(env, e);
    if k <= n {
        lemma_eval_fuel_monotone(k, n, env, e);
    } else {
        lemma_eval_fuel_monotone(n, k, env, e);
    }
}

/// After a binding `name = e` succeeds, `name` evaluates to the value of `e`,
/// and a statement `name` reports it.
pub proof fn law_binding_is_read_back(env: Map<Seq<char>, SValue>, name: Seq<char>, e: SExpr)
    requires
        terminates(env, e),
        evaluate(env, e) is Ok,
    ensures
        ({
            let v = evaluate(env, e)->Ok_0;
            let after = step(env, SStmt::Let(name, e));
            &&& after == (env.insert(name, v), Ok::<EvalOutput, Seq<char>>(EvalOutput::Dec))
            &&& terminates(after.0, SExpr::Var(name))
            &&& evaluate(after.0, SExpr::Var(name)) == Ok::<SValue, Seq<char>>(v)
            &&& step(after.0, SStmt::Eval(SExpr::Var(name))).1 == Ok::<EvalOutput, Seq<char>>(
                match v {
                    SValue::Num(x) => EvalOutput::Val(x),
                    SValue::Closure(..) => EvalOutput::Lam,
                },
            )
        }),
{
    let v = evaluate(env, e)->Ok_0;
    let after = env.insert(name, v);
    assert(eval_fuel(1, after, SExpr::Var(name)) == Some(Ok::<SValue, Seq<char>>(v)));
    law_outcome_independent_of_fuel(1, after, SExpr::Var(name));
}

/// A statement that fails leaves the bindings as they were, and a statement
/// that is an expression never changes them.
pub proof fn law_failure_keeps_bindings(env: Map<Seq<char>, SValue>, st: SStmt)
    ensures
        step(env, st).1 is Err ==> step(env, st).0 == env,
        st is Eval ==> step(env, st).0 == env,
{
}

proof fn lemma_blank_text_runs_nothing(
    env: Map<Seq<char>, SValue>,
    s: Seq<char>,
    i: int,
    result: Option<i64>,
    saw: bool,
)
    requires
        is_blank(s),
        0 <= i,
    ensures
        run_lines(env, lines_from(s, i), result, saw) == Some(
            (
                env,
                if saw {
                    Ok::<Option<i64>, Seq<char>>(result)
                } else {
                    Err::<Option<i64>, Seq<char>>(syntax_error())
                },
            ),
        ),
    decreases s.len() - i,
{
    if i < s.len() {
        lemma_run_end(s, i, |c: char| c != '\n');
        let j = line_end(s, i);
        let ls = lines_from(s, i);
        let whole = s.subrange(i, j);
        assert(is_blank(whole)) by {
            assert forall|k: int| 0 <= k < whole.len() implies unicode_white_space(#[trigger] whole[k]) by {
                assert(whole[k] == s[i + k]);
            }
        }
        assert(is_blank(ls[0])) by {
            if j < s.len() && whole.len() > 0 && whole.last() == '\r' {
                assert forall|k: int| 0 <= k < ls[0].len() implies unicode_white_space(#[trigger] ls[0][k]) by {
                    assert(ls[0][k] == whole[k]);
                }
            }
        }
        if j < s.len() {
            lemma_blank_text_runs_nothing(env, s, j + 1, result, saw);
            assert(ls.drop_first() =~= lines_from(s, j + 1));
        } else {
            assert(ls.drop_first() =~= Seq::<Seq<char>>::empty());
        }
    }
}

/// A text of nothing but whitespace holds no statement: running it is a
/// syntax error, and no binding changes.
pub proof fn law_blank_text_is_a_syntax_error(env: Map<Seq<char>, SValue>, s: Seq<char>)
    requires
        is_blank(s),
    ensures
        run_lines(env, lines(s), None, false) == Some(
            (env, Err::<Option<i64>, Seq<char>>(syntax_error())),
        ),
{
    lemma_blank_text_runs_nothing(env, s, 0, None, false);
}

/// Running a text of one line runs the one statement that it holds: the
/// outcome is that of [`step`], with the number that the statement reports,
/// or the syntax error where the line does not parse.
pub proof fn law_one_line_runs_its_statement(env: Map<Seq<char>, SValue>, s: Seq<char>)
    requires
        forall|k: int| 0 <= k < s.len() ==> #[trigger] s[k] != '\n',
        !is_blank(s),
    ensures
        lines(s) == seq![s],
        parse_spec(s) is None ==> run_lines(env, lines(s), None, false) == Some(
            (env, Err::<Option<i64>, Seq<char>>(syntax_error())),
        ),
        ({
            let st = parse_spec(s)->Some_0;
            parse_spec(s) is Some && terminates(env, stmt_expr(st)) ==> run_lines(
                env,
                lines(s),
                None,
                false,
            ) == Some(
                (
                    step(env, st).0,
                    match step(env, st).1 {
                        Ok(o) => Ok::<Option<i64>, Seq<char>>(output_number(o)),
                        Err(m) => Err::<Option<i64>, Seq<char>>(m),
                    },
                ),
            )
        }),
{
    lemma_run_end(s, 0, |c: char| c != '\n');
    let j = line_end(s, 0);
    if j < s.len() {
        assert(s[j] != '\n');
    }
    assert(j == s.len());
    assert(s.subrange(0, j) =~= s);
    assert(s.len() > 0);
    assert(lines(s) =~= seq![s]);
    assert(seq![s].drop_first() =~= Seq::<Seq<char>>::empty());
    assert(lines(s)[0] == s);
    if let Some(st) = parse_spec(s) {
        if terminates(env, stmt_expr(st)) {
            let (e2, out) = step(env, st);
            if let Ok(o) = out {
                assert(run_lines(e2, Seq::empty(), output_number(o), true) == Some(
                    (e2, Ok::<Option<i64>, Seq<char>>(output_number(o))),
                ));
            }
        }
    }
}

/// Calling a lambda binds its parameter to the argument's value, over any
/// binding of that name in the environment, and evaluates the body there:
/// where `a` has the value `v` in `env`, `(|p| b)(a)` has the outcome of `b`
/// in `env` with `p` bound to `v`; in particular `(|p| p)(a)` is `v`.
pub proof fn law_call_binds_the_parameter(
    env: Map<Seq<char>, SValue>,
    p: Seq<char>,
    b: SExpr,
    a: SExpr,
    v: SValue,
)
    requires
        terminates(env, a),
        evaluate(env, a) == Ok::<SValue, Seq<char>>(v),
        terminates(env.insert(p, v), b),
    ensures
        terminates(env, SExpr::App(Box::new(SExpr::Lam(p, Box::new(b))), Box::new(a))),
        evaluate(env, SExpr::App(Box::new(SExpr::Lam(p, Box::new(b))), Box::new(a))) == evaluate(
            env.insert(p, v),
            b,
        ),
        evaluate(env, SExpr::App(Box::new(SExpr::Lam(p, Box::new(SExpr::Var(p)))), Box::new(a)))
            == Ok::<SValue, Seq<char>>(v),
{
    let inner = env.insert(p, v);
    let n1 = fuel_for(env, a);
    let n2 = fuel_for(inner, b);
    let f: nat = n1 + n2 + 1;
    let call = SExpr::App(Box::new(SExpr::Lam(p, Box::new(b))), Box::new(a));
    law_outcome_independent_of_fuel(n1, env, a);
    law_outcome_independent_of_fuel(n2, inner, b);
    lemma_eval_fuel_monotone(n1, f, env, a);
    lemma_eval_fuel_monotone(n2, f, inner, b);
    assert(eval_fuel(f, env, SExpr::Lam(p, Box::new(b))) == Some(
        Ok::<SValue, Seq<char>>(SValue::Closure(p, b, env)),
    ));
    assert(eval_fuel(f + 1, env, call) == eval_fuel(f, inner, b));
    law_outcome_independent_of_fuel(f + 1, env, call);
    // the identity lambda
    assert(eval_fuel(1, inner, SExpr::Var(p)) == Some(Ok::<SValue, Seq<char>>(v)));
    let id_call = SExpr::App(Box::new(SExpr::Lam(p, Box::new(SExpr::Var(p)))), Box::new(a));
    lemma_eval_fuel_monotone(1, n1 + 1, inner, SExpr::Var(p));
    lemma_eval_fuel_monotone(n1, n1 + 1, env, a);
    assert(eval_fuel(n1 + 1, env, SExpr::Lam(p, Box::new(SExpr::Var(p)))) == Some(
        Ok::<SValue, Seq<char>>(SValue::Closure(p, SExpr::Var(p), env)),
    ));
    assert(eval_fuel(n1 + 2, env, id_call) == Some(Ok::<SValue, Seq<char>>(v)));
    law_outcome_independent_of_fuel(n1 + 2, env, id_call);
}

proof fn lemma_nonneg_div(x: int, d: int)
    requires
        x >= 0,
        d > 0,
    ensures
        0 <= x / d <= x,
        0 <= x % d < d,
        x == d * (x / d) + x % d,
{
    vstd::arithmetic::div_mod::lemma_fundamental_div_mod(x, d);
    vstd::arithmetic::div_mod::lemma_mod_pos_bound(x, d);
    assert(0 <= x / d <= x) by (nonlinear_arith)
        requires
            x == d * (x / d) + x % d,
            0 <= x % d < d,
            d > 0,
            x >= 0,
    ;
}

/// The quotient rounded toward zero leaves a remainder smaller than the
/// divisor in size and of the sign of the dividend, and is no larger than
/// the dividend in size.
proof fn lemma_quotient(a: int, b: int)
    requires
        b != 0,
    ensures
        ({
            let q = quotient(a, b);
            let r = a - q * b;
            &&& (if b > 0 { -b < r < b } else { b < r < -b })
            &&& (r == 0 || ((r > 0) == (a > 0)))
            &&& (if q >= 0 { q } else { -q }) <= (if a >= 0 { a } else { -a })
        }),
{
    let x = if a >= 0 { a } else { -a };
    let d = if b > 0 { b } else { -b };
    lemma_nonneg_div(x, d);
    let q0 = x / d;
    let r0 = x % d;
    let q = quotient(a, b);
    if a >= 0 && b > 0 {
        assert(q == q0);
        assert(a - q * b == r0) by (nonlinear_arith)
            requires
                q == q0,
                a == x,
                b == d,
                x == d * q0 + r0,
        ;
    } else if a >= 0 {
        assert(q == -q0);
        assert(a - q * b == r0) by (nonlinear_arith)
            requires
                q == -q0,
                a == x,
                b == -d,
                x == d * q0 + r0,
        ;
    } else if b > 0 {
        assert(q == -q0);
        assert(a - q * b == -r0) by (nonlinear_arith)
            requires
                q == -q0,
                a == -x,
                b == d,
                x == d * q0 + r0,
        ;
    } else {
        assert(q == q0);
        assert(a - q * b == -r0) by (nonlinear_arith)
            requires
                q == q0,
                a == -x,
                b == -d,
                x == d * q0 + r0,
        ;
    }
}

/// Arithmetic on numbers is the checked arithmetic of `i64`: `a + b`,
/// `a - b` and `a * b` where the result fits and an overflow error where it
/// does not; division by zero is an error, and `i64::MIN / -1` overflows;
/// any other quotient `q` of `a` by `b` rounds toward zero: the remainder
/// `a - q * b` is smaller than `b` in size and has the sign of `a`.
pub proof fn law_arithmetic(env: Map<Seq<char>, SValue>, a: i64, b: i64)
    ensures
        evaluate(env, SExpr::Add(Box::new(SExpr::Num(a)), Box::new(SExpr::Num(b)))) == (if i64::MIN
            <= a + b <= i64::MAX {
            Ok::<SValue, Seq<char>>(SValue::Num((a + b) as i64))
        } else {
            Err::<SValue, Seq<char>>(overflow())
        }),
        evaluate(env, SExpr::Sub(Box::new(SExpr::Num(a)), Box::new(SExpr::Num(b)))) == (if i64::MIN
            <= a - b <= i64::MAX {
            Ok::<SValue, Seq<char>>(SValue::Num((a - b) as i64))
        } else {
            Err::<SValue, Seq<char>>(overflow())
        }),
        evaluate(env, SExpr::Mul(Box::new(SExpr::Num(a)), Box::new(SExpr::Num(b)))) == (if i64::MIN
            <= a * b <= i64::MAX {
            Ok::<SValue, Seq<char>>(SValue::Num((a * b) as i64))
        } else {
            Err::<SValue, Seq<char>>(overflow())
        }),
        b == 0 ==> evaluate(env, SExpr::Div(Box::new(SExpr::Num(a)), Box::new(SExpr::Num(b))))
            == Err::<SValue, Seq<char>>(division_by_zero()),
        a == i64::MIN && b == -1 ==> evaluate(
            env,
            SExpr::Div(Box::new(SExpr::Num(a)), Box::new(SExpr::Num(b))),
        ) == Err::<SValue, Seq<char>>(overflow()),
        b != 0 && !(a == i64::MIN && b == -1) ==> ({
            let o = evaluate(env, SExpr::Div(Box::new(SExpr::Num(a)), Box::new(SExpr::Num(b))));
            &&& o matches Ok(SValue::Num(q))
            &&& {
                let q = o->Ok_0->Num_0;
                let r = a - q * b;
                &&& (if b > 0 { -b < r < b } else { b < r < -b })
                &&& (r == 0 || ((r > 0) == (a > 0)))
            }
        }),
{
    let (na, nb) = (SExpr::Num(a), SExpr::Num(b));
    let add = SExpr::Add(Box::new(na), Box::new(nb));
    let sub = SExpr::Sub(Box::new(na), Box::new(nb));
    let mul = SExpr::Mul(Box::new(na), Box::new(nb));
    let div = SExpr::Div(Box::new(na), Box::new(nb));
    assert(numbers_fuel(1, env, na, nb) == Some(Ok::<(i64, i64), Seq<char>>((a, b))));
    law_outcome_independent_of_fuel(2, env, add);
    law_outcome_independent_of_fuel(2, env, sub);
    law_outcome_independent_of_fuel(2, env, mul);
    law_outcome_independent_of_fuel(2, env, div);
    if b != 0 {
        lemma_quotient(a as int, b as int);
        if !(a == i64::MIN && b == -1) {
            let q = quotient(a as int, b as int);
            if !in_i64(q) {
                // |q| <= |a| fits unless q is 2^63, which only MIN / -1 gives
                assert(q == 0x8000_0000_0000_0000);
                assert(a == i64::MIN);
                assert(b == -1) by (nonlinear_arith)
                    requires
                        a == i64::MIN,
                        q == 0x8000_0000_0000_0000,
                        -1 <= b <= 1 || b < -1 || b > 1,
                        b != 0,
                        (if b > 0 { -b < a - q * b < b } else { b < a - q * b < -b }),
                ;
            }
        } else {
            assert(0x8000_0000_0000_0000int / 1int == 0x8000_0000_0000_0000int) by (nonlinear_arith);
            assert(quotient(a as int, b as int) == 0x8000_0000_0000_0000);
        }
    }
}

/// A closure uses the environment it was made in: calling a name bound to a
/// closure evaluates the closure's body in its captured environment with
/// the parameter bound to the argument's value, whatever else the calling
/// environment binds.
pub proof fn law_closures_use_their_captured_environment(
    env: Map<Seq<char>, SValue>,
    f: Seq<char>,
    p: Seq<char>,
    body: SExpr,
    captured: Map<Seq<char>, SValue>,
    a: SExpr,
    v: SValue,
)
    requires
        env.contains_key(f),
        env[f] == SValue::Closure(p, body, captured),
        terminates(env, a),
        evaluate(env, a) == Ok::<SValue, Seq<char>>(v),
        terminates(captured.insert(p, v), body),
    ensures
        terminates(env, SExpr::App(Box::new(SExpr::Var(f)), Box::new(a))),
        evaluate(env, SExpr::App(Box::new(SExpr::Var(f)), Box::new(a))) == evaluate(
            captured.insert(p, v),
            body,
        ),
{
    let inner = captured.insert(p, v);
    let n1 = fuel_for(env, a);
    let n2 = fuel_for(inner, body);
    let n: nat = n1 + n2 + 1;
    let call = SExpr::App(Box::new(SExpr::Var(f)), Box::new(a));
    law_outcome_independent_of_fuel(n1, env, a);
    law_outcome_independent_of_fuel(n2, inner, body);
    lemma_eval_fuel_monotone(n1, n, env, a);
    lemma_eval_fuel_monotone(n2, n, inner, body);
    assert(eval_fuel(n, env, SExpr::Var(f)) == Some(
        Ok::<SValue, Seq<char>>(SValue::Closure(p, body, captured)),
    ));
    assert(eval_fuel(n + 1, env, call) == eval_fuel(n, inner, body));
    law_outcome_independent_of_fuel(n + 1, env, call);
}

/// Operands are evaluated left first, and the first error is the one
/// reported: where `l` fails, `l + r`, `l - r`, `l * r`, `l / r` and the call
/// `l(r)` fail with the same error, whatever `r` is.
pub proof fn law_left_operand_fails_first(env: Map<Seq<char>, SValue>, l: SExpr, r: SExpr, m: Seq<char>)
    requires
        terminates(env, l),
        evaluate(env, l) == Err::<SValue, Seq<char>>(m),
    ensures
        evaluate(env, SExpr::Add(Box::new(l), Box::new(r))) == Err::<SValue, Seq<char>>(m),
        evaluate(env, SExpr::Sub(Box::new(l), Box::new(r))) == Err::<SValue, Seq<char>>(m),
        evaluate(env, SExpr::Mul(Box::new(l), Box::new(r))) == Err::<SValue, Seq<char>>(m),
        evaluate(env, SExpr::Div(Box::new(l), Box::new(r))) == Err::<SValue, Seq<char>>(m),
        evaluate(env, SExpr::App(Box::new(l), Box::new(r))) == Err::<SValue, Seq<char>>(m),
{
    let n = fuel_for(env, l);
    law_outcome_independent_of_fuel(n, env, l);
    assert(numbers_fuel(n, env, l, r) == Some(Err::<(i64, i64), Seq<char>>(m)));
    law_outcome_independent_of_fuel(n + 1, env, SExpr::Add(Box::new(l), Box::new(r)));
    law_outcome_independent_of_fuel(n + 1, env, SExpr::Sub(Box::new(l), Box::new(r)));
    law_outcome_independent_of_fuel(n + 1, env, SExpr::Mul(Box::new(l), Box::new(r)));
    law_outcome_independent_of_fuel(n + 1, env, SExpr::Div(Box::new(l), Box::new(r)));
    law_outcome_independent_of_fuel(n + 1, env, SExpr::App(Box::new(l), Box::new(r)));
}

/// Two statement lines run in turn: the second sees the bindings that the
/// first made, and the run reports what the second produced; where the first
/// fails, its error ends the run.
pub proof fn law_lines_run_in_turn(
    env: Map<Seq<char>, SValue>,
    l1: Seq<char>,
    l2: Seq<char>,
    st1: SStmt,
    st2: SStmt,
)
    requires
        !is_blank(l1),
        !is_blank(l2),
        parse_spec(l1) == Some(st1),
        parse_spec(l2) == Some(st2),
        terminates(env, stmt_expr(st1)),
        terminates(step(env, st1).0, stmt_expr(st2)),
    ensures
        run_lines(env, seq![l1, l2], None, false) == (match step(env, st1) {
            (e1, Err(m)) => Some((e1, Err::<Option<i64>, Seq<char>>(m))),
            (e1, Ok(_)) => match step(e1, st2) {
                (e2, Ok(o)) => Some((e2, Ok::<Option<i64>, Seq<char>>(output_number(o)))),
                (e2, Err(m)) => Some((e2, Err::<Option<i64>, Seq<char>>(m))),
            },
        }),
{
    let ls = seq![l1, l2];
    assert(ls[0] == l1);
    assert(ls.drop_first() =~= seq![l2]);
    assert(seq![l2][0] == l2);
    assert(seq![l2].drop_first() =~= Seq::<Seq<char>>::empty());
    if let (e1, Ok(o1)) = step(env, st1) {
        assert(run_lines(env, ls, None, false) == run_lines(e1, seq![l2], output_number(o1), true));
        if let (e2, Ok(o2)) = step(e1, st2) {
            assert(run_lines(e2, Seq::<Seq<char>>::empty(), output_number(o2), true) == Some(
                (e2, Ok::<Option<i64>, Seq<char>>(output_number(o2))),
            ));
            assert(run_lines(e1, seq![l2], output_number(o1), true) == run_lines(
                e2,
                Seq::<Seq<char>>::empty(),
                output_number(o2),
                true,
            ));
        }
    }
}

/// An evaluator with no bindings knows no name: a name alone, as a
/// statement or as the text of a line, is an unbound variable, and nothing
/// gets bound.
pub proof fn law_fresh_state_binds_nothing(n: Seq<char>)
    requires
        is_identifier(n),
    ensures
        terminates(Map::empty(), SExpr::Var(n)),
        step(Map::empty(), SStmt::Eval(SExpr::Var(n))) == (
            Map::<Seq<char>, SValue>::empty(),
            Err::<EvalOutput, Seq<char>>(unbound_variable()),
        ),
        run_lines(Map::empty(), lines(n), None, false) == Some(
            (Map::<Seq<char>, SValue>::empty(), Err::<Option<i64>, Seq<char>>(unbound_variable())),
        ),
{
    let env = Map::<Seq<char>, SValue>::empty();
    lemma_identifier_parses(n);
    assert(eval_fuel(1, env, SExpr::Var(n)) == Some(Err::<SValue, Seq<char>>(unbound_variable())));
    law_outcome_independent_of_fuel(1, env, SExpr::Var(n));
    assert forall|k: int| 0 <= k < n.len() implies #[trigger] n[k] != '\n' by {
        if k > 0 {
            assert(is_ident_continue(n[k]));
        }
    }
    assert(!unicode_white_space(n[0]));
    law_one_line_runs_its_statement(env, n);
}

/// `Rc::clone`: another pointer to the same value, which is therefore equal.
#[verifier::external_body]
fn rc_clone<T>(rc: &Rc<T>) -> (r: Rc<T>)
    ensures
        r == *rc,
{
    Rc::clone(rc)
}

fn clone_value(v: &Value) -> (r: Value)
    ensures
        r == *v,
{
    match v {
        Value::Num(n) => Value::Num(*n),
        Value::Closure(p, b, e) => Value::Closure(p.clone(), rc_clone(b), rc_clone(e)),
    }
}

fn lookup(env: &Env, name: &String) -> (r: Option<Value>)
    ensures
        match r {
            Some(v) => env_view(*env).contains_key(name@) && v@ == env_view(*env)[name@],
            None => !env_view(*env).contains_key(name@),
        },
    decreases env,
{
    match env {
        Env::Empty => None,
        Env::Bind(k, v, rest) => {
            if *k == *name {
                Some(clone_value(v))
            } else {
                lookup(&**rest, name)
            }
        },
    }
}

fn eval_expr(env: &Rc<Env>, expression: &Expr, Ghost(fuel): Ghost<nat>) -> (r: Result<
    Value,
    &'static str,
>)
    requires
        eval_fuel(fuel, env_view(**env), expression@) is Some,
    ensures
        match r {
            Ok(v) => eval_fuel(fuel, env_view(**env), expression@) == Some(
                Ok::<SValue, Seq<char>>(v@),
            ),
            Err(m) => eval_fuel(fuel, env_view(**env), expression@) == Some(
                Err::<SValue, Seq<char>>(m@),
            ),
        },
    decreases fuel, 0int,
{
    let ghost f = (fuel - 1) as nat;
    match expression {
        Expr::Num(value) => Ok(Value::Num(*value)),
        Expr::Var(name) => match lookup(&**env, name) {
            Some(v) => Ok(v),
            None => Err("unbound variable"),
        },
        Expr::Lam(parameter, body) => Ok(
            Value::Closure(parameter.clone(), Rc::new(clone_expr(body)), rc_clone(env)),
        ),
        Expr::App(function, argument) => {
            let function = eval_expr(env, function, Ghost(f))?;
            match function {
                Value::Num(_) => Err("not a function"),
                Value::Closure(parameter, body, captured) => {
                    let argument = eval_expr(env, argument, Ghost(f))?;
                    let environment = Rc::new(Env::Bind(parameter, argument, captured));
                    eval_expr(&environment, &*body, Ghost(f))
                },
            }
        },
        Expr::Add(left, right) => arithmetic(env, left, right, ArithOp::Add, Ghost(f)),
        Expr::Sub(left, right) => arithmetic(env, left, right, ArithOp::Sub, Ghost(f)),
        Expr::Mul(left, right) => arithmetic(env, left, right, ArithOp::Mul, Ghost(f)),
        Expr::Div(left, right) => {
            let (dividend, divisor) = numbers(env, left, right, Ghost(f))?;
            if divisor == 0 {
                return Err("division by zero");
            }
            match dividend.checked_div(divisor) {
                Some(q) => Ok(Value::Num(q)),
                None => Err("overflow"),
            }
        },
    }
}

fn numbers(env: &Rc<Env>, left: &Expr, right: &Expr, Ghost(fuel): Ghost<nat>) -> (r: Result<
    (i64, i64),
    &'static str,
>)
    requires
        numbers_fuel(fuel, env_view(**env), left@, right@) is Some,
    ensures
        match r {
            Ok(p) => numbers_fuel(fuel, env_view(**env), left@, right@) == Some(
                Ok::<(i64, i64), Seq<char>>(p),
            ),
            Err(m) => numbers_fuel(fuel, env_view(**env), left@, right@) == Some(
                Err::<(i64, i64), Seq<char>>(m@),
            ),
        },
    decreases fuel, 1int,
{
    let left = eval_expr(env, left, Ghost(fuel))?;
    let right = eval_expr(env, right, Ghost(fuel))?;
    match (left, right) {
        (Value::Num(left), Value::Num(right)) => Ok((left, right)),
        _ => Err("not a number"),
    }
}

fn arithmetic(
    env: &Rc<Env>,
    left: &Expr,
    right: &Expr,
    op: ArithOp,
    Ghost(fuel): Ghost<nat>,
) -> (r: Result<Value, &'static str>)
    requires
        numbers_fuel(fuel, env_view(**env), left@, right@) is Some,
    ensures
        match r {
            Ok(v) => arith_outcome(op, numbers_fuel(fuel, env_view(**env), left@, right@)) == Some(
                Ok::<SValue, Seq<char>>(v@),
            ),
            Err(m) => arith_outcome(op, numbers_fuel(fuel, env_view(**env), left@, right@))
                == Some(Err::<SValue, Seq<char>>(m@)),
        },
    decreases fuel, 2int,
{
    let (left, right) = numbers(env, left, right, Ghost(fuel))?;
    let result = match op {
        ArithOp::Add => left.checked_add(right),
        ArithOp::Sub => left.checked_sub(right),
        ArithOp::Mul => left.checked_mul(right),
    };
    match result {
        Some(v) => Ok(Value::Num(v)),
        None => Err("overflow"),
    }
}

/// The evaluator's state: the variables bound so far.
pub struct Eval {
    variables: Rc<Env>,
}

impl View for Eval {
    type V = Map<Seq<char>, SValue>;

    closed spec fn view(&self) -> Map<Seq<char>, SValue> {
        env_view(*self.variables)
    }
}

/// An evaluator with no variables bound.
pub fn new() -> (r: Eval)
    ensures
        r@ == Map::<Seq<char>, SValue>::empty(),
{
    Eval { variables: Rc::new(Env::Empty) }
}

/// Evaluates one statement: a binding evaluates its expression and binds the
/// name to the value; an expression reports its number, or that it is a
/// closure.
pub fn eval(state: &mut Eval, input: &Stmt) -> (r: Result<EvalOutput, &'static str>)
    requires
        terminates(old(state)@, stmt_expr(input@)),
    ensures
        final(state)@ == step(old(state)@, input@).0,
        match r {
            Ok(o) => step(old(state)@, input@).1 == Ok::<EvalOutput, Seq<char>>(o),
            Err(m) => step(old(state)@, input@).1 == Err::<EvalOutput, Seq<char>>(m@),
        },
{
    match input {
        Stmt::Let(name, expression) => {
            let value = eval_expr(
                &state.variables,
                expression,
                Ghost(fuel_for(state@, expression@)),
            )?;
            let rest = rc_clone(&state.variables);
            state.variables = Rc::new(Env::Bind(name.clone(), value, rest));
            Ok(EvalOutput::Dec)
        },
        Stmt::Eval(expression) => {
            match eval_expr(&state.variables, expression, Ghost(fuel_for(state@, expression@)))? {
                Value::Num(value) => Ok(EvalOutput::Val(value)),
                Value::Closure(..) => Ok(EvalOutput::Lam),
            }
        },
    }
}

fn blank(line: &str) -> (r: bool)
    ensures
        r == is_blank(line@),
{
    let n = line.unicode_len();
    let mut i: usize = 0;
    while i < n
        invariant
            n == line@.len(),
            i <= n,
            forall|k: int| 0 <= k < i ==> unicode_white_space(#[trigger] line@[k]),
        decreases n - i,
    {
        if !is_whitespace(line.get_char(i)) {
            return false;
        }
        i = i + 1;
    }
    true
}

/// Runs the lines of `input` in turn and reports the number that the last
/// statement produced, `None` after a binding or a closure.
pub fn eval_str(state: &mut Eval, input: &str) -> (r: Result<Option<i64>, &'static str>)
    requires
        run_lines(old(state)@, lines(input@), None, false) is Some,
    ensures
        final(state)@ == run_lines(old(state)@, lines(input@), None, false)->Some_0.0,
        match r {
            Ok(o) => run_lines(old(state)@, lines(input@), None, false)->Some_0.1 == Ok::<
                Option<i64>,
                Seq<char>,
            >(o),
            Err(m) => run_lines(old(state)@, lines(input@), None, false)->Some_0.1 == Err::<
                Option<i64>,
                Seq<char>,
            >(m@),
        },
{
    let ghost s = input@;
    let ghost whole = run_lines(state@, lines(s), None, false);
    let n = input.unicode_len();
    let mut i: usize = 0;
    let mut result: Option<i64> = None;
    let mut saw = false;
    while i < n
        invariant
            s == input@,
            n == s.len(),
            i <= n,
            whole is Some,
            whole == run_lines(old(state)@, lines(s), None, false),
            whole == run_lines(state@, lines_from(s, i as int), result, saw),
        decreases n - i,
    {
        let start = i;
        let mut j = i;
        proof {
            lemma_run_end(s, start as int, |c: char| c != '\n');
        }
        while j < n && input.get_char(j) != '\n'
            invariant
                s == input@,
                n == s.len(),
                start <= j <= line_end(s, start as int) <= n,
                forall|k: int| start <= k < line_end(s, start as int) ==> #[trigger] s[k] != '\n',
                line_end(s, start as int) < n ==> s[line_end(s, start as int)] == '\n',
            decreases n - j,
        {
            j = j + 1;
        }
        proof {
            if j < line_end(s, start as int) {
                assert(s[j as int] != '\n');
            }
            assert(j == line_end(s, start as int));
        }
        let mut end = j;
        if j < n && j > start && input.get_char(j - 1) == '\r' {
            end = j - 1;
        }
        let line = input.substring_char(start, end);
        proof {
            let whole_line = s.subrange(start as int, j as int);
            if j < n {
                if whole_line.len() > 0 && whole_line.last() == '\r' {
                    assert(whole_line.drop_last() =~= line@);
                } else {
                    assert(whole_line =~= line@);
                }
                assert(line@ == strip_cr(whole_line));
            } else {
                assert(whole_line =~= line@);
            }
            assert(lines_from(s, start as int)[0] == line@);
        }
        i = if j < n {
            j + 1
        } else {
            n
        };
        proof {
            assert(lines_from(s, start as int).drop_first() =~= lines_from(s, i as int));
        }
        if !blank(line) {
            saw = true;
            let statement = parse(line)?;
            let output = eval(state, &statement)?;
            result = match output {
                EvalOutput::Val(v) => Some(v),
                _ => None,
            };
        }
    }
    if saw {
        Ok(result)
    } else {
        Err("syntax error")
    }
}

} // verus!
