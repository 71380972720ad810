//! Tokenizer and recursive-descent parser.
use vstd::prelude::*;

use crate::parser::{Expr, SExpr, SStmt, Stmt};
use crate::zz_slop::text::{
    decimal_value, digit, digit_value, ident_continue, ident_start, is_blank, is_digit,
    is_ident_continue, is_ident_start, is_whitespace, lemma_decimal_value_grows, lemma_run_end,
    lemma_run_end_extend, lemma_run_end_shift, lemma_white_space_is_not_a_word, run_end,
    unicode_white_space,
};

verus! {

/// A lexical token.
#[derive(Debug)]
pub enum Token {
    Number(i64),
    Ident(String),
    Plus,
    Minus,
    Star,
    Slash,
    Equal,
    Pipe,
    Comma,
    LeftParen,
    RightParen,
}

/// The mathematical form of a [`Token`].
pub enum SToken {
    Number(i64),
    Ident(Seq<char>),
    Plus,
    Minus,
    Star,
    Slash,
    Equal,
    Pipe,
    Comma,
    LeftParen,
    RightParen,
}

impl View for Token {
    type V = SToken;

    open spec fn view(&self) -> SToken {
        match self {
            Token::Number(v) => SToken::Number(*v),
            Token::Ident(n) => SToken::Ident(n@),
            Token::Plus => SToken::Plus,
            Token::Minus => SToken::Minus,
            Token::Star => SToken::Star,
            Token::Slash => SToken::Slash,
            Token::Equal => SToken::Equal,
            Token::Pipe => SToken::Pipe,
            Token::Comma => SToken::Comma,
            Token::LeftParen => SToken::LeftParen,
            Token::RightParen => SToken::RightParen,
        }
    }
}

pub open spec fn tokens_view(v: Seq<Token>) -> Seq<SToken> {
    v.map_values(|t: Token| t@)
}

/// The message of every error that the tokenizer and the parser report.
pub open spec fn syntax_error() -> Seq<char> {
    "syntax error"@
}

/// The token that a one-character operator or delimiter stands for.
pub open spec fn punctuation(c: char) -> Option<SToken> {
    if c == '+' {
        Some(SToken::Plus)
    } else if c == '-' {
        Some(SToken::Minus)
    } else if c == '*' {
        Some(SToken::Star)
    } else if c == '/' {
        Some(SToken::Slash)
    } else if c == '=' {
        Some(SToken::Equal)
    } else if c == '|' {
        Some(SToken::Pipe)
    } else if c == ',' {
        Some(SToken::Comma)
    } else if c == '(' {
        Some(SToken::LeftParen)
    } else if c == ')' {
        Some(SToken::RightParen)
    } else {
        None
    }
}

pub open spec fn prepend(t: SToken, rest: Option<Seq<SToken>>) -> Option<Seq<SToken>> {
    match rest {
        Some(r) => Some(seq![t] + r),
        None => None,
    }
}

pub open spec fn digit_end(s: Seq<char>, i: int) -> int {
    run_end(s, i, |c: char| is_digit(c))
}

pub open spec fn ident_end(s: Seq<char>, i: int) -> int {
    run_end(s, i, |c: char| is_ident_continue(c))
}

/// The tokens of `s` from index `i` on, or `None` where `s` holds a character
/// that starts no token or a number too large for `i64`.
/// Whitespace separates tokens; a number is a maximal run of decimal digits;
/// an identifier is a letter or `_` followed by a maximal run of letters,
/// digits and `_`.
pub open spec fn lex_from(s: Seq<char>, i: int) -> Option<Seq<SToken>>
    decreases s.len() - i,
{
    if 0 <= i < s.len() {
        let c = s[i];
        if unicode_white_space(c) {
            lex_from(s, i + 1)
        } else if is_digit(c) {
            let j = digit_end(s, i + 1);
            proof {
                lemma_run_end(s, i + 1, |c: char| is_digit(c));
            }
            let v = decimal_value(s.subrange(i, j));
            if v <= i64::MAX {
                prepend(SToken::Number(v as i64), lex_from(s, j))
            } else {
                None
            }
        } else if is_ident_start(c) {
            let j = ident_end(s, i + 1);
            proof {
                lemma_run_end(s, i + 1, |c: char| is_ident_continue(c));
            }
            prepend(SToken::Ident(s.subrange(i, j)), lex_from(s, j))
        } else {
            match punctuation(c) {
                Some(t) => prepend(t, lex_from(s, i + 1)),
                None => None,
            }
        }
    } else {
        Some(Seq::empty())
    }
}

/// The tokens of `s`.
pub open spec fn lex(s: Seq<char>) -> Option<Seq<SToken>> {
    lex_from(s, 0)
}

/// Lexing skips a stretch of whitespace.
proof fn lemma_lex_skip(u: Seq<char>, i: int, k: int)
    requires
        0 <= i <= k <= u.len(),
        forall|x: int| i <= x < k ==> unicode_white_space(#[trigger] u[x]),
    ensures
        lex_from(u, i) == lex_from(u, k),
    decreases k - i,
{
    if i < k {
        lemma_lex_skip(u, i + 1, k);
    }
}

/// Lexing a suffix of `p + t` that lies in `t` is lexing `t` there.
proof fn lemma_lex_shift(p: Seq<char>, t: Seq<char>, j: int)
    requires
        0 <= j <= t.len(),
    ensures
        lex_from(p + t, p.len() + j) == lex_from(t, j),
    decreases t.len() - j,
{
    let u = p + t;
    let i = p.len() + j;
    if j < t.len() {
        assert(u[i] == t[j]);
        let c = t[j];
        if unicode_white_space(c) {
            lemma_lex_shift(p, t, j + 1);
        } else if is_digit(c) {
            lemma_run_end_shift(p, t, j + 1, |c: char| is_digit(c));
            lemma_run_end(t, j + 1, |c: char| is_digit(c));
            let e = digit_end(t, j + 1);
            assert(u.subrange(i, p.len() + e) =~= t.subrange(j, e));
            lemma_lex_shift(p, t, e);
        } else if is_ident_start(c) {
            lemma_run_end_shift(p, t, j + 1, |c: char| is_ident_continue(c));
            lemma_run_end(t, j + 1, |c: char| is_ident_continue(c));
            let e = ident_end(t, j + 1);
            assert(u.subrange(i, p.len() + e) =~= t.subrange(j, e));
            lemma_lex_shift(p, t, e);
        } else {
            lemma_lex_shift(p, t, j + 1);
        }
    }
}

/// Lexing `t` followed by whitespace is lexing `t`.
proof fn lemma_lex_trailing(t: Seq<char>, q: Seq<char>, j: int)
    requires
        0 <= j <= t.len(),
        is_blank(q),
    ensures
        lex_from(t + q, j) == lex_from(t, j),
    decreases t.len() - j,
{
    let u = t + q;
    if q.len() > 0 {
        lemma_white_space_is_not_a_word(q[0]);
    }
    if j < t.len() {
        assert(u[j] == t[j]);
        let c = t[j];
        if unicode_white_space(c) {
            lemma_lex_trailing(t, q, j + 1);
        } else if is_digit(c) {
            lemma_run_end_extend(t, q, j + 1, |c: char| is_digit(c));
            lemma_run_end(t, j + 1, |c: char| is_digit(c));
            let e = digit_end(t, j + 1);
            assert(u.subrange(j, e) =~= t.subrange(j, e));
            lemma_lex_trailing(t, q, e);
        } else if is_ident_start(c) {
            lemma_run_end_extend(t, q, j + 1, |c: char| is_ident_continue(c));
            lemma_run_end(t, j + 1, |c: char| is_ident_continue(c));
            let e = ident_end(t, j + 1);
            assert(u.subrange(j, e) =~= t.subrange(j, e));
            lemma_lex_trailing(t, q, e);
        } else {
            lemma_lex_trailing(t, q, j + 1);
        }
    } else {
        assert forall|x: int| j <= x < u.len() implies unicode_white_space(#[trigger] u[x]) by {
            assert(u[x] == q[x - t.len()]);
        }
        lemma_lex_skip(u, j, u.len() as int);
    }
}

/// Whitespace before and after a text does not change its tokens.
pub proof fn law_surrounding_whitespace_lexes_away(p: Seq<char>, s: Seq<char>, q: Seq<char>)
    requires
        is_blank(p),
        is_blank(q),
    ensures
        lex(p + s + q) == lex(s),
{
    let u = p + (s + q);
    assert(p + s + q =~= u);
    assert forall|x: int| 0 <= x < p.len() implies unicode_white_space(#[trigger] u[x]) by {
        assert(u[x] == p[x]);
    }
    lemma_lex_skip(u, 0, p.len() as int);
    lemma_lex_shift(p, s + q, 0);
    lemma_lex_trailing(s, q, 0);
}

/// `done` followed by what remains to be lexed.
pub open spec fn glue(done: Seq<SToken>, rest: Option<Seq<SToken>>) -> Option<Seq<SToken>> {
    match rest {
        Some(r) => Some(done + r),
        None => None,
    }
}

proof fn lemma_glue_push(done: Seq<SToken>, t: SToken, rest: Option<Seq<SToken>>)
    ensures
        glue(done, prepend(t, rest)) == glue(done.push(t), rest),
{
    if let Some(r) = rest {
        assert(done + (seq![t] + r) =~= done.push(t) + r);
    }
}

fn punctuation_token(c: char) -> (r: Option<Token>)
    ensures
        match r {
            Some(t) => punctuation(c) == Some(t@),
            None => punctuation(c) is None,
        },
{
    if c == '+' {
        Some(Token::Plus)
    } else if c == '-' {
        Some(Token::Minus)
    } else if c == '*' {
        Some(Token::Star)
    } else if c == '/' {
        Some(Token::Slash)
    } else if c == '=' {
        Some(Token::Equal)
    } else if c == '|' {
        Some(Token::Pipe)
    } else if c == ',' {
        Some(Token::Comma)
    } else if c == '(' {
        Some(Token::LeftParen)
    } else if c == ')' {
        Some(Token::RightParen)
    } else {
        None
    }
}

fn push_token(tokens: &mut Vec<Token>, t: Token)
    ensures
        final(tokens)@ == old(tokens)@.push(t),
        tokens_view(final(tokens)@) == tokens_view(old(tokens)@).push(t@),
{
    tokens.push(t);
    proof {
        assert(tokens_view(tokens@) =~= tokens_view(old(tokens)@).push(t@));
    }
}

fn digit_value_of(c: char) -> (d: i64)
    requires
        is_digit(c),
    ensures
        d as int == digit_value(c),
        0 <= d <= 9,
{
    (c as u32 - '0' as u32) as i64
}

/// Splits `input` into tokens.
pub fn tokenize(input: &str) -> (r: Result<Vec<Token>, &'static str>)
    ensures
        match r {
            Ok(tokens) => lex(input@) == Some(tokens_view(tokens@)),
            Err(e) => lex(input@) is None && e@ == syntax_error(),
        },
{
    let n = input.unicode_len();
    let ghost s = input@;
    let mut tokens: Vec<Token> = Vec::new();
    let mut i: usize = 0;
    proof {
        assert(tokens_view(tokens@) =~= Seq::<SToken>::empty());
        assert(glue(Seq::empty(), lex_from(s, 0)) == lex_from(s, 0)) by {
            if let Some(r) = lex_from(s, 0) {
                assert(Seq::<SToken>::empty() + r =~= r);
            }
        }
    }
    while i < n
        invariant
            n == s.len(),
            s == input@,
            i <= n,
            lex(s) == glue(tokens_view(tokens@), lex_from(s, i as int)),
        decreases n - i,
    {
        let c = input.get_char(i);
        let start = i;
        if is_whitespace(c) {
            i = i + 1;
        } else if digit(c) {
            let ghost j = digit_end(s, start + 1);
            proof {
                lemma_run_end(s, start + 1, |c: char| is_digit(c));
                let one = s.subrange(start as int, start + 1);
                assert(one.drop_last() =~= Seq::<char>::empty());
                assert(one.last() == s[start as int]);
                assert(decimal_value(one.drop_last()) == 0);
            }
            let mut value: i64 = digit_value_of(c);
            i = i + 1;
            while i < n && digit(input.get_char(i))
                invariant
                    n == s.len(),
                    s == input@,
                    start < i <= j <= n,
                    is_digit(s[start as int]),
                    !unicode_white_space(s[start as int]),
                    lex(s) == glue(tokens_view(tokens@), lex_from(s, start as int)),
                    forall|k: int| start + 1 <= k < j ==> is_digit(#[trigger] s[k]),
                    j < n ==> !is_digit(s[j]),
                    j == digit_end(s, start + 1),
                    value as int == decimal_value(s.subrange(start as int, i as int)),
                    0 <= value,
                decreases n - i,
            {
                let c2 = input.get_char(i);
                let d = digit_value_of(c2);
                let next: i128 = value as i128 * 10 + d as i128;
                proof {
                    let sub = s.subrange(start as int, i + 1);
                    assert(sub.drop_last() =~= s.subrange(start as int, i as int));
                    assert(sub.last() == c2);
                    assert(next == decimal_value(sub));
                }
                if next > i64::MAX as i128 {
                    proof {
                        assert(i < j) by {
                            if i == j {
                                assert(!is_digit(s[j]));
                            }
                        }
                        let all = s.subrange(start as int, j);
                        assert forall|k: int| 0 <= k < all.len() implies is_digit(#[trigger] all[k]) by {
                            assert(all[k] == s[start + k]);
                        }
                        lemma_decimal_value_grows(all, i + 1 - start);
                        assert(all.take(i + 1 - start) =~= s.subrange(start as int, i + 1));
                        assert(!unicode_white_space(s[start as int]));
                        assert(lex_from(s, start as int) is None);
                    }
                    return Err("syntax error");
                }
                value = next as i64;
                i = i + 1;
            }
            proof {
                if i < j {
                    assert(is_digit(s[i as int]));
                }
                assert(i == j);
                lemma_glue_push(tokens_view(tokens@), SToken::Number(value), lex_from(s, i as int));
            }
            push_token(&mut tokens, Token::Number(value));
        } else if ident_start(c) {
            let ghost j = ident_end(s, start + 1);
            proof {
                lemma_run_end(s, start + 1, |c: char| is_ident_continue(c));
            }
            i = i + 1;
            while i < n && ident_continue(input.get_char(i))
                invariant
                    n == s.len(),
                    s == input@,
                    start < i <= j <= n,
                    forall|k: int| start + 1 <= k < j ==> is_ident_continue(#[trigger] s[k]),
                    j < n ==> !is_ident_continue(s[j]),
                    j == ident_end(s, start + 1),
                decreases n - i,
            {
                i = i + 1;
            }
            proof {
                if i < j {
                    assert(is_ident_continue(s[i as int]));
                }
                assert(i == j);
            }
            let name = input.substring_char(start, i).to_owned();
            proof {
                lemma_glue_push(tokens_view(tokens@), SToken::Ident(name@), lex_from(s, i as int));
            }
            push_token(&mut tokens, Token::Ident(name));
        } else {
            match punctuation_token(c) {
                Some(t) => {
                    i = i + 1;
                    proof {
                        lemma_glue_push(tokens_view(tokens@), t@, lex_from(s, i as int));
                    }
                    push_token(&mut tokens, t);
                },
                None => {
                    return Err("syntax error");
                },
            }
        }
    }
    proof {
        assert(lex_from(s, i as int) == Some(Seq::<SToken>::empty()));
        assert(tokens_view(tokens@) + Seq::<SToken>::empty() =~= tokens_view(tokens@));
    }
    Ok(tokens)
}

pub open spec fn lam_over(name: Seq<char>, body: Option<(SExpr, int)>) -> Option<(SExpr, int)> {
    match body {
        Some((b, q)) => Some((SExpr::Lam(name, Box::new(b)), q)),
        None => None,
    }
}

/// `primary := number | identifier | '(' expression ')'`
pub open spec fn parse_primary(t: Seq<SToken>, pos: int) -> Option<(SExpr, int)>
    decreases t.len() - pos, 0int,
{
    if 0 <= pos < t.len() {
        match t[pos] {
            SToken::Number(v) => Some((SExpr::Num(v), pos + 1)),
            SToken::Ident(n) => Some((SExpr::Var(n), pos + 1)),
            SToken::LeftParen => match parse_expression(t, pos + 1) {
                Some((e, p)) => if pos < p < t.len() && t[p] == SToken::RightParen {
                    Some((e, p + 1))
                } else {
                    None
                },
                None => None,
            },
            _ => None,
        }
    } else {
        None
    }
}

/// The calls `'(' expression ')'` that follow the function `f`, from `p` on.
pub open spec fn parse_app_rest(t: Seq<SToken>, p: int, f: SExpr) -> Option<(SExpr, int)>
    decreases t.len() - p, 0int,
{
    if 0 <= p < t.len() && t[p] == SToken::LeftParen {
        match parse_expression(t, p + 1) {
            Some((a, q)) => if p < q < t.len() && t[q] == SToken::RightParen {
                parse_app_rest(t, q + 1, SExpr::App(Box::new(f), Box::new(a)))
            } else {
                None
            },
            None => None,
        }
    } else {
        Some((f, p))
    }
}

/// `application := primary ('(' expression ')')*`
pub open spec fn parse_application(t: Seq<SToken>, pos: int) -> Option<(SExpr, int)>
    decreases t.len() - pos, 1int,
{
    match parse_primary(t, pos) {
        Some((e, p)) => if pos < p <= t.len() {
            parse_app_rest(t, p, e)
        } else {
            None
        },
        None => None,
    }
}

/// The factors `('*' | '/') application` that follow `l`, from `p` on, left-associated.
pub open spec fn parse_term_rest(t: Seq<SToken>, p: int, l: SExpr) -> Option<(SExpr, int)>
    decreases t.len() - p, 0int,
{
    if 0 <= p < t.len() && (t[p] == SToken::Star || t[p] == SToken::Slash) {
        match parse_application(t, p + 1) {
            Some((r, q)) => if p < q <= t.len() {
                parse_term_rest(
                    t,
                    q,
                    if t[p] == SToken::Star {
                        SExpr::Mul(Box::new(l), Box::new(r))
                    } else {
                        SExpr::Div(Box::new(l), Box::new(r))
                    },
                )
            } else {
                None
            },
            None => None,
        }
    } else {
        Some((l, p))
    }
}

/// `term := application (('*' | '/') application)*`
pub open spec fn parse_term(t: Seq<SToken>, pos: int) -> Option<(SExpr, int)>
    decreases t.len() - pos, 2int,
{
    match parse_application(t, pos) {
        Some((l, p)) => if pos < p <= t.len() {
            parse_term_rest(t, p, l)
        } else {
            None
        },
        None => None,
    }
}

/// The summands `('+' | '-') term` that follow `l`, from `p` on, left-associated.
pub open spec fn parse_expr_rest(t: Seq<SToken>, p: int, l: SExpr) -> Option<(SExpr, int)>
    decreases t.len() - p, 0int,
{
    if 0 <= p < t.len() && (t[p] == SToken::Plus || t[p] == SToken::Minus) {
        match parse_term(t, p + 1) {
            Some((r, q)) => if p < q <= t.len() {
                parse_expr_rest(
                    t,
                    q,
                    if t[p] == SToken::Plus {
                        SExpr::Add(Box::new(l), Box::new(r))
                    } else {
                        SExpr::Sub(Box::new(l), Box::new(r))
                    },
                )
            } else {
                None
            },
            None => None,
        }
    } else {
        Some((l, p))
    }
}

/// The parameters and body of a lambda, from just after its opening `|`:
/// `identifier (',' identifier)* '|' expression`, each parameter binding
/// a nested `Lam`, the first outermost.
pub open spec fn parse_lambda_params(t: Seq<SToken>, pos: int) -> Option<(SExpr, int)>
    decreases t.len() - pos, 0int,
{
    if 0 <= pos && pos + 1 < t.len() {
        match t[pos] {
            SToken::Ident(n) => if t[pos + 1] == SToken::Comma {
                lam_over(n, parse_lambda_params(t, pos + 2))
            } else if t[pos + 1] == SToken::Pipe {
                lam_over(n, parse_expression(t, pos + 2))
            } else {
                None
            },
            _ => None,
        }
    } else {
        None
    }
}

/// `expression := '|' parameters '|' expression | term (('+' | '-') term)*`
pub open spec fn parse_expression(t: Seq<SToken>, pos: int) -> Option<(SExpr, int)>
    decreases t.len() - pos, 3int,
{
    if 0 <= pos < t.len() && t[pos] == SToken::Pipe {
        parse_lambda_params(t, pos + 1)
    } else {
        match parse_term(t, pos) {
            Some((l, p)) => if pos < p <= t.len() {
                parse_expr_rest(t, p, l)
            } else {
                None
            },
            None => None,
        }
    }
}

/// `statement := identifier '=' expression | expression`, from the first token,
/// with the position where it ends.
pub open spec fn parse_statement(t: Seq<SToken>) -> Option<(SStmt, int)> {
    if t.len() >= 2 && t[0] is Ident && t[1] == SToken::Equal {
        match parse_expression(t, 2) {
            Some((e, p)) => Some((SStmt::Let(t[0]->Ident_0, e), p)),
            None => None,
        }
    } else {
        match parse_expression(t, 0) {
            Some((e, p)) => Some((SStmt::Eval(e), p)),
            None => None,
        }
    }
}

/// The statement that the tokens `t` form, all of them.
pub open spec fn parse_tokens(t: Seq<SToken>) -> Option<SStmt> {
    if t.len() == 0 {
        None
    } else {
        match parse_statement(t) {
            Some((st, p)) => if p == t.len() {
                Some(st)
            } else {
                None
            },
            None => None,
        }
    }
}

/// The statement that the text `s` holds, or `None` where it holds none.
pub open spec fn parse_spec(s: Seq<char>) -> Option<SStmt> {
    match lex(s) {
        Some(t) => parse_tokens(t),
        None => None,
    }
}

pub open spec fn names_view(v: Seq<String>) -> Seq<Seq<char>> {
    v.map_values(|n: String| n@)
}

/// `body` under one `Lam` per name, the first name outermost.
pub open spec fn fold_lams(names: Seq<Seq<char>>, body: SExpr) -> SExpr
    decreases names.len(),
{
    if names.len() == 0 {
        body
    } else {
        SExpr::Lam(names[0], Box::new(fold_lams(names.drop_first(), body)))
    }
}

pub open spec fn lams_over(names: Seq<Seq<char>>, r: Option<(SExpr, int)>) -> Option<(SExpr, int)> {
    match r {
        Some((b, q)) => Some((fold_lams(names, b), q)),
        None => None,
    }
}

proof fn lemma_fold_lams_push(names: Seq<Seq<char>>, n: Seq<char>, b: SExpr)
    ensures
        fold_lams(names.push(n), b) == fold_lams(names, SExpr::Lam(n, Box::new(b))),
    decreases names.len(),
{
    let pushed = names.push(n);
    if names.len() == 0 {
        assert(pushed.drop_first() =~= Seq::<Seq<char>>::empty());
        assert(pushed[0] == n);
        assert(fold_lams(pushed.drop_first(), b) == b);
    } else {
        lemma_fold_lams_push(names.drop_first(), n, b);
        assert(pushed.drop_first() =~= names.drop_first().push(n));
        assert(pushed[0] == names[0]);
        assert(fold_lams(pushed, b) == SExpr::Lam(
            names[0],
            Box::new(fold_lams(names.drop_first().push(n), b)),
        ));
    }
}

proof fn lemma_lams_over_push(names: Seq<Seq<char>>, n: Seq<char>, r: Option<(SExpr, int)>)
    ensures
        lams_over(names, lam_over(n, r)) == lams_over(names.push(n), r),
{
    if let Some((b, q)) = r {
        lemma_fold_lams_push(names, n, b);
    }
}

proof fn lemma_lams_over_empty(r: Option<(SExpr, int)>)
    ensures
        lams_over(Seq::empty(), r) == r,
{
}

fn push_name(names: &mut Vec<String>, n: String)
    ensures
        names_view(final(names)@) == names_view(old(names)@).push(n@),
{
    names.push(n);
    proof {
        assert(names_view(names@) =~= names_view(old(names)@).push(n@));
    }
}


struct Parser {
    tokens: Vec<Token>,
    position: usize,
}

impl Parser {
    spec fn toks(&self) -> Seq<SToken> {
        tokens_view(self.tokens@)
    }

    fn peek(&self) -> (r: Option<&Token>)
        ensures
            r is None <==> self.position >= self.tokens.len(),
            r matches Some(t) ==> self.position < self.tokens.len() && *t == self.tokens@[self.position as int],
    {
        if self.position < self.tokens.len() {
            Some(&self.tokens[self.position])
        } else {
            None
        }
    }

    fn statement(&mut self) -> (r: Result<Stmt, &'static str>)
        requires
            old(self).position == 0,
        ensures
            final(self).tokens@ == old(self).tokens@,
            match r {
                Ok(st) => parse_statement(old(self).toks()) == Some((st@, final(self).position as int))
                    && final(self).position <= final(self).tokens.len(),
                Err(e) => parse_statement(old(self).toks()) is None && e@ == syntax_error(),
            },
    {
        if self.tokens.len() >= 2 {
            match (&self.tokens[0], &self.tokens[1]) {
                (Token::Ident(name), Token::Equal) => {
                    let name = name.clone();
                    self.position = 2;
                    let expression = self.expression()?;
                    return Ok(Stmt::Let(name, expression));
                },
                _ => {},
            }
        }
        let expression = self.expression()?;
        Ok(Stmt::Eval(expression))
    }

    fn expression(&mut self) -> (r: Result<Expr, &'static str>)
        requires
            old(self).position <= old(self).tokens.len(),
        ensures
            final(self).tokens@ == old(self).tokens@,
            match r {
                Ok(e) => parse_expression(old(self).toks(), old(self).position as int) == Some(
                    (e@, final(self).position as int),
                ) && old(self).position < final(self).position <= final(self).tokens.len(),
                Err(m) => parse_expression(old(self).toks(), old(self).position as int) is None
                    && m@ == syntax_error(),
            },
        decreases old(self).tokens.len() - old(self).position, 3int,
    {
        let ghost orig = self.tokens@;
        let ghost t = self.toks();
        let ghost p0 = self.position as int;
        match self.peek() {
            Some(Token::Pipe) => {
                return self.lambda();
            },
            _ => {},
        }
        let mut left = self.term()?;
        loop
            invariant
                self.tokens@ == orig,
                orig == old(self).tokens@,
                t == tokens_view(orig),
                p0 == old(self).position,
                p0 < self.position <= self.tokens.len(),
                parse_expression(t, p0) == parse_expr_rest(t, self.position as int, left@),
            decreases self.tokens.len() - self.position,
        {
            left = match self.peek() {
                Some(Token::Plus) => {
                    self.position = self.position + 1;
                    let right = self.term()?;
                    Expr::Add(Box::new(left), Box::new(right))
                },
                Some(Token::Minus) => {
                    self.position = self.position + 1;
                    let right = self.term()?;
                    Expr::Sub(Box::new(left), Box::new(right))
                },
                _ => return Ok(left),
            };
        }
    }

    fn term(&mut self) -> (r: Result<Expr, &'static str>)
        requires
            old(self).position <= old(self).tokens.len(),
        ensures
            final(self).tokens@ == old(self).tokens@,
            match r {
                Ok(e) => parse_term(old(self).toks(), old(self).position as int) == Some(
                    (e@, final(self).position as int),
                ) && old(self).position < final(self).position <= final(self).tokens.len(),
                Err(m) => parse_term(old(self).toks(), old(self).position as int) is None
                    && m@ == syntax_error(),
            },
        decreases old(self).tokens.len() - old(self).position, 2int,
    {
        let ghost orig = self.tokens@;
        let ghost t = self.toks();
        let ghost p0 = self.position as int;
        let mut left = self.application()?;
        loop
            invariant
                self.tokens@ == orig,
                orig == old(self).tokens@,
                t == tokens_view(orig),
                p0 == old(self).position,
                p0 < self.position <= self.tokens.len(),
                parse_term(t, p0) == parse_term_rest(t, self.position as int, left@),
            decreases self.tokens.len() - self.position,
        {
            left = match self.peek() {
                Some(Token::Star) => {
                    self.position = self.position + 1;
                    let right = self.application()?;
                    Expr::Mul(Box::new(left), Box::new(right))
                },
                Some(Token::Slash) => {
                    self.position = self.position + 1;
                    let right = self.application()?;
                    Expr::Div(Box::new(left), Box::new(right))
                },
                _ => return Ok(left),
            };
        }
    }

    fn lambda(&mut self) -> (r: Result<Expr, &'static str>)
        requires
            old(self).position < old(self).tokens.len(),
            old(self).toks()[old(self).position as int] == SToken::Pipe,
        ensures
            final(self).tokens@ == old(self).tokens@,
            match r {
                Ok(e) => parse_expression(old(self).toks(), old(self).position as int) == Some(
                    (e@, final(self).position as int),
                ) && old(self).position < final(self).position <= final(self).tokens.len(),
                Err(m) => parse_expression(old(self).toks(), old(self).position as int) is None
                    && m@ == syntax_error(),
            },
        decreases old(self).tokens.len() - old(self).position, 2int,
    {
        let ghost orig = self.tokens@;
        let ghost t = self.toks();
        let ghost p0 = self.position as int;
        self.position = self.position + 1;
        let mut parameters: Vec<String> = Vec::new();
        proof {
            assert(names_view(parameters@) =~= Seq::<Seq<char>>::empty());
            lemma_lams_over_empty(parse_lambda_params(t, self.position as int));
        }
        loop
            invariant_except_break
                self.tokens@ == orig,
                orig == old(self).tokens@,
                t == tokens_view(orig),
                p0 == old(self).position,
                p0 < self.position <= self.tokens.len(),
                parse_expression(t, p0) == lams_over(
                    names_view(parameters@),
                    parse_lambda_params(t, self.position as int),
                ),
            ensures
                self.tokens@ == orig,
                orig == old(self).tokens@,
                t == tokens_view(orig),
                p0 == old(self).position,
                p0 < self.position <= self.tokens.len(),
                parse_expression(t, p0) == lams_over(
                    names_view(parameters@),
                    parse_expression(t, self.position as int),
                ),
            decreases self.tokens.len() - self.position,
        {
            let ghost pos = self.position as int;
            if self.position >= self.tokens.len() {
                return Err("syntax error");
            }
            let name = match &self.tokens[self.position] {
                Token::Ident(name) => name.clone(),
                _ => {
                    return Err("syntax error");
                },
            };
            self.position = self.position + 1;
            match self.peek() {
                Some(Token::Comma) => {
                    self.position = self.position + 1;
                    proof {
                        lemma_lams_over_push(names_view(parameters@), name@, parse_lambda_params(t, pos + 2));
                    }
                    push_name(&mut parameters, name);
                },
                Some(Token::Pipe) => {
                    self.position = self.position + 1;
                    proof {
                        lemma_lams_over_push(names_view(parameters@), name@, parse_expression(t, pos + 2));
                    }
                    push_name(&mut parameters, name);
                    break ;
                },
                _ => {
                    return Err("syntax error");
                },
            }
        }
        let ghost all = names_view(parameters@);
        let mut body = self.expression()?;
        let ghost b0 = body@;
        while parameters.len() > 0
            invariant
                fold_lams(all, b0) == fold_lams(names_view(parameters@), body@),
            decreases parameters.len(),
        {
            let ghost before = parameters@;
            let parameter = parameters.pop().unwrap();
            proof {
                assert(before =~= parameters@.push(parameter));
                assert(names_view(before) =~= names_view(parameters@).push(parameter@));
                lemma_fold_lams_push(names_view(parameters@), parameter@, body@);
            }
            body = Expr::Lam(parameter, Box::new(body));
        }
        proof {
            assert(names_view(parameters@) =~= Seq::<Seq<char>>::empty());
        }
        Ok(body)
    }

    fn application(&mut self) -> (r: Result<Expr, &'static str>)
        requires
            old(self).position <= old(self).tokens.len(),
        ensures
            final(self).tokens@ == old(self).tokens@,
            match r {
                Ok(e) => parse_application(old(self).toks(), old(self).position as int) == Some(
                    (e@, final(self).position as int),
                ) && old(self).position < final(self).position <= final(self).tokens.len(),
                Err(m) => parse_application(old(self).toks(), old(self).position as int) is None
                    && m@ == syntax_error(),
            },
        decreases old(self).tokens.len() - old(self).position, 1int,
    {
        let ghost orig = self.tokens@;
        let ghost t = self.toks();
        let ghost p0 = self.position as int;
        let mut expression = self.primary()?;
        loop
            invariant
                self.tokens@ == orig,
                orig == old(self).tokens@,
                t == tokens_view(orig),
                p0 == old(self).position,
                p0 < self.position <= self.tokens.len(),
                parse_application(t, p0) == parse_app_rest(t, self.position as int, expression@),
            decreases self.tokens.len() - self.position,
        {
            match self.peek() {
                Some(Token::LeftParen) => {},
                _ => {
                    return Ok(expression);
                },
            }
            self.position = self.position + 1;
            let argument = self.expression()?;
            match self.peek() {
                Some(Token::RightParen) => {},
                _ => {
                    return Err("syntax error");
                },
            }
            self.position = self.position + 1;
            expression = Expr::App(Box::new(expression), Box::new(argument));
        }
    }

    fn primary(&mut self) -> (r: Result<Expr, &'static str>)
        requires
            old(self).position <= old(self).tokens.len(),
        ensures
            final(self).tokens@ == old(self).tokens@,
            match r {
                Ok(e) => parse_primary(old(self).toks(), old(self).position as int) == Some(
                    (e@, final(self).position as int),
                ) && old(self).position < final(self).position <= final(self).tokens.len(),
                Err(m) => parse_primary(old(self).toks(), old(self).position as int) is None
                    && m@ == syntax_error(),
            },
        decreases old(self).tokens.len() - old(self).position, 0int,
    {
        let pos = self.position;
        if pos >= self.tokens.len() {
            return Err("syntax error");
        }
        self.position = pos + 1;
        match &self.tokens[pos] {
            Token::Number(value) => Ok(Expr::Num(*value)),
            Token::Ident(name) => Ok(Expr::Var(name.clone())),
            Token::LeftParen => {
                let expression = self.expression()?;
                match self.peek() {
                    Some(Token::RightParen) => {},
                    _ => {
                        return Err("syntax error");
                    },
                }
                self.position = self.position + 1;
                Ok(expression)
            },
            _ => Err("syntax error"),
        }
    }
}

/// Parses one statement from `input`.
pub fn parse(input: &str) -> (r: Result<Stmt, &'static str>)
    ensures
        match r {
            Ok(st) => parse_spec(input@) == Some(st@),
            Err(e) => parse_spec(input@) is None && e@ == syntax_error(),
        },
{
    let tokens = tokenize(input)?;
    if tokens.len() == 0 {
        return Err("syntax error");
    }
    let mut parser = Parser { tokens, position: 0 };
    let statement = parser.statement()?;
    if parser.position != parser.tokens.len() {
        return Err("syntax error");
    }
    Ok(statement)
}

/// Whitespace before and after a statement does not change how it parses.
pub proof fn law_surrounding_whitespace(p: Seq<char>, s: Seq<char>, q: Seq<char>)
    requires
        is_blank(p),
        is_blank(q),
    ensures
        parse_spec(p + s + q) == parse_spec(s),
{
    law_surrounding_whitespace_lexes_away(p, s, q);
}


/// The tokens of two texts one after the other, where both lex.
pub open spec fn concat_tokens(a: Option<Seq<SToken>>, b: Option<Seq<SToken>>) -> Option<
    Seq<SToken>,
> {
    match (a, b) {
        (Some(x), Some(y)) => Some(x + y),
        _ => None,
    }
}

proof fn lemma_concat_prepend(t: SToken, a: Option<Seq<SToken>>, b: Option<Seq<SToken>>)
    ensures
        concat_tokens(prepend(t, a), b) == prepend(t, concat_tokens(a, b)),
{
    if let (Some(x), Some(y)) = (a, b) {
        assert(seq![t] + x + y =~= seq![t] + (x + y));
    }
}

/// Lexing `a` followed by a text that starts with whitespace lexes each apart.
proof fn lemma_lex_split(a: Seq<char>, t: Seq<char>, j: int)
    requires
        0 <= j <= a.len(),
        t.len() > 0 ==> unicode_white_space(t[0]),
    ensures
        lex_from(a + t, j) == concat_tokens(lex_from(a, j), lex(t)),
    decreases a.len() - j,
{
    let u = a + t;
    if t.len() > 0 {
        lemma_white_space_is_not_a_word(t[0]);
    }
    if j < a.len() {
        assert(u[j] == a[j]);
        let c = a[j];
        if unicode_white_space(c) {
            lemma_lex_split(a, t, j + 1);
        } else if is_digit(c) {
            lemma_run_end_extend(a, t, j + 1, |c: char| is_digit(c));
            lemma_run_end(a, j + 1, |c: char| is_digit(c));
            let e = digit_end(a, j + 1);
            assert(u.subrange(j, e) =~= a.subrange(j, e));
            lemma_lex_split(a, t, e);
            lemma_concat_prepend(SToken::Number(decimal_value(a.subrange(j, e)) as i64), lex_from(a, e), lex(t));
        } else if is_ident_start(c) {
            lemma_run_end_extend(a, t, j + 1, |c: char| is_ident_continue(c));
            lemma_run_end(a, j + 1, |c: char| is_ident_continue(c));
            let e = ident_end(a, j + 1);
            assert(u.subrange(j, e) =~= a.subrange(j, e));
            lemma_lex_split(a, t, e);
            lemma_concat_prepend(SToken::Ident(a.subrange(j, e)), lex_from(a, e), lex(t));
        } else {
            lemma_lex_split(a, t, j + 1);
            if let Some(k) = punctuation(c) {
                lemma_concat_prepend(k, lex_from(a, j + 1), lex(t));
            }
        }
    } else {
        lemma_lex_shift(a, t, 0);
        if let Some(y) = lex(t) {
            assert(Seq::<SToken>::empty() + y =~= y);
        }
    }
}

/// Whitespace put between two texts whose tokens do not run together (the
/// tokens of the whole are those of the first text, then those of the
/// second) changes neither the tokens nor how the statement parses.
pub proof fn law_whitespace_between_tokens(a: Seq<char>, w: Seq<char>, b: Seq<char>)
    requires
        is_blank(w),
        lex(a + b) == concat_tokens(lex(a), lex(b)),
    ensures
        lex(a + w + b) == lex(a + b),
        parse_spec(a + w + b) == parse_spec(a + b),
{
    if w.len() == 0 {
        assert(a + w + b =~= a + b);
    } else {
        assert(a + w + b =~= a + (w + b));
        lemma_lex_split(a, w + b, 0);
        assert(w + b + Seq::<char>::empty() =~= w + b);
        assert(Seq::<char>::empty() + b + Seq::<char>::empty() =~= b);
        law_surrounding_whitespace_lexes_away(w, b, Seq::<char>::empty());
        law_surrounding_whitespace_lexes_away(Seq::<char>::empty(), b, Seq::<char>::empty());
    }
}

/// A name: a letter or `_`, then letters, digits and `_`.
pub open spec fn is_identifier(n: Seq<char>) -> bool {
    &&& n.len() > 0
    &&& is_ident_start(n[0])
    &&& forall|k: int| 1 <= k < n.len() ==> is_ident_continue(#[trigger] n[k])
}

/// A name alone lexes as that one identifier and parses as the expression
/// that reads it.
pub proof fn lemma_identifier_parses(n: Seq<char>)
    requires
        is_identifier(n),
    ensures
        lex(n) == Some(seq![SToken::Ident(n)]),
        parse_spec(n) == Some(SStmt::Eval(SExpr::Var(n))),
{
    let c = n[0];
    assert(!unicode_white_space(c));
    assert(!is_digit(c));
    lemma_run_end(n, 1, |c: char| is_ident_continue(c));
    let j = ident_end(n, 1);
    if j < n.len() {
        assert(is_ident_continue(n[j]));
    }
    assert(j == n.len());
    assert(n.subrange(0, j) =~= n);
    assert(seq![SToken::Ident(n)] + Seq::<SToken>::empty() =~= seq![SToken::Ident(n)]);
    assert(lex_from(n, n.len() as int) == Some(Seq::<SToken>::empty()));
    assert(is_ident_start(c));
    assert(lex_from(n, 0) == prepend(SToken::Ident(n.subrange(0, j)), lex_from(n, j)));
    assert(lex(n) == Some(seq![SToken::Ident(n)]));
    let t = seq![SToken::Ident(n)];
    assert(parse_primary(t, 0) == Some((SExpr::Var(n), 1int)));
    assert(parse_app_rest(t, 1, SExpr::Var(n)) == Some((SExpr::Var(n), 1int)));
    assert(parse_application(t, 0) == Some((SExpr::Var(n), 1int)));
    assert(parse_term_rest(t, 1, SExpr::Var(n)) == Some((SExpr::Var(n), 1int)));
    assert(parse_term(t, 0) == Some((SExpr::Var(n), 1int)));
    assert(parse_expr_rest(t, 1, SExpr::Var(n)) == Some((SExpr::Var(n), 1int)));
    assert(parse_expression(t, 0) == Some((SExpr::Var(n), 1int)));
}

/// The character of a decimal digit `d`.
pub open spec fn digit_char(d: int) -> char {
    if d == 0 {
        '0'
    } else if d == 1 {
        '1'
    } else if d == 2 {
        '2'
    } else if d == 3 {
        '3'
    } else if d == 4 {
        '4'
    } else if d == 5 {
        '5'
    } else if d == 6 {
        '6'
    } else if d == 7 {
        '7'
    } else if d == 8 {
        '8'
    } else {
        '9'
    }
}

/// The decimal numeral of `n`, without leading zeros.
pub open spec fn decimal(n: nat) -> Seq<char>
    decreases n,
{
    if n < 10 {
        seq![digit_char(n as int)]
    } else {
        decimal(n / 10).push(digit_char((n % 10) as int))
    }
}

proof fn lemma_digit_char(d: int)
    requires
        0 <= d < 10,
    ensures
        is_digit(digit_char(d)),
        digit_value(digit_char(d)) == d,
{
}

proof fn lemma_decimal(n: nat)
    ensures
        decimal(n).len() > 0,
        forall|k: int| 0 <= k < decimal(n).len() ==> is_digit(#[trigger] decimal(n)[k]),
        decimal_value(decimal(n)) == n,
    decreases n,
{
    if n < 10 {
        lemma_digit_char(n as int);
        let d = decimal(n);
        assert(d.drop_last() =~= Seq::<char>::empty());
        assert(decimal_value(Seq::<char>::empty()) == 0);
        assert(d.last() == digit_char(n as int));
        assert(decimal_value(d) == decimal_value(d.drop_last()) * 10 + digit_value(d.last()));
    } else {
        lemma_digit_char((n % 10) as int);
        lemma_decimal(n / 10);
        let d = decimal(n);
        assert(d.drop_last() =~= decimal(n / 10));
        assert(n == (n / 10) * 10 + n % 10) by (nonlinear_arith);
        assert(d.last() == digit_char((n % 10) as int));
        assert(decimal_value(d) == decimal_value(d.drop_last()) * 10 + digit_value(d.last()));
        assert forall|k: int| 0 <= k < d.len() implies is_digit(#[trigger] d[k]) by {
            if k < d.len() - 1 {
                assert(d[k] == decimal(n / 10)[k]);
            }
        }
    }
}

/// The text of a token: a number as its decimal numeral, a name as itself,
/// an operator or delimiter as its character.
pub open spec fn token_text(t: SToken) -> Seq<char> {
    match t {
        SToken::Number(v) => decimal(v as nat),
        SToken::Ident(n) => n,
        SToken::Plus => seq!['+'],
        SToken::Minus => seq!['-'],
        SToken::Star => seq!['*'],
        SToken::Slash => seq!['/'],
        SToken::Equal => seq!['='],
        SToken::Pipe => seq!['|'],
        SToken::Comma => seq![','],
        SToken::LeftParen => seq!['('],
        SToken::RightParen => seq![')'],
    }
}

/// The texts of the tokens `ts`, joined with single spaces.
pub open spec fn render(ts: Seq<SToken>) -> Seq<char>
    decreases ts.len(),
{
    if ts.len() == 0 {
        Seq::empty()
    } else if ts.len() == 1 {
        token_text(ts[0])
    } else {
        token_text(ts[0]) + seq![' '] + render(ts.drop_first())
    }
}

/// A token that the tokenizer can give: a number that is not negative, or
/// a name.
pub open spec fn well_formed_token(t: SToken) -> bool {
    match t {
        SToken::Number(v) => v >= 0,
        SToken::Ident(n) => is_identifier(n),
        _ => true,
    }
}

proof fn lemma_token_text_lexes(t: SToken)
    requires
        well_formed_token(t),
    ensures
        lex(token_text(t)) == Some(seq![t]),
{
    let x = token_text(t);
    assert(seq![t] + Seq::<SToken>::empty() =~= seq![t]);
    match t {
        SToken::Number(v) => {
            lemma_decimal(v as nat);
            lemma_run_end(x, 1, |c: char| is_digit(c));
            let j = digit_end(x, 1);
            if j < x.len() {
                assert(is_digit(x[j]));
            }
            assert(j == x.len());
            assert(x.subrange(0, j) =~= x);
            assert(lex_from(x, x.len() as int) == Some(Seq::<SToken>::empty()));
            assert(lex_from(x, 0) == prepend(SToken::Number(decimal_value(x) as i64), lex_from(x, j)));
        },
        SToken::Ident(n) => {
            lemma_identifier_parses(n);
        },
        _ => {
            assert(x.len() == 1);
            assert(lex_from(x, 1) == Some(Seq::<SToken>::empty()));
            assert(lex_from(x, 0) == prepend(t, lex_from(x, 1)));
        },
    }
}

/// The tokens that `lex_from` gives are all well formed.
proof fn lemma_lexed_tokens_well_formed(s: Seq<char>, i: int)
    requires
        0 <= i,
        lex_from(s, i) is Some,
    ensures
        forall|k: int|
            0 <= k < lex_from(s, i)->Some_0.len() ==> well_formed_token(
                #[trigger] lex_from(s, i)->Some_0[k],
            ),
    decreases s.len() - i,
{
    if 0 <= i < s.len() {
        let c = s[i];
        if unicode_white_space(c) {
            lemma_lexed_tokens_well_formed(s, i + 1);
        } else if is_digit(c) {
            lemma_run_end(s, i + 1, |c: char| is_digit(c));
            let j = digit_end(s, i + 1);
            let d = s.subrange(i, j);
            assert forall|k: int| 0 <= k < d.len() implies is_digit(#[trigger] d[k]) by {
                assert(d[k] == s[i + k]);
            }
            lemma_decimal_value_grows(d, 0);
            lemma_lexed_tokens_well_formed(s, j);
            let rest = lex_from(s, j)->Some_0;
            let all = lex_from(s, i)->Some_0;
            assert forall|k: int| 0 <= k < all.len() implies well_formed_token(#[trigger] all[k]) by {
                if k > 0 {
                    assert(all[k] == rest[k - 1]);
                }
            }
        } else if is_ident_start(c) {
            lemma_run_end(s, i + 1, |c: char| is_ident_continue(c));
            let j = ident_end(s, i + 1);
            let n = s.subrange(i, j);
            assert forall|k: int| 1 <= k < n.len() implies is_ident_continue(#[trigger] n[k]) by {
                assert(n[k] == s[i + k]);
            }
            lemma_lexed_tokens_well_formed(s, j);
            let rest = lex_from(s, j)->Some_0;
            let all = lex_from(s, i)->Some_0;
            assert forall|k: int| 0 <= k < all.len() implies well_formed_token(#[trigger] all[k]) by {
                if k > 0 {
                    assert(all[k] == rest[k - 1]);
                }
            }
        } else {
            lemma_lexed_tokens_well_formed(s, i + 1);
            let rest = lex_from(s, i + 1)->Some_0;
            let all = lex_from(s, i)->Some_0;
            assert forall|k: int| 0 <= k < all.len() implies well_formed_token(#[trigger] all[k]) by {
                if k > 0 {
                    assert(all[k] == rest[k - 1]);
                }
            }
        }
    }
}

proof fn lemma_render_lexes(ts: Seq<SToken>)
    requires
        forall|k: int| 0 <= k < ts.len() ==> well_formed_token(#[trigger] ts[k]),
    ensures
        lex(render(ts)) == Some(ts),
    decreases ts.len(),
{
    if ts.len() == 0 {
        assert(lex(Seq::<char>::empty()) == Some(Seq::<SToken>::empty()));
        assert(ts =~= Seq::<SToken>::empty());
    } else if ts.len() == 1 {
        assert(well_formed_token(ts[0]));
        lemma_token_text_lexes(ts[0]);
        assert(ts =~= seq![ts[0]]);
    } else {
        let rest = ts.drop_first();
        assert forall|k: int| 0 <= k < rest.len() implies well_formed_token(#[trigger] rest[k]) by {
            assert(rest[k] == ts[k + 1]);
        }
        lemma_render_lexes(rest);
        assert(well_formed_token(ts[0]));
        lemma_token_text_lexes(ts[0]);
        let a = token_text(ts[0]);
        let tail = seq![' '] + render(rest);
        assert(a + seq![' '] + render(rest) =~= a + tail);
        assert(tail[0] == ' ');
        lemma_lex_split(a, tail, 0);
        assert(tail + Seq::<char>::empty() =~= tail);
        assert(is_blank(seq![' '])) by {
            assert forall|k: int| 0 <= k < 1 implies unicode_white_space(#[trigger] seq![' '][k]) by {
                assert(seq![' '][k] == ' ');
            }
        }
        law_surrounding_whitespace_lexes_away(seq![' '], render(rest), Seq::<char>::empty());
        assert(seq![' '] + render(rest) + Seq::<char>::empty() =~= tail);
        assert(seq![ts[0]] + rest =~= ts);
    }
}

/// Writing the tokens of a text out again, one space between each two, gives
/// a text with the same tokens.
pub proof fn law_rendered_tokens_lex_back(s: Seq<char>)
    requires
        lex(s) is Some,
    ensures
        lex(render(lex(s)->Some_0)) == lex(s),
{
    lemma_lexed_tokens_well_formed(s, 0);
    lemma_render_lexes(lex(s)->Some_0);
}

/// Every name made of an ASCII letter of either case or `_`, then ASCII
/// letters of either case, digits and `_`, lexes as one identifier: the whole
/// name.
pub proof fn law_names_lex_whole(n: Seq<char>)
    requires
        n.len() > 0,
        ('a' <= n[0] <= 'z') || ('A' <= n[0] <= 'Z') || n[0] == '_',
        forall|k: int|
            1 <= k < n.len() ==> ('a' <= #[trigger] n[k] <= 'z') || ('A' <= n[k] <= 'Z') || ('0'
                <= n[k] <= '9') || n[k] == '_',
    ensures
        lex(n) == Some(seq![SToken::Ident(n)]),
        parse_spec(n) == Some(SStmt::Eval(SExpr::Var(n))),
{
    assert forall|k: int| 1 <= k < n.len() implies is_ident_continue(#[trigger] n[k]) by {
        assert(('a' <= n[k] <= 'z') || ('A' <= n[k] <= 'Z') || ('0' <= n[k] <= '9') || n[k] == '_');
    }
    lemma_identifier_parses(n);
}

/// A number or a name: a token that stands for an expression by itself.
pub open spec fn is_atom(t: SToken) -> bool {
    t is Number || t is Ident
}

/// The expression that an atom stands for.
pub open spec fn atom_expr(t: SToken) -> SExpr {
    match t {
        SToken::Number(v) => SExpr::Num(v),
        SToken::Ident(n) => SExpr::Var(n),
        _ => SExpr::Num(0),
    }
}

/// The expression `l op r` for an operator token.
pub open spec fn binary(op: SToken, l: SExpr, r: SExpr) -> SExpr {
    match op {
        SToken::Plus => SExpr::Add(Box::new(l), Box::new(r)),
        SToken::Minus => SExpr::Sub(Box::new(l), Box::new(r)),
        SToken::Star => SExpr::Mul(Box::new(l), Box::new(r)),
        _ => SExpr::Div(Box::new(l), Box::new(r)),
    }
}

pub open spec fn is_additive(t: SToken) -> bool {
    t == SToken::Plus || t == SToken::Minus
}

pub open spec fn is_multiplicative(t: SToken) -> bool {
    t == SToken::Star || t == SToken::Slash
}

proof fn lemma_atom_term(t: Seq<SToken>, pos: int)
    requires
        0 <= pos < t.len(),
        is_atom(t[pos]),
        pos + 1 < t.len() ==> t[pos + 1] != SToken::LeftParen && !is_multiplicative(t[pos + 1]),
    ensures
        parse_application(t, pos) == Some((atom_expr(t[pos]), pos + 1)),
        parse_term(t, pos) == Some((atom_expr(t[pos]), pos + 1)),
{
    assert(parse_primary(t, pos) == Some((atom_expr(t[pos]), pos + 1)));
    assert(parse_app_rest(t, pos + 1, atom_expr(t[pos])) == Some((atom_expr(t[pos]), pos + 1)));
    assert(parse_term_rest(t, pos + 1, atom_expr(t[pos])) == Some((atom_expr(t[pos]), pos + 1)));
}

proof fn lemma_atom_application(t: Seq<SToken>, pos: int)
    requires
        0 <= pos < t.len(),
        is_atom(t[pos]),
        pos + 1 < t.len() ==> t[pos + 1] != SToken::LeftParen,
    ensures
        parse_application(t, pos) == Some((atom_expr(t[pos]), pos + 1)),
{
    assert(parse_primary(t, pos) == Some((atom_expr(t[pos]), pos + 1)));
    assert(parse_app_rest(t, pos + 1, atom_expr(t[pos])) == Some((atom_expr(t[pos]), pos + 1)));
}

/// Multiplication and division bind tighter than addition and subtraction,
/// and operators of one level group to the left: for any numbers or names
/// `x`, `y`, `z`, an additive operator `+`/`-` and a multiplicative `*`/`/`,
/// `x + y * z` is `x + (y * z)`, `x * y + z` is `(x * y) + z`,
/// `x - y - z` is `(x - y) - z` and `x / y / z` is `(x / y) / z`.
pub proof fn law_precedence(x: SToken, y: SToken, z: SToken, add: SToken, mul: SToken, add2: SToken, mul2: SToken)
    requires
        is_atom(x),
        is_atom(y),
        is_atom(z),
        is_additive(add),
        is_additive(add2),
        is_multiplicative(mul),
        is_multiplicative(mul2),
    ensures
        parse_tokens(seq![x, add, y, mul, z]) == Some(
            SStmt::Eval(binary(add, atom_expr(x), binary(mul, atom_expr(y), atom_expr(z)))),
        ),
        parse_tokens(seq![x, mul, y, add, z]) == Some(
            SStmt::Eval(binary(add, binary(mul, atom_expr(x), atom_expr(y)), atom_expr(z))),
        ),
        parse_tokens(seq![x, add, y, add2, z]) == Some(
            SStmt::Eval(binary(add2, binary(add, atom_expr(x), atom_expr(y)), atom_expr(z))),
        ),
        parse_tokens(seq![x, mul, y, mul2, z]) == Some(
            SStmt::Eval(binary(mul2, binary(mul, atom_expr(x), atom_expr(y)), atom_expr(z))),
        ),
{
    let (ax, ay, az) = (atom_expr(x), atom_expr(y), atom_expr(z));
    // x add y mul z
    let t = seq![x, add, y, mul, z];
    lemma_atom_term(t, 0);
    lemma_atom_application(t, 2);
    lemma_atom_application(t, 4);
    assert(parse_term_rest(t, 5, binary(mul, ay, az)) == Some((binary(mul, ay, az), 5int)));
    assert(parse_term_rest(t, 3, ay) == Some((binary(mul, ay, az), 5int)));
    assert(parse_term(t, 2) == Some((binary(mul, ay, az), 5int)));
    let e = binary(add, ax, binary(mul, ay, az));
    assert(parse_expr_rest(t, 5, e) == Some((e, 5int)));
    assert(parse_expr_rest(t, 1, ax) == Some((e, 5int)));
    assert(parse_expression(t, 0) == Some((e, 5int)));
    assert(parse_statement(t) == Some((SStmt::Eval(e), 5int)));
    // x mul y add z
    let t = seq![x, mul, y, add, z];
    lemma_atom_application(t, 0);
    lemma_atom_application(t, 2);
    lemma_atom_term(t, 4);
    let m = binary(mul, ax, ay);
    assert(parse_term_rest(t, 3, m) == Some((m, 3int)));
    assert(parse_term_rest(t, 1, ax) == Some((m, 3int)));
    assert(parse_term(t, 0) == Some((m, 3int)));
    let e = binary(add, m, az);
    assert(parse_expr_rest(t, 5, e) == Some((e, 5int)));
    assert(parse_expr_rest(t, 3, m) == Some((e, 5int)));
    assert(parse_expression(t, 0) == Some((e, 5int)));
    assert(parse_statement(t) == Some((SStmt::Eval(e), 5int)));
    // x add y add2 z
    let t = seq![x, add, y, add2, z];
    lemma_atom_term(t, 0);
    lemma_atom_term(t, 2);
    lemma_atom_term(t, 4);
    let a1 = binary(add, ax, ay);
    let e = binary(add2, a1, az);
    assert(parse_expr_rest(t, 5, e) == Some((e, 5int)));
    assert(parse_expr_rest(t, 3, a1) == Some((e, 5int)));
    assert(parse_expr_rest(t, 1, ax) == Some((e, 5int)));
    assert(parse_expression(t, 0) == Some((e, 5int)));
    assert(parse_statement(t) == Some((SStmt::Eval(e), 5int)));
    // x mul y mul2 z
    let t = seq![x, mul, y, mul2, z];
    lemma_atom_application(t, 0);
    lemma_atom_application(t, 2);
    lemma_atom_application(t, 4);
    let m1 = binary(mul, ax, ay);
    let e = binary(mul2, m1, az);
    assert(parse_term_rest(t, 5, e) == Some((e, 5int)));
    assert(parse_term_rest(t, 3, m1) == Some((e, 5int)));
    assert(parse_term_rest(t, 1, ax) == Some((e, 5int)));
    assert(parse_term(t, 0) == Some((e, 5int)));
    assert(parse_expr_rest(t, 5, e) == Some((e, 5int)));
    assert(parse_expression(t, 0) == Some((e, 5int)));
    assert(parse_statement(t) == Some((SStmt::Eval(e), 5int)));
}

/// A binding names its variable first: `n = z` binds `n` to `z`; a lambda
/// with two parameters is two nested lambdas, the first parameter outermost,
/// and its body runs to the end (`|x, y| z` and `|x| y + z`); calls chain to
/// the left, `f(a)(b)` calling the result of `f(a)` with `b`.
pub proof fn law_bindings_lambdas_and_calls(
    n: Seq<char>,
    x: Seq<char>,
    y: Seq<char>,
    f: SToken,
    a: SToken,
    b: SToken,
    z: SToken,
    w: SToken,
)
    requires
        is_atom(f),
        is_atom(a),
        is_atom(b),
        is_atom(z),
        is_atom(w),
    ensures
        parse_tokens(seq![SToken::Ident(n), SToken::Equal, z]) == Some(
            SStmt::Let(n, atom_expr(z)),
        ),
        parse_tokens(
            seq![SToken::Pipe, SToken::Ident(x), SToken::Comma, SToken::Ident(y), SToken::Pipe, z],
        ) == Some(
            SStmt::Eval(
                SExpr::Lam(x, Box::new(SExpr::Lam(y, Box::new(atom_expr(z))))),
            ),
        ),
        parse_tokens(seq![SToken::Pipe, SToken::Ident(x), SToken::Pipe, z, SToken::Plus, w])
            == Some(
            SStmt::Eval(
                SExpr::Lam(
                    x,
                    Box::new(SExpr::Add(Box::new(atom_expr(z)), Box::new(atom_expr(w)))),
                ),
            ),
        ),
        parse_tokens(
            seq![f, SToken::LeftParen, a, SToken::RightParen, SToken::LeftParen, b, SToken::RightParen],
        ) == Some(
            SStmt::Eval(
                SExpr::App(
                    Box::new(SExpr::App(Box::new(atom_expr(f)), Box::new(atom_expr(a)))),
                    Box::new(atom_expr(b)),
                ),
            ),
        ),
{
    let (az, aw) = (atom_expr(z), atom_expr(w));
    // n = z
    let t = seq![SToken::Ident(n), SToken::Equal, z];
    lemma_atom_term(t, 2);
    assert(parse_expr_rest(t, 3, az) == Some((az, 3int)));
    assert(parse_expression(t, 2) == Some((az, 3int)));
    // |x, y| z
    let t = seq![SToken::Pipe, SToken::Ident(x), SToken::Comma, SToken::Ident(y), SToken::Pipe, z];
    lemma_atom_term(t, 5);
    assert(parse_expr_rest(t, 6, az) == Some((az, 6int)));
    assert(parse_expression(t, 5) == Some((az, 6int)));
    assert(parse_lambda_params(t, 3) == Some((SExpr::Lam(y, Box::new(az)), 6int)));
    let lam = SExpr::Lam(x, Box::new(SExpr::Lam(y, Box::new(az))));
    assert(parse_lambda_params(t, 1) == Some((lam, 6int)));
    assert(parse_expression(t, 0) == Some((lam, 6int)));
    assert(parse_statement(t) == Some((SStmt::Eval(lam), 6int)));
    // |x| z + w
    let t = seq![SToken::Pipe, SToken::Ident(x), SToken::Pipe, z, SToken::Plus, w];
    lemma_atom_term(t, 3);
    lemma_atom_term(t, 5);
    let sum = SExpr::Add(Box::new(az), Box::new(aw));
    assert(parse_expr_rest(t, 6, sum) == Some((sum, 6int)));
    assert(parse_expr_rest(t, 4, az) == Some((sum, 6int)));
    assert(parse_expression(t, 3) == Some((sum, 6int)));
    let lam = SExpr::Lam(x, Box::new(sum));
    assert(parse_lambda_params(t, 1) == Some((lam, 6int)));
    assert(parse_expression(t, 0) == Some((lam, 6int)));
    assert(parse_statement(t) == Some((SStmt::Eval(lam), 6int)));
    // f(a)(b)
    let t = seq![f, SToken::LeftParen, a, SToken::RightParen, SToken::LeftParen, b, SToken::RightParen];
    lemma_atom_term(t, 2);
    lemma_atom_term(t, 5);
    assert(parse_expr_rest(t, 3, atom_expr(a)) == Some((atom_expr(a), 3int)));
    assert(parse_expression(t, 2) == Some((atom_expr(a), 3int)));
    assert(parse_expr_rest(t, 6, atom_expr(b)) == Some((atom_expr(b), 6int)));
    assert(parse_expression(t, 5) == Some((atom_expr(b), 6int)));
    let fa = SExpr::App(Box::new(atom_expr(f)), Box::new(atom_expr(a)));
    let fab = SExpr::App(Box::new(fa), Box::new(atom_expr(b)));
    assert(parse_app_rest(t, 7, fab) == Some((fab, 7int)));
    assert(parse_app_rest(t, 4, fa) == Some((fab, 7int)));
    assert(parse_app_rest(t, 1, atom_expr(f)) == Some((fab, 7int)));
    assert(parse_primary(t, 0) == Some((atom_expr(f), 1int)));
    assert(parse_application(t, 0) == Some((fab, 7int)));
    assert(parse_term_rest(t, 7, fab) == Some((fab, 7int)));
    assert(parse_term(t, 0) == Some((fab, 7int)));
    assert(parse_expr_rest(t, 7, fab) == Some((fab, 7int)));
    assert(parse_expression(t, 0) == Some((fab, 7int)));
    assert(parse_statement(t) == Some((SStmt::Eval(fab), 7int)));
}

/// Every number that fits in `i64`, written in decimal, lexes as that
/// number.
pub proof fn law_numerals_lex(v: i64)
    requires
        v >= 0,
    ensures
        lex(decimal(v as nat)) == Some(seq![SToken::Number(v)]),
{
    lemma_token_text_lexes(SToken::Number(v));
}

} // verus!
