//! The public evaluator.
use vstd::prelude::*;

use crate::slop::{converts, FromSlop};
use crate::zz_slop;
use crate::zz_slop::eval::{run_lines, SValue};
use crate::zz_slop::parser::is_identifier;
use crate::zz_slop::text::lines;

verus! {

/// What evaluating one statement produced.
#[derive(Debug, PartialEq, Clone, Copy)]
pub enum EvalOutput {
    /// An expression that evaluated to a number.
    Val(i64),
    /// An expression that evaluated to a closure.
    Lam,
    /// A binding.
    Dec,
}

/// An evaluator: the variables bound by the statements it has run.
pub struct Eval(zz_slop::eval::Eval);

impl View for Eval {
    type V = Map<Seq<char>, SValue>;

    closed spec fn view(&self) -> Map<Seq<char>, SValue> {
        self.0@
    }
}

impl Eval {
    /// An evaluator with no variables bound.
    pub fn new() -> (r: Self)
        ensures
            r@ == Map::<Seq<char>, SValue>::empty(),
    {
        Eval(zz_slop::eval::new())
    }

    /// Runs the lines of `input` in turn and reports the number that the last
    /// statement produced, `None` after a binding or a closure. Blank lines
    /// are skipped; the first line that fails ends the run with its error,
    /// and the bindings made before it stay.
    pub fn eval_str(&mut self, input: &str) -> (r: Result<Option<i64>, &'static str>)
        requires
            run_lines(old(self)@, lines(input@), None, false) is Some,
        ensures
            final(self)@ == run_lines(old(self)@, lines(input@), None, false)->Some_0.0,
            match r {
                Ok(o) => run_lines(old(self)@, lines(input@), None, false)->Some_0.1 == Ok::<
                    Option<i64>,
                    Seq<char>,
                >(o),
                Err(m) => run_lines(old(self)@, lines(input@), None, false)->Some_0.1 == Err::<
                    Option<i64>,
                    Seq<char>,
                >(m@),
            },
    {
        zz_slop::eval::eval_str(&mut self.0, input)
    }
}

impl FromSlop<zz_slop::eval::Eval> for Eval {
    fn from_slop(value: zz_slop::eval::Eval) -> (r: Eval)
        ensures
            r@ == value@,
    {
        Eval(value)
    }
}

impl FromSlop<Eval> for zz_slop::eval::Eval {
    fn from_slop(value: Eval) -> (r: zz_slop::eval::Eval)
        ensures
            r@ == value@,
    {
        value.0
    }
}

impl<'a> FromSlop<&'a Eval> for &'a zz_slop::eval::Eval {
    fn from_slop(value: &'a Eval) -> (r: &'a zz_slop::eval::Eval)
        ensures
            r@ == value@,
    {
        &value.0
    }
}

impl<'a> FromSlop<&'a mut Eval> for &'a mut zz_slop::eval::Eval {
    fn from_slop(value: &'a mut Eval) -> (r: &'a mut zz_slop::eval::Eval)
        ensures
            r@ == old(value)@,
            final(value)@ == final(r)@,
    {
        &mut value.0
    }
}

/// Converting an evaluator to its backing state and back keeps its
/// bindings.
pub proof fn law_backing_round_trip(
    value: Eval,
    backing: zz_slop::eval::Eval,
    back: Eval,
)
    requires
        converts(value, backing),
        converts(backing, back),
    ensures
        backing@ == value@,
        back@ == value@,
{
}

/// A new evaluator knows no name: running a name alone is an unbound
/// variable, and binds nothing.
pub proof fn law_new_evaluator_binds_nothing(e: Eval, n: Seq<char>)
    requires
        e@ == Map::<Seq<char>, SValue>::empty(),
        is_identifier(n),
    ensures
        run_lines(e@, lines(n), None, false) == Some(
            (e@, Err::<Option<i64>, Seq<char>>(zz_slop::eval::unbound_variable())),
        ),
{
    zz_slop::eval::law_fresh_state_binds_nothing(n);
}

} // verus!
