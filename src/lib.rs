use vstd::prelude::*;

pub mod token;
pub mod lexer;
pub mod shunting;
pub mod postfix;

use crate::lexer::lex;
use crate::postfix::{Plan, Step, plan_of, plan_postfix, steps_well_formed, lemma_items_no_internal_error};
use crate::shunting::{shunt, shunt_text, parens_nest, lemma_nested_postfix_items};
use crate::token::{TokenView, views};

verus! {

/// The ways an evaluation can fail.
#[derive(Debug, Clone, Copy, PartialEq, Eq, Structural)]
pub enum ShuntError {
    /// The numbers of opening and closing parentheses differ.
    InequalParenthesis,
    /// The evaluator met a parenthesis or an invalid token in postfix order.
    InternalError,
    /// An operator found fewer operands on the stack than it takes.
    OperatorMissingNumbers,
    /// A division had zero as its right operand.
    DivideByZero,
    /// No value was left once the evaluation was done.
    MissingNumber,
}

/// What evaluating the expression `s` computes: its postfix order, the
/// steps of the evaluation and what they yield, or the error of conversion.
pub open spec fn plan_text(s: Seq<char>) -> Result<
    (Seq<TokenView>, Seq<Step>, Result<usize, ShuntError>),
    ShuntError,
> {
    match shunt_text(s) {
        Ok(p) => Ok((p, plan_of(p).0, plan_of(p).1)),
        Err(e) => Err(e),
    }
}

/// What a plan stands for, as in `plan_text`.
pub open spec fn plan_view(r: Result<Plan, ShuntError>) -> Result<
    (Seq<TokenView>, Seq<Step>, Result<usize, ShuntError>),
    ShuntError,
> {
    match r {
        Ok(p) => Ok((views(p.postfix@), p.steps@, p.outcome)),
        Err(e) => Err(e),
    }
}

/// Tokenizes an expression, converts it to postfix order and plans its
/// evaluation. What is left to do is the arithmetic of the steps.
pub fn plan(input: &str) -> (r: Result<Plan, ShuntError>)
    ensures
        plan_view(r) == plan_text(input@),
        r matches Ok(p) ==> steps_well_formed(p.steps@, views(p.postfix@)),
        r matches Ok(p) ==> (p.outcome matches Ok(k) ==> k < p.steps@.len()),
{
    match shunt(input) {
        Ok(postfix) => Ok(plan_postfix(postfix)),
        Err(e) => Err(e),
    }
}

/// Where the parenthesis tokens of an expression nest, its conversion
/// succeeds and its evaluation never meets a token that the converter should
/// not have produced.
pub proof fn lemma_nested_no_internal_error(s: Seq<char>)
    requires
        parens_nest(lex(s)),
    ensures
        plan_text(s) is Ok,
        plan_text(s)->Ok_0.2 != Err::<usize, ShuntError>(ShuntError::InternalError),
{
    lemma_nested_postfix_items(lex(s));
    lemma_items_no_internal_error(shunt_text(s)->Ok_0);
}

/// Evaluation is a function of the text alone: the same text always gives
/// the same postfix order, the same steps and the same outcome.
pub proof fn lemma_plan_deterministic(a: Seq<char>, b: Seq<char>)
    requires
        a == b,
    ensures
        plan_text(a) == plan_text(b),
        shunt_text(a) == shunt_text(b),
{
}

} // verus!
