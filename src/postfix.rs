use vstd::prelude::*;
use crate::ShuntError;
use crate::token::{Token, TokenView, views};

verus! {

/// A binary arithmetic operator.
#[derive(Debug, Clone, Copy, PartialEq, Eq, Structural)]
pub enum BinOp {
    Add,
    Sub,
    Mul,
    Div,
    Exp,
}

/// One computation of a postfix evaluation. Each step yields one value; the
/// operands of a step are the values of earlier steps, named by their index.
#[derive(Debug, Clone, Copy, PartialEq, Eq, Structural)]
pub enum Step {
    /// The value of the literal at this index of the postfix sequence.
    Literal(usize),
    /// The negation of a value.
    Neg(usize),
    /// A binary operator applied to a left and a right operand.
    Apply(BinOp, usize, usize),
}

/// A postfix sequence, the computations that evaluating it performs, in order,
/// and what the evaluation yields once they have all succeeded: the index of
/// the step whose value is the result, or an error.
///
/// Running the steps may still fail on its own: a `Div` step whose right
/// operand is zero fails with `DivideByZero`, and that failure comes first.
#[derive(Debug, PartialEq)]
pub struct Plan {
    pub postfix: Vec<Token>,
    pub steps: Vec<Step>,
    pub outcome: Result<usize, ShuntError>,
}

/// The evaluator's state: the steps so far, the operand stack (indices of
/// steps, top last), and the error that stopped it, if any.
pub struct EvalState {
    pub steps: Seq<Step>,
    pub stack: Seq<usize>,
    pub error: Option<ShuntError>,
}

pub open spec fn binop_of(t: TokenView) -> Option<BinOp> {
    match t {
        TokenView::Add => Some(BinOp::Add),
        TokenView::Sub => Some(BinOp::Sub),
        TokenView::Mul => Some(BinOp::Mul),
        TokenView::Div => Some(BinOp::Div),
        TokenView::Exp => Some(BinOp::Exp),
        _ => None,
    }
}

pub open spec fn fail(st: EvalState, e: ShuntError) -> EvalState {
    EvalState { error: Some(e), ..st }
}

/// The evaluator's state after the token `t`, found at index `j`, with no
/// error so far.
pub open spec fn eval_step(st: EvalState, j: int, t: TokenView) -> EvalState {
    let n = st.steps.len() as usize;
    if t.is_literal() {
        EvalState { steps: st.steps.push(Step::Literal(j as usize)), stack: st.stack.push(n), ..st }
    } else if t is Neg {
        if st.stack.len() == 0 {
            fail(st, ShuntError::OperatorMissingNumbers)
        } else {
            EvalState {
                steps: st.steps.push(Step::Neg(st.stack.last())),
                stack: st.stack.drop_last().push(n),
                ..st
            }
        }
    } else if binop_of(t) is Some {
        if st.stack.len() < 2 {
            fail(st, ShuntError::OperatorMissingNumbers)
        } else {
            let b = st.stack.last();
            let a = st.stack[st.stack.len() - 2];
            EvalState {
                steps: st.steps.push(Step::Apply(binop_of(t)->0, a, b)),
                stack: st.stack.drop_last().drop_last().push(n),
                ..st
            }
        }
    } else {
        fail(st, ShuntError::InternalError)
    }
}

/// The evaluator's state after the tokens of `ts` from index `j` on; it stops
/// at the first error.
pub open spec fn eval_from(ts: Seq<TokenView>, j: int, st: EvalState) -> EvalState
    decreases ts.len() - j,
{
    if j < 0 || j >= ts.len() || st.error is Some {
        st
    } else {
        eval_from(ts, j + 1, eval_step(st, j, ts[j]))
    }
}

pub open spec fn eval_init() -> EvalState {
    EvalState { steps: seq![], stack: seq![], error: None }
}

/// What a finished evaluation yields: its error, `MissingNumber` where no
/// value is left, else the bottom value of the stack; values above it are
/// ignored.
pub open spec fn eval_outcome(st: EvalState) -> Result<usize, ShuntError> {
    match st.error {
        Some(e) => Err(e),
        None => if st.stack.len() == 0 {
            Err(ShuntError::MissingNumber)
        } else {
            Ok(st.stack[0])
        },
    }
}

/// Every operand of a step is an earlier step, and every `Literal` step names
/// a literal of `ts`.
pub open spec fn steps_well_formed(steps: Seq<Step>, ts: Seq<TokenView>) -> bool {
    forall|k: int|
        0 <= k < steps.len() ==> match #[trigger] steps[k] {
            Step::Literal(j) => j < ts.len() && ts[j as int].is_literal(),
            Step::Neg(a) => a < k,
            Step::Apply(_, a, b) => a < k && b < k,
        }
}

/// The plan of the postfix sequence `ts`.
pub open spec fn plan_of(ts: Seq<TokenView>) -> (Seq<Step>, Result<usize, ShuntError>) {
    let st = eval_from(ts, 0, eval_init());
    (st.steps, eval_outcome(st))
}

fn binop(t: &Token) -> (r: Option<BinOp>)
    ensures
        r == binop_of(t@),
{
    match t {
        Token::Add => Some(BinOp::Add),
        Token::Sub => Some(BinOp::Sub),
        Token::Mul => Some(BinOp::Mul),
        Token::Div => Some(BinOp::Div),
        Token::Exp => Some(BinOp::Exp),
        _ => None,
    }
}

/// Evaluates a postfix sequence with a stack of operands, recording each
/// computation as a step instead of performing it. A literal pushes its value;
/// `Neg` takes one operand and a binary operator two, the top one as its right
/// operand; an operand missing fails with `OperatorMissingNumbers`, a
/// parenthesis or an invalid token with `InternalError`.
pub fn plan_postfix(input: Vec<Token>) -> (r: Plan)
    ensures
        r.postfix == input,
        (r.steps@, r.outcome) == plan_of(views(input@)),
        steps_well_formed(r.steps@, views(input@)),
        r.outcome matches Ok(k) ==> k < r.steps@.len(),
{
    let ghost ts = views(input@);
    let mut steps: Vec<Step> = Vec::new();
    let mut stack: Vec<usize> = Vec::new();
    let mut error: Option<ShuntError> = None;
    let mut i: usize = 0;
    while i < input.len()
        invariant_except_break
            error is None,
        invariant
            i <= input@.len(),
            ts == views(input@),
            steps@.len() <= i,
            steps_well_formed(steps@, ts),
            forall|m: int| 0 <= m < stack@.len() ==> #[trigger] stack@[m] < steps@.len(),
            eval_from(ts, i as int, EvalState { steps: steps@, stack: stack@, error })
                == eval_from(ts, 0, eval_init()),
        ensures
            eval_from(ts, 0, eval_init()) == (EvalState { steps: steps@, stack: stack@, error }),
        decreases input@.len() - i,
    {
        let ghost st = EvalState { steps: steps@, stack: stack@, error };
        let ghost next = eval_step(st, i as int, ts[i as int]);
        assert(ts[i as int] == input@[i as int]@);
        let t = &input[i];
        let n = steps.len();
        match t {
            Token::Number(_) | Token::IntLiteral(_) => {
                steps.push(Step::Literal(i));
                stack.push(n);
            },
            Token::Neg => {
                if stack.len() == 0 {
                    error = Some(ShuntError::OperatorMissingNumbers);
                } else {
                    let a = stack.pop().unwrap();
                    steps.push(Step::Neg(a));
                    stack.push(n);
                }
            },
            _ => {
                match binop(t) {
                    Some(op) => {
                        if stack.len() < 2 {
                            error = Some(ShuntError::OperatorMissingNumbers);
                        } else {
                            let b = stack.pop().unwrap();
                            let a = stack.pop().unwrap();
                            steps.push(Step::Apply(op, a, b));
                            stack.push(n);
                        }
                    },
                    None => {
                        error = Some(ShuntError::InternalError);
                    },
                }
            },
        }
        assert(steps@ =~= next.steps);
        assert(stack@ =~= next.stack);
        i = i + 1;
        if error.is_some() {
            break;
        }
    }
    let outcome = if error.is_some() {
        Err(error.unwrap())
    } else if stack.len() == 0 {
        Err(ShuntError::MissingNumber)
    } else {
        Ok(stack[0])
    };
    Plan { postfix: input, steps, outcome }
}

proof fn lemma_eval_from_no_internal_error(ts: Seq<TokenView>, j: int, st: EvalState)
    requires
        forall|k: int| 0 <= k < ts.len() ==> (#[trigger] ts[k]).is_postfix_item(),
        st.error != Some(ShuntError::InternalError),
    ensures
        eval_from(ts, j, st).error != Some(ShuntError::InternalError),
    decreases ts.len() - j,
{
    if !(j < 0 || j >= ts.len() || st.error is Some) {
        assert(ts[j].is_postfix_item());
        lemma_eval_from_no_internal_error(ts, j + 1, eval_step(st, j, ts[j]));
    }
}

/// A postfix sequence of literals and operators never fails with
/// `InternalError`.
pub proof fn lemma_items_no_internal_error(ts: Seq<TokenView>)
    requires
        forall|k: int| 0 <= k < ts.len() ==> (#[trigger] ts[k]).is_postfix_item(),
    ensures
        plan_of(ts).1 != Err::<usize, ShuntError>(ShuntError::InternalError),
{
    lemma_eval_from_no_internal_error(ts, 0, eval_init());
}

} // verus!
