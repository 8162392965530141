use calculator::lexer::tokenize;
use calculator::postfix::{plan_postfix, BinOp, Step};
use calculator::shunting::shunt;
use calculator::token::Token;
use calculator::{plan, ShuntError};

fn lit(n: i32) -> Token {
    Token::IntLiteral(n)
}

fn literal_value(t: &Token) -> f32 {
    match t {
        Token::Number(s) => s.parse().unwrap(),
        Token::IntLiteral(n) => *n as f32,
        _ => panic!("not a literal"),
    }
}

/// Runs the arithmetic of a plan in single precision.
fn solve(text: &str) -> Result<f32, ShuntError> {
    let p = plan(text)?;
    let mut values: Vec<f32> = Vec::new();
    for step in &p.steps {
        let v = match *step {
            Step::Literal(j) => literal_value(&p.postfix[j]),
            Step::Neg(a) => -values[a],
            Step::Apply(op, a, b) => {
                let (x, y) = (values[a], values[b]);
                match op {
                    BinOp::Add => x + y,
                    BinOp::Sub => x - y,
                    BinOp::Mul => x * y,
                    BinOp::Div => {
                        if y == 0.0 {
                            return Err(ShuntError::DivideByZero);
                        }
                        x / y
                    }
                    BinOp::Exp => x.powf(y),
                }
            }
        };
        values.push(v);
    }
    p.outcome.map(|k| values[k])
}

#[test]
fn tokenize_symbols() {
    assert_eq!(
        tokenize("+-*/^()\u{2013}"),
        vec![
            Token::Add,
            Token::Sub,
            Token::Mul,
            Token::Div,
            Token::Exp,
            Token::Open,
            Token::Close,
            Token::Neg
        ]
    );
}

#[test]
fn tokenize_literals() {
    assert_eq!(
        tokenize("12+3.25"),
        vec![lit(12), Token::Add, Token::Number("3.25".to_string())]
    );
    assert_eq!(tokenize("007"), vec![lit(7)]);
}

#[test]
fn tokenize_point_without_digit_after() {
    assert_eq!(tokenize("5."), vec![lit(5), Token::Invalid]);
    assert_eq!(tokenize(".5"), vec![Token::Invalid, lit(5)]);
    assert_eq!(
        tokenize("1.2.3"),
        vec![Token::Number("1.2".to_string()), Token::Invalid, lit(3)]
    );
}

#[test]
fn tokenize_unknown_characters() {
    assert_eq!(tokenize(" a"), vec![Token::Invalid, Token::Invalid]);
    assert_eq!(tokenize(""), vec![]);
}

#[test]
fn tokenize_integer_limits() {
    assert_eq!(tokenize("2147483647"), vec![lit(2147483647)]);
    assert_eq!(tokenize("2147483648"), vec![Token::Invalid]);
    assert_eq!(tokenize("99999999999999999999"), vec![Token::Invalid]);
}

#[test]
fn shunt_precedence() {
    assert_eq!(
        shunt("2+3*4"),
        Ok(vec![lit(2), lit(3), lit(4), Token::Mul, Token::Add])
    );
}

#[test]
fn shunt_parentheses() {
    assert_eq!(
        shunt("(2+3)*4"),
        Ok(vec![lit(2), lit(3), Token::Add, lit(4), Token::Mul])
    );
}

#[test]
fn shunt_exponent_left_associative() {
    assert_eq!(
        shunt("2^3^2"),
        Ok(vec![lit(2), lit(3), Token::Exp, lit(2), Token::Exp])
    );
}

#[test]
fn shunt_drops_invalid_tokens() {
    assert_eq!(shunt(" 1 + 2 "), Ok(vec![lit(1), lit(2), Token::Add]));
}

#[test]
fn shunt_negation_binds_loosest() {
    assert_eq!(
        shunt("\u{2013}5+3"),
        Ok(vec![lit(5), lit(3), Token::Add, Token::Neg])
    );
    assert_eq!(shunt("(\u{2013}5)"), Ok(vec![lit(5), Token::Neg]));
}

#[test]
fn shunt_unequal_parentheses() {
    assert_eq!(shunt("(1+2"), Err(ShuntError::InequalParenthesis));
    assert_eq!(shunt("1+2)"), Err(ShuntError::InequalParenthesis));
}

#[test]
fn shunt_counts_parentheses_only() {
    assert_eq!(shunt("())("), Ok(vec![Token::Open]));
}

#[test]
fn shunt_equal_counts_succeed() {
    for text in ["", "()", "((1))", ")(", "(()", "1+(2*(3-4))", "))(("] {
        let opens = text.chars().filter(|c| *c == '(').count();
        let closes = text.chars().filter(|c| *c == ')').count();
        assert_eq!(shunt(text).is_ok(), opens == closes, "{text}");
    }
}

#[test]
fn plan_records_steps() {
    let p = plan("2+3*4").unwrap();
    assert_eq!(
        p.steps,
        vec![
            Step::Literal(0),
            Step::Literal(1),
            Step::Literal(2),
            Step::Apply(BinOp::Mul, 1, 2),
            Step::Apply(BinOp::Add, 0, 3)
        ]
    );
    assert_eq!(p.outcome, Ok(4));
}

#[test]
fn plan_ignores_leftover_values() {
    let p = plan("1 2").unwrap();
    assert_eq!(p.steps, vec![Step::Literal(0), Step::Literal(1)]);
    assert_eq!(p.outcome, Ok(0));
}

#[test]
fn plan_missing_operands() {
    assert_eq!(plan("+").unwrap().outcome, Err(ShuntError::OperatorMissingNumbers));
    assert_eq!(plan("1*").unwrap().outcome, Err(ShuntError::OperatorMissingNumbers));
    assert_eq!(plan("\u{2013}").unwrap().outcome, Err(ShuntError::OperatorMissingNumbers));
}

#[test]
fn plan_stops_at_first_error() {
    let p = plan("1+*2").unwrap();
    assert_eq!(p.outcome, Err(ShuntError::OperatorMissingNumbers));
    assert_eq!(
        p.steps,
        vec![Step::Literal(0), Step::Literal(1), Step::Apply(BinOp::Mul, 0, 1)]
    );
    let q = plan_postfix(vec![lit(1), Token::Add, lit(2), lit(3)]);
    assert_eq!(q.outcome, Err(ShuntError::OperatorMissingNumbers));
    assert_eq!(q.steps, vec![Step::Literal(0)]);
}

#[test]
fn plan_parenthesis_in_postfix_is_internal_error() {
    assert_eq!(plan("())(").unwrap().outcome, Err(ShuntError::InternalError));
    let p = plan_postfix(vec![lit(1), lit(2), Token::Close]);
    assert_eq!(p.outcome, Err(ShuntError::InternalError));
}

#[test]
fn plan_empty_is_missing_number() {
    assert_eq!(plan("").unwrap().outcome, Err(ShuntError::MissingNumber));
    assert_eq!(plan("  ").unwrap().outcome, Err(ShuntError::MissingNumber));
}

#[test]
fn solve_addition() {
    assert_eq!(solve("2+3"), Ok(5.0));
}

#[test]
fn solve_precedence() {
    assert_eq!(solve("2+3*4"), Ok(14.0));
}

#[test]
fn solve_parentheses() {
    assert_eq!(solve("(2+3)*4"), Ok(20.0));
}

#[test]
fn solve_divide_by_zero() {
    assert_eq!(solve("5/0"), Err(ShuntError::DivideByZero));
}

#[test]
fn solve_unequal_parentheses() {
    assert_eq!(solve("(1+2"), Err(ShuntError::InequalParenthesis));
}

#[test]
fn solve_negation_applies_to_whole_sum() {
    assert_eq!(solve("\u{2013}5+3"), Ok(-8.0));
    assert_eq!(solve("(\u{2013}5)+3"), Ok(-2.0));
}

#[test]
fn solve_exponent_left_associative() {
    assert_eq!(solve("2^3^2"), Ok(64.0));
}

#[test]
fn solve_empty() {
    assert_eq!(solve(""), Err(ShuntError::MissingNumber));
}

#[test]
fn solve_repeated_calls_agree() {
    for text in ["2+3", "5/0", "(1+2", "1.5*4", ""] {
        assert_eq!(solve(text), solve(text));
        assert_eq!(plan(text), plan(text));
    }
}

#[test]
fn solve_decimals_and_division() {
    assert_eq!(solve("1.5*4"), Ok(6.0));
    assert_eq!(solve("7/2"), Ok(3.5));
    assert_eq!(solve("4^0.5"), Ok(2.0));
}

#[test]
fn solve_division_error_comes_before_missing_operand() {
    assert_eq!(solve("5/0+"), Err(ShuntError::DivideByZero));
    assert_eq!(solve("5/(1-1)"), Err(ShuntError::DivideByZero));
}
