use vstd::prelude::*;
use crate::ShuntError;
use crate::lexer::{lex, tokenize, char_count, paren_count, is_paren_of, lemma_lex_parens};
use crate::token::{Token, TokenView, views, lemma_views_push, lemma_views_drop_last};

verus! {

/// The converter's state after part of the tokens: the operator stack (top
/// last), the postfix output so far, and the parentheses seen.
pub struct ShuntState {
    pub ops: Seq<TokenView>,
    pub out: Seq<TokenView>,
    pub opens: nat,
    pub closes: nat,
}

/// Moves operators from the top of `ops` to `out` while the top has a rank of
/// at least `p`; stops at the first token without a rank or of lower rank.
pub open spec fn pop_ranked(ops: Seq<TokenView>, out: Seq<TokenView>, p: i32) -> (Seq<
    TokenView,
>, Seq<TokenView>)
    decreases ops.len(),
{
    if ops.len() > 0 && ops.last().rank() is Some && ops.last().rank()->0 >= p {
        pop_ranked(ops.drop_last(), out.push(ops.last()), p)
    } else {
        (ops, out)
    }
}

/// Moves tokens from the top of `ops` to `out` until an `Open` is taken off,
/// which is dropped, or `ops` is empty.
pub open spec fn pop_to_open(ops: Seq<TokenView>, out: Seq<TokenView>) -> (Seq<TokenView>, Seq<
    TokenView,
>)
    decreases ops.len(),
{
    if ops.len() == 0 {
        (ops, out)
    } else if ops.last() is Open {
        (ops.drop_last(), out)
    } else {
        pop_to_open(ops.drop_last(), out.push(ops.last()))
    }
}

/// Moves every token of `ops` to `out`, top first.
pub open spec fn drain(ops: Seq<TokenView>, out: Seq<TokenView>) -> Seq<TokenView>
    decreases ops.len(),
{
    if ops.len() == 0 {
        out
    } else {
        drain(ops.drop_last(), out.push(ops.last()))
    }
}

/// The converter's state after one more token. Invalid tokens change nothing.
pub open spec fn shunt_step(st: ShuntState, t: TokenView) -> ShuntState {
    match t.rank() {
        Some(p) => {
            let (ops, out) = pop_ranked(st.ops, st.out, p);
            ShuntState { ops: ops.push(t), out, ..st }
        },
        None => match t {
            TokenView::Open => ShuntState { ops: st.ops.push(t), opens: st.opens + 1, ..st },
            TokenView::Close => {
                let (ops, out) = pop_to_open(st.ops, st.out);
                ShuntState { ops, out, closes: st.closes + 1, ..st }
            },
            TokenView::Number(_) | TokenView::IntLiteral(_) => ShuntState {
                out: st.out.push(t),
                ..st
            },
            _ => st,
        },
    }
}

/// The converter's state after the tokens `ts`, in order.
pub open spec fn shunt_prefix(ts: Seq<TokenView>) -> ShuntState
    decreases ts.len(),
{
    if ts.len() == 0 {
        ShuntState { ops: seq![], out: seq![], opens: 0, closes: 0 }
    } else {
        shunt_step(shunt_prefix(ts.drop_last()), ts.last())
    }
}

/// The postfix order of the tokens `ts`, or `InequalParenthesis` where they
/// hold unequal numbers of `Open` and `Close`.
pub open spec fn shunt_tokens(ts: Seq<TokenView>) -> Result<Seq<TokenView>, ShuntError> {
    let st = shunt_prefix(ts);
    if st.opens != st.closes {
        Err(ShuntError::InequalParenthesis)
    } else {
        Ok(drain(st.ops, st.out))
    }
}

/// The postfix order of the expression `s`.
pub open spec fn shunt_text(s: Seq<char>) -> Result<Seq<TokenView>, ShuntError> {
    shunt_tokens(lex(s))
}

/// A result with its tokens replaced by their views.
pub open spec fn result_views(r: Result<Vec<Token>, ShuntError>) -> Result<
    Seq<TokenView>,
    ShuntError,
> {
    match r {
        Ok(v) => Ok(views(v@)),
        Err(e) => Err(e),
    }
}

/// Whether the top of `ops` is an operator of rank at least `p`.
fn top_ranks_at_least(ops: &Vec<Token>, p: i32) -> (r: bool)
    ensures
        r == (ops@.len() > 0 && ops@.last()@.rank() is Some && ops@.last()@.rank()->0 >= p),
{
    if ops.len() == 0 {
        false
    } else {
        match ops[ops.len() - 1].priority() {
            Some(q) => q >= p,
            None => false,
        }
    }
}

/// Converts an infix expression to postfix order by the shunting-yard
/// algorithm. Every operator is left-associative; `Neg` has the lowest rank.
/// Parentheses are checked by count only.
pub fn shunt(input: &str) -> (r: Result<Vec<Token>, ShuntError>)
    ensures
        result_views(r) == shunt_text(input@),
{
    let tokens = tokenize(input);
    let ghost ts = views(tokens@);
    let mut opstack: Vec<Token> = Vec::new();
    let mut postfix: Vec<Token> = Vec::new();
    let mut opens: u64 = 0;
    let mut closes: u64 = 0;
    let mut i: usize = 0;
    while i < tokens.len()
        invariant
            i <= tokens@.len(),
            ts == views(tokens@),
            ts == lex(input@),
            opens <= i,
            closes <= i,
            ({
                let st = shunt_prefix(ts.take(i as int));
                &&& views(opstack@) == st.ops
                &&& views(postfix@) == st.out
                &&& opens == st.opens
                &&& closes == st.closes
            }),
        decreases tokens@.len() - i,
    {
        let ghost st = shunt_prefix(ts.take(i as int));
        assert(ts.take(i + 1).drop_last() =~= ts.take(i as int));
        assert(ts.take(i + 1).last() == tokens@[i as int]@);
        let token = tokens[i].duplicate();
        match token.priority() {
            Some(p) => {
                let ghost target = pop_ranked(st.ops, st.out, p);
                while top_ranks_at_least(&opstack, p)
                    invariant
                        pop_ranked(views(opstack@), views(postfix@), p) == target,
                    decreases opstack@.len(),
                {
                    proof {
                        lemma_views_drop_last(opstack@);
                    }
                    let top = opstack.pop().unwrap();
                    proof {
                        lemma_views_push(postfix@, top);
                    }
                    postfix.push(top);
                }
                proof {
                    lemma_views_push(opstack@, token);
                }
                opstack.push(token);
            },
            None => {
                match token {
                    Token::Close => {
                        closes = closes + 1;
                        let ghost target = pop_to_open(st.ops, st.out);
                        loop
                            invariant_except_break
                                pop_to_open(views(opstack@), views(postfix@)) == target,
                            ensures
                                views(opstack@) == target.0,
                                views(postfix@) == target.1,
                            decreases opstack@.len(),
                        {
                            if opstack.len() == 0 {
                                break;
                            }
                            proof {
                                lemma_views_drop_last(opstack@);
                            }
                            let top = opstack.pop().unwrap();
                            if let Token::Open = top {
                                break;
                            }
                            proof {
                                lemma_views_push(postfix@, top);
                            }
                            postfix.push(top);
                        }
                    },
                    Token::Open => {
                        opens = opens + 1;
                        proof {
                            lemma_views_push(opstack@, token);
                        }
                        opstack.push(token);
                    },
                    Token::Number(_) | Token::IntLiteral(_) => {
                        proof {
                            lemma_views_push(postfix@, token);
                        }
                        postfix.push(token);
                    },
                    _ => {},
                }
            },
        }
        i = i + 1;
    }
    assert(ts.take(i as int) =~= ts);
    let ghost st = shunt_prefix(ts);
    while opstack.len() > 0
        invariant
            drain(views(opstack@), views(postfix@)) == drain(st.ops, st.out),
        decreases opstack@.len(),
    {
        proof {
            lemma_views_drop_last(opstack@);
        }
        let top = opstack.pop().unwrap();
        proof {
            lemma_views_push(postfix@, top);
        }
        postfix.push(top);
    }
    if opens != closes {
        return Err(ShuntError::InequalParenthesis);
    }
    Ok(postfix)
}

/// The converter counts exactly the parenthesis tokens it is given.
pub proof fn lemma_shunt_counts(ts: Seq<TokenView>)
    ensures
        shunt_prefix(ts).opens == paren_count(ts, '('),
        shunt_prefix(ts).closes == paren_count(ts, ')'),
    decreases ts.len(),
{
    if ts.len() > 0 {
        lemma_shunt_counts(ts.drop_last());
    }
}

/// An expression with as many opening as closing parentheses always converts
/// to postfix order: `InequalParenthesis` comes only from unequal counts.
pub proof fn lemma_equal_parens_shunt(s: Seq<char>)
    requires
        char_count(s, '(') == char_count(s, ')'),
    ensures
        shunt_text(s) is Ok,
{
    lemma_lex_parens(s, '(');
    lemma_lex_parens(s, ')');
    lemma_shunt_counts(lex(s));
}

/// Every token of `s` is a literal or an operator.
pub open spec fn all_postfix_items(s: Seq<TokenView>) -> bool {
    forall|k: int| 0 <= k < s.len() ==> (#[trigger] s[k]).is_postfix_item()
}

/// Every token of `s` is an operator or an `Open`.
pub open spec fn all_stackable(s: Seq<TokenView>) -> bool {
    forall|k: int| 0 <= k < s.len() ==> (#[trigger] s[k]).rank() is Some || s[k] is Open
}

/// The parenthesis tokens of `ts` nest: no prefix closes more than it opens,
/// and the whole opens as many as it closes.
pub open spec fn parens_nest(ts: Seq<TokenView>) -> bool {
    &&& forall|n: int|
        0 <= n <= ts.len() ==> paren_count(#[trigger] ts.take(n), ')') <= paren_count(
            ts.take(n),
            '(',
        )
    &&& paren_count(ts, '(') == paren_count(ts, ')')
}

proof fn lemma_paren_count_push(s: Seq<TokenView>, t: TokenView, c: char)
    ensures
        paren_count(s.push(t), c) == paren_count(s, c) + if is_paren_of(t, c) {
            1nat
        } else {
            0nat
        },
{
    assert(s.push(t).drop_last() =~= s);
}

proof fn lemma_pop_ranked_items(ops: Seq<TokenView>, out: Seq<TokenView>, p: i32)
    requires
        all_stackable(ops),
        all_postfix_items(out),
    ensures
        all_stackable(pop_ranked(ops, out, p).0),
        all_postfix_items(pop_ranked(ops, out, p).1),
        paren_count(pop_ranked(ops, out, p).0, '(') == paren_count(ops, '('),
    decreases ops.len(),
{
    if ops.len() > 0 && ops.last().rank() is Some && ops.last().rank()->0 >= p {
        assert(ops.drop_last().push(ops.last()) =~= ops);
        lemma_paren_count_push(ops.drop_last(), ops.last(), '(');
        lemma_pop_ranked_items(ops.drop_last(), out.push(ops.last()), p);
    }
}

proof fn lemma_pop_to_open_items(ops: Seq<TokenView>, out: Seq<TokenView>)
    requires
        all_stackable(ops),
        all_postfix_items(out),
        paren_count(ops, '(') > 0,
    ensures
        all_stackable(pop_to_open(ops, out).0),
        all_postfix_items(pop_to_open(ops, out).1),
        paren_count(pop_to_open(ops, out).0, '(') + 1 == paren_count(ops, '('),
    decreases ops.len(),
{
    assert(ops.drop_last().push(ops.last()) =~= ops);
    lemma_paren_count_push(ops.drop_last(), ops.last(), '(');
    if !(ops.last() is Open) {
        lemma_pop_to_open_items(ops.drop_last(), out.push(ops.last()));
    }
}

proof fn lemma_drain_items(ops: Seq<TokenView>, out: Seq<TokenView>)
    requires
        all_stackable(ops),
        all_postfix_items(out),
        paren_count(ops, '(') == 0,
    ensures
        all_postfix_items(drain(ops, out)),
    decreases ops.len(),
{
    if ops.len() > 0 {
        assert(ops.drop_last().push(ops.last()) =~= ops);
        lemma_paren_count_push(ops.drop_last(), ops.last(), '(');
        lemma_drain_items(ops.drop_last(), out.push(ops.last()));
    }
}

proof fn lemma_shunt_prefix_items(ts: Seq<TokenView>)
    requires
        forall|n: int|
            0 <= n <= ts.len() ==> paren_count(#[trigger] ts.take(n), ')') <= paren_count(
                ts.take(n),
                '(',
            ),
    ensures
        all_stackable(shunt_prefix(ts).ops),
        all_postfix_items(shunt_prefix(ts).out),
        paren_count(shunt_prefix(ts).ops, '(') + shunt_prefix(ts).closes
            == shunt_prefix(ts).opens,
    decreases ts.len(),
{
    lemma_shunt_counts(ts);
    if ts.len() > 0 {
        let prev = ts.drop_last();
        assert forall|n: int| 0 <= n <= prev.len() implies paren_count(
            #[trigger] prev.take(n),
            ')',
        ) <= paren_count(prev.take(n), '(') by {
            assert(prev.take(n) =~= ts.take(n));
        }
        lemma_shunt_prefix_items(prev);
        lemma_shunt_counts(prev);
        let st = shunt_prefix(prev);
        let t = ts.last();
        assert(ts.take(ts.len() as int) =~= ts);
        assert(prev.push(t) =~= ts);
        lemma_paren_count_push(prev, t, '(');
        lemma_paren_count_push(prev, t, ')');
        match t.rank() {
            Some(p) => {
                lemma_pop_ranked_items(st.ops, st.out, p);
                let (ops, out) = pop_ranked(st.ops, st.out, p);
                lemma_paren_count_push(ops, t, '(');
            },
            None => {
                if t is Open {
                    lemma_paren_count_push(st.ops, t, '(');
                } else if t is Close {
                    lemma_pop_to_open_items(st.ops, st.out);
                }
            },
        }
    }
}

/// Where the parentheses nest, the postfix order holds only literals and
/// operators: no parenthesis and no invalid token reaches the evaluator.
pub proof fn lemma_nested_postfix_items(ts: Seq<TokenView>)
    requires
        parens_nest(ts),
    ensures
        shunt_tokens(ts) is Ok,
        all_postfix_items(shunt_tokens(ts)->Ok_0),
{
    lemma_shunt_counts(ts);
    lemma_shunt_prefix_items(ts);
    let st = shunt_prefix(ts);
    lemma_drain_items(st.ops, st.out);
}

} // verus!
