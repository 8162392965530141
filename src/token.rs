use vstd::prelude::*;

verus! {

/// A lexical token of an arithmetic expression.
///
/// A `Number` keeps the text of its literal (digits, a point, digits); an
/// `IntLiteral` keeps the value of a run of digits.
#[derive(Debug, Clone, PartialEq)]
pub enum Token {
    Add,
    Sub,
    Mul,
    Div,
    Exp,
    Open,
    Close,
    Number(String),
    IntLiteral(i32),
    Neg,
    Invalid,
}

/// What a token is, with the text of a `Number` as a sequence of characters.
pub enum TokenView {
    Add,
    Sub,
    Mul,
    Div,
    Exp,
    Open,
    Close,
    Number(Seq<char>),
    IntLiteral(i32),
    Neg,
    Invalid,
}

impl View for Token {
    type V = TokenView;

    open spec fn view(&self) -> TokenView {
        match self {
            Token::Add => TokenView::Add,
            Token::Sub => TokenView::Sub,
            Token::Mul => TokenView::Mul,
            Token::Div => TokenView::Div,
            Token::Exp => TokenView::Exp,
            Token::Open => TokenView::Open,
            Token::Close => TokenView::Close,
            Token::Number(s) => TokenView::Number(s@),
            Token::IntLiteral(n) => TokenView::IntLiteral(*n),
            Token::Neg => TokenView::Neg,
            Token::Invalid => TokenView::Invalid,
        }
    }
}

/// The views of a sequence of tokens.
pub open spec fn views(ts: Seq<Token>) -> Seq<TokenView> {
    ts.map_values(|t: Token| t@)
}

impl TokenView {
    /// The precedence rank of an operator; `None` for parentheses, literals
    /// and invalid tokens.
    pub open spec fn rank(self) -> Option<i32> {
        match self {
            TokenView::Neg => Some(0i32),
            TokenView::Add | TokenView::Sub => Some(1i32),
            TokenView::Mul | TokenView::Div => Some(2i32),
            TokenView::Exp => Some(3i32),
            _ => None,
        }
    }

    /// A numeric literal.
    pub open spec fn is_literal(self) -> bool {
        self is Number || self is IntLiteral
    }

    /// A token that may appear in postfix order: a literal or an operator.
    pub open spec fn is_postfix_item(self) -> bool {
        self.is_literal() || self.rank() is Some
    }
}

impl Token {
    /// The precedence rank of an operator token.
    pub fn priority(&self) -> (r: Option<i32>)
        ensures
            r == self@.rank(),
    {
        match self {
            Token::Neg => Some(0),
            Token::Add | Token::Sub => Some(1),
            Token::Mul | Token::Div => Some(2),
            Token::Exp => Some(3),
            _ => None,
        }
    }
}

impl Token {
    /// A copy of the token.
    pub fn duplicate(&self) -> (r: Token)
        ensures
            r == *self,
    {
        match self {
            Token::Add => Token::Add,
            Token::Sub => Token::Sub,
            Token::Mul => Token::Mul,
            Token::Div => Token::Div,
            Token::Exp => Token::Exp,
            Token::Open => Token::Open,
            Token::Close => Token::Close,
            Token::Number(s) => Token::Number(s.clone()),
            Token::IntLiteral(n) => Token::IntLiteral(*n),
            Token::Neg => Token::Neg,
            Token::Invalid => Token::Invalid,
        }
    }
}

pub proof fn lemma_views_drop_last(ts: Seq<Token>)
    requires
        ts.len() > 0,
    ensures
        views(ts.drop_last()) == views(ts).drop_last(),
        views(ts).last() == ts.last()@,
{
    assert(views(ts.drop_last()) =~= views(ts).drop_last());
}

pub proof fn lemma_views_push(ts: Seq<Token>, t: Token)
    ensures
        views(ts.push(t)) == views(ts).push(t@),
{
    assert(views(ts.push(t)) =~= views(ts).push(t@));
}

} // verus!
