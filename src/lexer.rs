use vstd::prelude::*;
use crate::token::{Token, TokenView, views, lemma_views_push};
use vstd::std_specs::iter::IteratorSpec;

verus! {

broadcast use vstd::string::axiom_spec_iter, vstd::string::next_postcondition;

/// The glyph of unary negation, distinct from the hyphen-minus of subtraction.
pub const NEG_GLYPH: char = '\u{2013}';

pub open spec fn is_digit(c: char) -> bool {
    '0' <= c && c <= '9'
}

/// The index just past the run of digits that starts at `i`.
pub open spec fn digits_end(s: Seq<char>, i: int) -> int
    decreases s.len() - i,
{
    if 0 <= i < s.len() && is_digit(s[i]) {
        digits_end(s, i + 1)
    } else {
        i
    }
}

pub proof fn lemma_digits_end(s: Seq<char>, i: int)
    requires
        0 <= i <= s.len(),
    ensures
        i <= digits_end(s, i) <= s.len(),
        i < s.len() && is_digit(s[i]) ==> i < digits_end(s, i),
    decreases s.len() - i,
{
    if i < s.len() && is_digit(s[i]) {
        lemma_digits_end(s, i + 1);
    }
}

/// The value of a sequence of decimal digits.
pub open spec fn digits_value(d: Seq<char>) -> nat
    decreases d.len(),
{
    if d.len() == 0 {
        0
    } else {
        digits_value(d.drop_last()) * 10 + (d.last() as nat - '0' as nat) as nat
    }
}

/// The token of a run of digits with no fractional part: its value, or
/// `Invalid` where it does not fit an `i32`.
pub open spec fn int_token(d: Seq<char>) -> TokenView {
    if digits_value(d) <= i32::MAX {
        TokenView::IntLiteral(digits_value(d) as i32)
    } else {
        TokenView::Invalid
    }
}

/// The token of a single character that starts no literal.
pub open spec fn symbol_token(c: char) -> TokenView {
    if c == '+' {
        TokenView::Add
    } else if c == '-' {
        TokenView::Sub
    } else if c == '*' {
        TokenView::Mul
    } else if c == '/' {
        TokenView::Div
    } else if c == '^' {
        TokenView::Exp
    } else if c == '(' {
        TokenView::Open
    } else if c == ')' {
        TokenView::Close
    } else if c == NEG_GLYPH {
        TokenView::Neg
    } else {
        TokenView::Invalid
    }
}

/// Where a decimal literal starting at `i` ends: after its digits, and after a
/// point and a second run of digits where at least one digit follows the point.
pub open spec fn literal_end(s: Seq<char>, i: int) -> int {
    let j = digits_end(s, i);
    if j < s.len() && j + 1 < s.len() && s[j] == '.' && is_digit(s[j + 1]) {
        digits_end(s, j + 1)
    } else {
        j
    }
}

/// Whether the literal starting at `i` has a fractional part.
pub open spec fn literal_is_number(s: Seq<char>, i: int) -> bool {
    literal_end(s, i) != digits_end(s, i)
}

/// The tokens of `s` from index `i` on, each literal taken greedily.
pub open spec fn lex_from(s: Seq<char>, i: int) -> Seq<TokenView>
    decreases s.len() - i,
    when 0 <= i
    via lex_from_decreases
{
    if i >= s.len() {
        seq![]
    } else if is_digit(s[i]) {
        let k = literal_end(s, i);
        let t = if literal_is_number(s, i) {
            TokenView::Number(s.subrange(i, k))
        } else {
            int_token(s.subrange(i, k))
        };
        seq![t] + lex_from(s, k)
    } else {
        seq![symbol_token(s[i])] + lex_from(s, i + 1)
    }
}

#[via_fn]
proof fn lex_from_decreases(s: Seq<char>, i: int) {
    if 0 <= i < s.len() && is_digit(s[i]) {
        lemma_literal_end(s, i);
    }
}

pub proof fn lemma_literal_end(s: Seq<char>, i: int)
    requires
        0 <= i < s.len(),
        is_digit(s[i]),
    ensures
        i < digits_end(s, i) <= literal_end(s, i) <= s.len(),
{
    lemma_digits_end(s, i);
    let j = digits_end(s, i);
    if j < s.len() && j + 1 < s.len() && s[j] == '.' && is_digit(s[j + 1]) {
        lemma_digits_end(s, j + 1);
    }
}

/// The tokens of a whole text, invalid ones included.
pub open spec fn lex(s: Seq<char>) -> Seq<TokenView> {
    lex_from(s, 0)
}

/// The characters of a text, in order.
fn chars_of(input: &str) -> (r: Vec<char>)
    ensures
        r@ == input@,
{
    let mut out: Vec<char> = Vec::new();
    let mut it = input.chars();
    loop
        invariant
            it.obeys_prophetic_iter_laws(),
            out@ + it.remaining() == input@,
            it.decrease() is Some,
        ensures
            out@ == input@,
        decreases it.decrease()->0,
    {
        match it.next() {
            Some(c) => {
                out.push(c);
            },
            None => {
                assert(out@ + it.remaining() =~= out@);
                break;
            },
        }
    }
    out
}

/// The index just past the run of digits of `s` that starts at `i`.
fn scan_digits(s: &Vec<char>, i: usize) -> (r: usize)
    requires
        i <= s@.len(),
    ensures
        r as int == digits_end(s@, i as int),
        i <= r <= s@.len(),
{
    let mut j: usize = i;
    while j < s.len() && '0' <= s[j] && s[j] <= '9'
        invariant
            i <= j <= s@.len(),
            digits_end(s@, j as int) == digits_end(s@, i as int),
        decreases s@.len() - j,
    {
        j = j + 1;
    }
    j
}

/// The token of the digits `s[i..j]`.
fn int_literal(s: &Vec<char>, i: usize, j: usize) -> (r: Token)
    requires
        i <= j <= s@.len(),
        forall|k: int| i <= k < j ==> is_digit(#[trigger] s@[k]),
    ensures
        r@ == int_token(s@.subrange(i as int, j as int)),
{
    let mut value: u64 = 0;
    let mut too_large = false;
    let mut k: usize = i;
    while k < j
        invariant
            i <= k <= j <= s@.len(),
            forall|m: int| i <= m < j ==> is_digit(#[trigger] s@[m]),
            !too_large ==> value as nat == digits_value(s@.subrange(i as int, k as int)),
            !too_large ==> value <= i32::MAX,
            too_large ==> digits_value(s@.subrange(i as int, k as int)) > i32::MAX,
        decreases j - k,
    {
        let ghost prev = s@.subrange(i as int, k as int);
        let ghost next = s@.subrange(i as int, k + 1);
        assert(next.drop_last() =~= prev);
        assert(next.last() == s@[k as int]);
        assert(is_digit(s@[k as int]));
        if !too_large {
            let digit = (s[k] as u32 - '0' as u32) as u64;
            value = value * 10 + digit;
            if value > i32::MAX as u64 {
                too_large = true;
            }
        }
        k = k + 1;
    }
    if too_large {
        Token::Invalid
    } else {
        Token::IntLiteral(value as i32)
    }
}

/// The token of a character that starts no literal.
fn symbol(c: char) -> (r: Token)
    ensures
        r@ == symbol_token(c),
{
    if c == '+' {
        Token::Add
    } else if c == '-' {
        Token::Sub
    } else if c == '*' {
        Token::Mul
    } else if c == '/' {
        Token::Div
    } else if c == '^' {
        Token::Exp
    } else if c == '(' {
        Token::Open
    } else if c == ')' {
        Token::Close
    } else if c == NEG_GLYPH {
        Token::Neg
    } else {
        Token::Invalid
    }
}

/// Splits a text into tokens in one forward pass. Each run of digits, with a
/// point and more digits where they follow, is one literal; each other
/// character is one token, `Invalid` where it is no symbol of the language.
pub fn tokenize(input: &str) -> (r: Vec<Token>)
    ensures
        views(r@) == lex(input@),
{
    let s = chars_of(input);
    let mut out: Vec<Token> = Vec::new();
    let mut i: usize = 0;
    assert(views(out@) =~= seq![]);
    while i < s.len()
        invariant
            i <= s@.len(),
            s@ == input@,
            views(out@) + lex_from(s@, i as int) == lex(s@),
        decreases s@.len() - i,
    {
        let c = s[i];
        if '0' <= c && c <= '9' {
            proof {
                lemma_literal_end(s@, i as int);
            }
            let j = scan_digits(&s, i);
            let k: usize;
            let t: Token;
            if j < s.len() && j + 1 < s.len() && s[j] == '.' && '0' <= s[j + 1] && s[j + 1] <= '9' {
                k = scan_digits(&s, j + 1);
                t = Token::Number(String::from_str(input.substring_char(i, k)));
            } else {
                k = j;
                proof {
                    assert forall|m: int| i <= m < j implies is_digit(#[trigger] s@[m]) by {
                        lemma_digits_run(s@, i as int, m);
                    }
                }
                t = int_literal(&s, i, j);
            }
            assert(lex_from(s@, i as int) == seq![t@] + lex_from(s@, k as int));
            proof {
                lemma_views_push(out@, t);
            }
            out.push(t);
            assert(views(out@) + lex_from(s@, k as int) =~= lex(s@));
            i = k;
        } else {
            let t = symbol(c);
            proof {
                lemma_views_push(out@, t);
            }
            out.push(t);
            assert(views(out@) + lex_from(s@, i + 1) =~= lex(s@));
            i = i + 1;
        }
    }
    assert(lex_from(s@, i as int) =~= seq![]);
    assert(views(out@) =~= lex(s@));
    out
}

proof fn lemma_digits_run(s: Seq<char>, i: int, m: int)
    requires
        0 <= i <= m < digits_end(s, i),
    ensures
        is_digit(s[m]),
    decreases m - i,
{
    if m > i {
        lemma_digits_run(s, i + 1, m);
    }
}

/// How many times `c` occurs in `s`.
pub open spec fn char_count(s: Seq<char>, c: char) -> nat
    decreases s.len(),
{
    if s.len() == 0 {
        0
    } else {
        char_count(s.drop_last(), c) + if s.last() == c {
            1nat
        } else {
            0nat
        }
    }
}

/// Whether `t` is the parenthesis token written with the character `c`.
pub open spec fn is_paren_of(t: TokenView, c: char) -> bool {
    (c == '(' && t is Open) || (c == ')' && t is Close)
}

/// How many tokens of `ts` are the parenthesis written with `c`.
pub open spec fn paren_count(ts: Seq<TokenView>, c: char) -> nat
    decreases ts.len(),
{
    if ts.len() == 0 {
        0
    } else {
        paren_count(ts.drop_last(), c) + if is_paren_of(ts.last(), c) {
            1nat
        } else {
            0nat
        }
    }
}

pub proof fn lemma_char_count_add(a: Seq<char>, b: Seq<char>, c: char)
    ensures
        char_count(a + b, c) == char_count(a, c) + char_count(b, c),
    decreases b.len(),
{
    if b.len() == 0 {
        assert(a + b =~= a);
    } else {
        assert((a + b).drop_last() =~= a + b.drop_last());
        lemma_char_count_add(a, b.drop_last(), c);
    }
}

pub proof fn lemma_paren_count_add(a: Seq<TokenView>, b: Seq<TokenView>, c: char)
    ensures
        paren_count(a + b, c) == paren_count(a, c) + paren_count(b, c),
    decreases b.len(),
{
    if b.len() == 0 {
        assert(a + b =~= a);
    } else {
        assert((a + b).drop_last() =~= a + b.drop_last());
        lemma_paren_count_add(a, b.drop_last(), c);
    }
}

proof fn lemma_char_count_absent(s: Seq<char>, c: char)
    requires
        forall|m: int| 0 <= m < s.len() ==> s[m] != c,
    ensures
        char_count(s, c) == 0,
    decreases s.len(),
{
    if s.len() > 0 {
        lemma_char_count_absent(s.drop_last(), c);
    }
}

/// A literal holds no parenthesis.
proof fn lemma_literal_has_no_paren(s: Seq<char>, i: int, c: char)
    requires
        0 <= i < s.len(),
        is_digit(s[i]),
        c == '(' || c == ')',
    ensures
        char_count(s.subrange(i, literal_end(s, i)), c) == 0,
{
    lemma_literal_end(s, i);
    let j = digits_end(s, i);
    let k = literal_end(s, i);
    assert forall|m: int| 0 <= m < k - i implies s.subrange(i, k)[m] != c by {
        if i + m < j {
            lemma_digits_run(s, i, i + m);
        } else if i + m > j {
            lemma_digits_end(s, j + 1);
            lemma_digits_run(s, j + 1, i + m);
        }
    }
    lemma_char_count_absent(s.subrange(i, k), c);
}

/// Each parenthesis character of the text becomes one parenthesis token.
pub proof fn lemma_lex_from_parens(s: Seq<char>, i: int, c: char)
    requires
        0 <= i <= s.len(),
        c == '(' || c == ')',
    ensures
        paren_count(lex_from(s, i), c) == char_count(s.subrange(i, s.len() as int), c),
    decreases s.len() - i,
{
    if i == s.len() {
        assert(s.subrange(i, s.len() as int) =~= seq![]);
    } else {
        let k = if is_digit(s[i]) {
            lemma_literal_end(s, i);
            literal_end(s, i)
        } else {
            i + 1
        };
        let t = lex_from(s, i)[0];
        assert(lex_from(s, i) =~= seq![t] + lex_from(s, k));
        lemma_lex_from_parens(s, k, c);
        lemma_paren_count_add(seq![t], lex_from(s, k), c);
        assert(seq![t].drop_last() =~= seq![]);
        assert(s.subrange(i, s.len() as int) =~= s.subrange(i, k) + s.subrange(k, s.len() as int));
        lemma_char_count_add(s.subrange(i, k), s.subrange(k, s.len() as int), c);
        reveal_with_fuel(paren_count, 2);
        reveal_with_fuel(char_count, 2);
        assert(paren_count(seq![t], c) == if is_paren_of(t, c) { 1nat } else { 0nat });
        if is_digit(s[i]) {
            lemma_literal_has_no_paren(s, i, c);
            assert(!is_paren_of(t, c));
        } else {
            assert(t == symbol_token(s[i]));
            assert(s.subrange(i, k).drop_last() =~= seq![]);
            assert(s.subrange(i, k).last() == s[i]);
            assert(char_count(s.subrange(i, k), c) == if s[i] == c { 1nat } else { 0nat });
        }
    }
}

/// The tokens of a text hold as many parenthesis tokens of each kind as the
/// text holds parenthesis characters of that kind.
pub proof fn lemma_lex_parens(s: Seq<char>, c: char)
    requires
        c == '(' || c == ')',
    ensures
        paren_count(lex(s), c) == char_count(s, c),
{
    lemma_lex_from_parens(s, 0, c);
    assert(s.subrange(0, s.len() as int) =~= s);
}

} // verus!
