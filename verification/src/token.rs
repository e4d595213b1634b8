//! Tokens, their mathematical views, and the errors of the two phases.

use vstd::prelude::*;

verus! {

/// One classified lexical unit of an expression.
///
/// A number literal keeps the run of decimal digits it was scanned from; its
/// numeric value is whatever that decimal numeral denotes.
#[derive(Debug, Clone, PartialEq, Eq)]
pub enum Token {
    Number(Vec<char>),
    Plus,
    Minus,
    Multiply,
    Divide,
    LeftParen,
    RightParen,
}

/// The mathematical value of a [`Token`].
pub enum TokenView {
    Number(Seq<char>),
    Plus,
    Minus,
    Multiply,
    Divide,
    LeftParen,
    RightParen,
}

impl View for Token {
    type V = TokenView;

    open spec fn view(&self) -> TokenView {
        match *self {
            Token::Number(digits) => TokenView::Number(digits@),
            Token::Plus => TokenView::Plus,
            Token::Minus => TokenView::Minus,
            Token::Multiply => TokenView::Multiply,
            Token::Divide => TokenView::Divide,
            Token::LeftParen => TokenView::LeftParen,
            Token::RightParen => TokenView::RightParen,
        }
    }
}

/// The views of a sequence of tokens, in order.
pub open spec fn token_views(tokens: Seq<Token>) -> Seq<TokenView> {
    Seq::new(tokens.len(), |i: int| tokens[i]@)
}

/// A failure of the scanner.
#[derive(Debug, Clone, Copy, PartialEq, Eq)]
pub enum LexError {
    /// A character that is neither a digit, an operator, a parenthesis nor a
    /// space, with its zero-based position counted in characters.
    UnexpectedCharacter(char, usize),
}

/// A failure of the evaluator.
#[derive(Debug, Clone, Copy, PartialEq, Eq)]
pub enum EvalError {
    /// An operator was applied, or the result was taken, with too few
    /// operands on the operand stack.
    EmptyOperandStack,
    /// A closing parenthesis had no open parenthesis before it.
    UnmatchedRightParen,
    /// An open parenthesis was never closed.
    UnmatchedLeftParen,
    /// More than one operand was left when the tokens ran out.
    MalformedResult,
}

/// The binding strength of a token: 1 for `+` and `-`, 2 for `*` and `/`,
/// and 0 for everything that is not a binary operator.
pub open spec fn precedence_spec(token: TokenView) -> u8 {
    match token {
        TokenView::Plus | TokenView::Minus => 1,
        TokenView::Multiply | TokenView::Divide => 2,
        _ => 0,
    }
}

/// Whether a token is one of the four binary operators.
pub open spec fn is_operator(token: TokenView) -> bool {
    token is Plus || token is Minus || token is Multiply || token is Divide
}

/// Returns the binding strength of `token`.
pub fn precedence(token: &Token) -> (rank: u8)
    ensures
        rank == precedence_spec(token@),
        rank > 0 <==> is_operator(token@),
{
    match token {
        Token::Plus | Token::Minus => 1,
        Token::Multiply | Token::Divide => 2,
        _ => 0,
    }
}

} // verus!
