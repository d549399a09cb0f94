//! Tokens of the grammar surface syntax.

use vstd::prelude::*;

verus! {

/// Mathematical model of a token.
pub enum TokenView {
    LBrace,
    RBrace,
    LParen,
    RParen,
    Or,
    Comma,
    Colon,
    Def,
    LAngle,
    RAngle,
    Semi,
    Re,
    Int(usize),
    Id(Seq<char>),
    Str(Seq<char>),
}

/// One lexical token of the grammar text.
#[derive(Debug, Clone, PartialEq, Eq)]
pub enum Token {
    /// `{`
    LBrace,
    /// `}`
    RBrace,
    /// `(`
    LParen,
    /// `)`
    RParen,
    /// `|`
    Or,
    /// `,`
    Comma,
    /// `:`
    Colon,
    /// `::=`
    Def,
    /// `<`
    LAngle,
    /// `>`
    RAngle,
    /// `;`
    Semi,
    /// keyword `re`
    Re,
    /// an integer literal
    Int(usize),
    /// an identifier: letters, digits, `-` and `_`
    Id(String),
    /// a double-quoted string literal, with its escapes resolved
    Str(String),
}

impl View for Token {
    type V = TokenView;

    open spec fn view(&self) -> TokenView {
        match self {
            Token::LBrace => TokenView::LBrace,
            Token::RBrace => TokenView::RBrace,
            Token::LParen => TokenView::LParen,
            Token::RParen => TokenView::RParen,
            Token::Or => TokenView::Or,
            Token::Comma => TokenView::Comma,
            Token::Colon => TokenView::Colon,
            Token::Def => TokenView::Def,
            Token::LAngle => TokenView::LAngle,
            Token::RAngle => TokenView::RAngle,
            Token::Semi => TokenView::Semi,
            Token::Re => TokenView::Re,
            Token::Int(n) => TokenView::Int(*n),
            Token::Id(s) => TokenView::Id(s@),
            Token::Str(s) => TokenView::Str(s@),
        }
    }
}

} // verus!
