//! Tokens of the pattern language.
//!
//! The tokenizer classifies every character of a pattern: the seven
//! operator characters map to their operator tokens, every other character
//! becomes a literal. `End` is the end-of-input sentinel and never appears
//! mid-stream.

use vstd::prelude::*;

verus! {

/// One symbol of a pattern: an operator, a literal character, or the
/// end-of-input sentinel.
#[derive(Copy, Clone, PartialEq, Eq, Structural, Debug)]
pub enum Token {
    LeftParen,
    RightParen,
    Star,
    Alt,
    Concat,
    Plus,
    QMark,
    Char(char),
    End,
}

/// The token that classifies a single pattern character: operator
/// characters map to their operators, anything else is a literal.
pub open spec fn token_of(c: char) -> Token {
    if c == '(' {
        Token::LeftParen
    } else if c == ')' {
        Token::RightParen
    } else if c == '*' {
        Token::Star
    } else if c == '|' {
        Token::Alt
    } else if c == '.' {
        Token::Concat
    } else if c == '+' {
        Token::Plus
    } else if c == '?' {
        Token::QMark
    } else {
        Token::Char(c)
    }
}

/// The display symbol of each operator token; literals and the sentinel
/// have none.
pub open spec fn symbol_of(t: Token) -> Option<char> {
    match t {
        Token::LeftParen => Some('('),
        Token::RightParen => Some(')'),
        Token::Star => Some('*'),
        Token::Alt => Some('|'),
        Token::Concat => Some('.'),
        Token::Plus => Some('+'),
        Token::QMark => Some('?'),
        Token::Char(_) => None,
        Token::End => None,
    }
}

/// The name of each token variant.
pub open spec fn name_of(t: Token) -> Seq<char> {
    match t {
        Token::LeftParen => "LeftParen"@,
        Token::RightParen => "RightParen"@,
        Token::Star => "Star"@,
        Token::Alt => "Alt"@,
        Token::Concat => "Concat"@,
        Token::Plus => "Plus"@,
        Token::QMark => "QMark"@,
        Token::Char(_) => "Char"@,
        Token::End => "End"@,
    }
}

impl Token {
    /// The name of this token's variant.
    pub fn name(&self) -> (r: &'static str)
        ensures
            r@ == name_of(*self),
    {
        match self {
            Token::LeftParen => "LeftParen",
            Token::RightParen => "RightParen",
            Token::Star => "Star",
            Token::Alt => "Alt",
            Token::Concat => "Concat",
            Token::Plus => "Plus",
            Token::QMark => "QMark",
            Token::Char(_) => "Char",
            Token::End => "End",
        }
    }

    /// The display symbol of this token, for operator tokens.
    pub fn symbol(&self) -> (r: Option<char>)
        ensures
            r == symbol_of(*self),
    {
        match self {
            Token::LeftParen => Some('('),
            Token::RightParen => Some(')'),
            Token::Star => Some('*'),
            Token::Alt => Some('|'),
            Token::Concat => Some('.'),
            Token::Plus => Some('+'),
            Token::QMark => Some('?'),
            _ => None,
        }
    }
}

} // verus!
