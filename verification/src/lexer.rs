//! The tokenizer.
//!
//! A scan cursor over the pattern string: each call of `get_token`
//! classifies the character under the cursor — via the constant symbol
//! table that [`token_of`] states — and advances, or reports end of input
//! once the cursor has passed the last character. The tokenizer never
//! fails.

use vstd::prelude::*;

use crate::token::{token_of, Token};

verus! {

/// Classifies one pattern character.
pub fn token_from_char(c: char) -> (t: Token)
    ensures
        t == token_of(c),
{
    if c == '(' {
        Token::LeftParen
    } else if c == ')' {
        Token::RightParen
    } else if c == '*' {
        Token::Star
    } else if c == '|' {
        Token::Alt
    } else if c == '.' {
        Token::Concat
    } else if c == '+' {
        Token::Plus
    } else if c == '?' {
        Token::QMark
    } else {
        Token::Char(c)
    }
}

/// The scan state: the pattern and the cursor, the index of the next
/// character to classify.
pub struct Lexer {
    pub pattern: String,
    pub current: usize,
}

impl Lexer {
    /// A tokenizer at the start of `pattern`.
    pub fn new(pattern: String) -> (l: Lexer)
        ensures
            l.pattern@ == pattern@,
            l.current == 0,
    {
        Lexer { pattern, current: 0 }
    }

    /// The token under the cursor, advancing past it; the end-of-input
    /// sentinel, without moving, once the pattern is exhausted.
    pub fn get_token(&mut self) -> (t: Token)
        ensures
            final(self).pattern@ == old(self).pattern@,
            if old(self).current < old(self).pattern@.len() {
                t == token_of(old(self).pattern@[old(self).current as int]) && final(self).current
                    == old(self).current + 1
            } else {
                t == Token::End && final(self).current == old(self).current
            },
    {
        let len = self.pattern.as_str().unicode_len();
        if self.current < len {
            let c = self.pattern.as_str().get_char(self.current);
            self.current = self.current + 1;
            token_from_char(c)
        } else {
            Token::End
        }
    }
}

} // verus!
