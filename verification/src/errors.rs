//! Typed failures of pattern compilation.
//!
//! The tokenizer never fails — it only classifies characters — so the two
//! failure kinds are grammar mismatches found by the parser and malformed
//! postfix streams found by the automaton builder. Matching itself has no
//! error path.

use vstd::prelude::*;

verus! {

/// A grammar mismatch: an unmatched parenthesis, an operator in an operand
/// position, or premature end of input.
#[derive(Debug)]
pub struct ParseError {
    error: String,
}

impl View for ParseError {
    type V = Seq<char>;

    closed spec fn view(&self) -> Seq<char> {
        self.error@
    }
}

impl ParseError {
    /// A parse error carrying a description of what was expected versus found.
    pub fn new(error: String) -> (r: ParseError)
        ensures
            r@ == error@,
    {
        ParseError { error }
    }

    /// The human-readable description of the failure.
    pub fn message(&self) -> (r: &str)
        ensures
            r@ == self@,
    {
        self.error.as_str()
    }
}

/// A malformed postfix stream: an operator found fewer operand fragments on
/// the builder's stack than it requires, or more than one fragment remained
/// after the stream was exhausted.
#[derive(Debug)]
pub struct NfaConstructionError {
    error: String,
}

impl View for NfaConstructionError {
    type V = Seq<char>;

    closed spec fn view(&self) -> Seq<char> {
        self.error@
    }
}

impl NfaConstructionError {
    /// A construction error carrying a description of what was expected
    /// versus found.
    pub fn new(error: String) -> (r: NfaConstructionError)
        ensures
            r@ == error@,
    {
        NfaConstructionError { error }
    }

    /// The human-readable description of the failure.
    pub fn message(&self) -> (r: &str)
        ensures
            r@ == self@,
    {
        self.error.as_str()
    }
}

/// Everything that can go wrong between a pattern string and a runnable
/// automaton.
#[derive(Debug)]
pub enum CompileError {
    Parse(ParseError),
    Construction(NfaConstructionError),
}

impl CompileError {
    /// The human-readable description of the failure.
    pub fn message(&self) -> (r: &str)
        ensures
            r@ == match *self {
                CompileError::Parse(ref e) => e@,
                CompileError::Construction(ref e) => e@,
            },
    {
        match self {
            CompileError::Parse(e) => e.message(),
            CompileError::Construction(e) => e.message(),
        }
    }
}

} // verus!
