//! The parser.
//!
//! A recursive-descent parser for the grammar
//!
//! ```text
//! Exp     → Term ('|' Exp)?
//! Term    → Factor Term?
//! Factor  → Primary ('*' | '+' | '?')?
//! Primary → literal | '(' Exp ')'
//! ```
//!
//! emitting the postfix token stream directly: operands before their
//! operator, with an explicit concatenation token between adjacent terms.
//! Alternation chains associate to the right; repeated terms associate to
//! the right as well, which changes nothing of the emitted language.
//! There is no escape production: the alphabet is exactly the seven
//! operator characters plus literals, and a backslash is an ordinary
//! literal.
//!
//! The spec functions below state the grammar as partial functions from a
//! position in the pattern to the emitted tokens and the position after the
//! parsed phrase; `None` is a grammar mismatch. The `Parser` methods are
//! proved to implement them exactly, so `parse` succeeds if and only if the
//! whole pattern derives from `Exp`.

use vstd::prelude::*;

use crate::builder::{build_tokens, lemma_build_append, BuildState};
use crate::errors::ParseError;
use crate::lexer::Lexer;
use crate::token::{token_of, Token};

verus! {

/// Is `c` one of the three repetition operators?
pub open spec fn is_meta(c: char) -> bool {
    c == '*' || c == '+' || c == '?'
}

/// `Primary → literal | '(' Exp ')'`.
pub open spec fn spec_primary(s: Seq<char>, i: int) -> Option<(Seq<Token>, int)>
    decreases s.len() - i, 0int,
{
    if i < 0 || i >= s.len() {
        None
    } else if s[i] == '(' {
        match spec_exp(s, i + 1) {
            Some((t, j)) => if j < s.len() && s[j] == ')' {
                Some((t, j + 1))
            } else {
                None
            },
            None => None,
        }
    } else if token_of(s[i]) is Char {
        Some((seq![Token::Char(s[i])], i + 1))
    } else {
        None
    }
}

/// `Factor → Primary ('*' | '+' | '?')?`; the operator is emitted after
/// its operand.
pub open spec fn spec_factor(s: Seq<char>, i: int) -> Option<(Seq<Token>, int)>
    decreases s.len() - i, 1int,
{
    match spec_primary(s, i) {
        Some((t, j)) => if j < s.len() && is_meta(s[j]) {
            Some((t.push(token_of(s[j])), j + 1))
        } else {
            Some((t, j))
        },
        None => None,
    }
}

/// `Term → Factor Term?`: factors concatenate as long as the lookahead
/// starts another factor; the concatenation operator is emitted after both
/// operands. The position guard before the recursive call only discharges
/// its termination; `lemma_factor_advances` shows a parsed factor always
/// moves forward, so the guard never fails.
pub open spec fn spec_term(s: Seq<char>, i: int) -> Option<(Seq<Token>, int)>
    decreases s.len() - i, 2int,
{
    match spec_factor(s, i) {
        Some((t, j)) => if j < s.len() && s[j] != '|' && s[j] != ')' {
            if i < j <= s.len() {
                match spec_term(s, j) {
                    Some((t2, k)) => Some((t + t2.push(Token::Concat), k)),
                    None => None,
                }
            } else {
                None
            }
        } else {
            Some((t, j))
        },
        None => None,
    }
}

/// `Exp → Term ('|' Exp)?`; the alternation operator is emitted after both
/// operands. The position guard only discharges termination, as in
/// [`spec_term`].
pub open spec fn spec_exp(s: Seq<char>, i: int) -> Option<(Seq<Token>, int)>
    decreases s.len() - i, 3int,
{
    match spec_term(s, i) {
        Some((t, j)) => if j < s.len() && s[j] == '|' {
            if i <= j {
                match spec_exp(s, j + 1) {
                    Some((t2, k)) => Some((t + t2.push(Token::Alt), k)),
                    None => None,
                }
            } else {
                None
            }
        } else {
            Some((t, j))
        },
        None => None,
    }
}

/// The postfix form of a whole pattern: an `Exp` that consumes every
/// character. `None` is a parse error; the empty pattern is handled by the
/// compiler, not the grammar.
pub open spec fn spec_parse(s: Seq<char>) -> Option<Seq<Token>> {
    match spec_exp(s, 0) {
        Some((t, j)) => if j == s.len() {
            Some(t)
        } else {
            None
        },
        None => None,
    }
}

/// Every successful parse of a phrase consumes at least one character and
/// stops within the pattern.
pub proof fn lemma_primary_advances(s: Seq<char>, i: int)
    requires
        spec_primary(s, i) is Some,
    ensures
        i < spec_primary(s, i)->Some_0.1 <= s.len(),
    decreases s.len() - i, 0int,
{
    if 0 <= i < s.len() && s[i] == '(' {
        lemma_exp_advances(s, i + 1);
    }
}

pub proof fn lemma_factor_advances(s: Seq<char>, i: int)
    requires
        spec_factor(s, i) is Some,
    ensures
        i < spec_factor(s, i)->Some_0.1 <= s.len(),
    decreases s.len() - i, 1int,
{
    lemma_primary_advances(s, i);
}

pub proof fn lemma_term_advances(s: Seq<char>, i: int)
    requires
        spec_term(s, i) is Some,
    ensures
        i < spec_term(s, i)->Some_0.1 <= s.len(),
    decreases s.len() - i, 2int,
{
    lemma_factor_advances(s, i);
    let (t, j) = spec_factor(s, i)->Some_0;
    if j < s.len() && s[j] != '|' && s[j] != ')' {
        lemma_term_advances(s, j);
    }
}

pub proof fn lemma_exp_advances(s: Seq<char>, i: int)
    requires
        spec_exp(s, i) is Some,
    ensures
        i < spec_exp(s, i)->Some_0.1 <= s.len(),
    decreases s.len() - i, 3int,
{
    lemma_term_advances(s, i);
    let (t, j) = spec_term(s, i)->Some_0;
    if j < s.len() && s[j] == '|' {
        lemma_exp_advances(s, j + 1);
    }
}

/// A parsed operand phrase is a well-formed postfix stream: fed to the
/// builder in any state, it applies without underflow and leaves exactly
/// one new fragment on the stack. So compilation never fails on a pattern
/// the parser accepts.
pub proof fn lemma_primary_builds(s: Seq<char>, i: int, m: BuildState)
    requires
        spec_primary(s, i) is Some,
    ensures
        build_tokens(m, spec_primary(s, i)->Some_0.0) is Some,
        build_tokens(m, spec_primary(s, i)->Some_0.0)->Some_0.stack.len() == m.stack.len() + 1,
    decreases s.len() - i, 0int,
{
    let t = spec_primary(s, i)->Some_0.0;
    if s[i] == '(' {
        lemma_exp_builds(s, i + 1, m);
    } else {
        assert(t =~= seq![Token::Char(s[i])]);
        let m2 = crate::builder::char_step(m, s[i]);
        assert(crate::builder::apply_token(m, t[0]) == Some(m2));
        assert(t.drop_first() =~= Seq::<Token>::empty());
        assert(build_tokens(m2, t.drop_first()) == Some(m2));
        assert(build_tokens(m, t) == Some(m2));
    }
}

pub proof fn lemma_factor_builds(s: Seq<char>, i: int, m: BuildState)
    requires
        spec_factor(s, i) is Some,
    ensures
        build_tokens(m, spec_factor(s, i)->Some_0.0) is Some,
        build_tokens(m, spec_factor(s, i)->Some_0.0)->Some_0.stack.len() == m.stack.len() + 1,
    decreases s.len() - i, 1int,
{
    lemma_primary_builds(s, i, m);
    let tp = spec_primary(s, i)->Some_0.0;
    let j = spec_primary(s, i)->Some_0.1;
    if j < s.len() && is_meta(s[j]) {
        let op = token_of(s[j]);
        assert(tp.push(op) =~= tp + seq![op]);
        lemma_build_append(m, tp, seq![op]);
        let m1 = build_tokens(m, tp)->Some_0;
        let m2 = crate::builder::apply_token(m1, op)->Some_0;
        assert(crate::builder::apply_token(m1, op) is Some);
        assert(m2.stack.len() == m1.stack.len());
        assert(seq![op].drop_first() =~= Seq::<Token>::empty());
        assert(build_tokens(m2, Seq::<Token>::empty()) == Some(m2));
        assert(build_tokens(m1, seq![op]) == Some(m2));
    }
}

pub proof fn lemma_term_builds(s: Seq<char>, i: int, m: BuildState)
    requires
        spec_term(s, i) is Some,
    ensures
        build_tokens(m, spec_term(s, i)->Some_0.0) is Some,
        build_tokens(m, spec_term(s, i)->Some_0.0)->Some_0.stack.len() == m.stack.len() + 1,
    decreases s.len() - i, 2int,
{
    lemma_factor_builds(s, i, m);
    let tf = spec_factor(s, i)->Some_0.0;
    let j = spec_factor(s, i)->Some_0.1;
    if j < s.len() && s[j] != '|' && s[j] != ')' {
        lemma_factor_advances(s, i);
        let m1 = build_tokens(m, tf)->Some_0;
        lemma_term_builds(s, j, m1);
        let tt = spec_term(s, j)->Some_0.0;
        let m2 = build_tokens(m1, tt)->Some_0;
        assert(tf + tt.push(Token::Concat) =~= tf + (tt + seq![Token::Concat]));
        lemma_build_append(m, tf, tt + seq![Token::Concat]);
        lemma_build_append(m1, tt, seq![Token::Concat]);
        let m3 = crate::builder::apply_token(m2, Token::Concat)->Some_0;
        assert(crate::builder::apply_token(m2, Token::Concat) is Some);
        assert(m3.stack.len() == m2.stack.len() - 1);
        assert(seq![Token::Concat].drop_first() =~= Seq::<Token>::empty());
        assert(build_tokens(m3, Seq::<Token>::empty()) == Some(m3));
        assert(build_tokens(m2, seq![Token::Concat]) == Some(m3));
    }
}

pub proof fn lemma_exp_builds(s: Seq<char>, i: int, m: BuildState)
    requires
        spec_exp(s, i) is Some,
    ensures
        build_tokens(m, spec_exp(s, i)->Some_0.0) is Some,
        build_tokens(m, spec_exp(s, i)->Some_0.0)->Some_0.stack.len() == m.stack.len() + 1,
    decreases s.len() - i, 3int,
{
    lemma_term_builds(s, i, m);
    let tt = spec_term(s, i)->Some_0.0;
    let j = spec_term(s, i)->Some_0.1;
    if j < s.len() && s[j] == '|' {
        lemma_term_advances(s, i);
        let m1 = build_tokens(m, tt)->Some_0;
        lemma_exp_builds(s, j + 1, m1);
        let te = spec_exp(s, j + 1)->Some_0.0;
        let m2 = build_tokens(m1, te)->Some_0;
        assert(tt + te.push(Token::Alt) =~= tt + (te + seq![Token::Alt]));
        lemma_build_append(m, tt, te + seq![Token::Alt]);
        lemma_build_append(m1, te, seq![Token::Alt]);
        let m3 = crate::builder::apply_token(m2, Token::Alt)->Some_0;
        assert(crate::builder::apply_token(m2, Token::Alt) is Some);
        assert(m3.stack.len() == m2.stack.len() - 1);
        assert(seq![Token::Alt].drop_first() =~= Seq::<Token>::empty());
        assert(build_tokens(m3, Seq::<Token>::empty()) == Some(m3));
        assert(build_tokens(m2, seq![Token::Alt]) == Some(m3));
    }
}

/// `a` and `b` are the same kind of token, whatever characters two literal
/// tokens carry.
pub open spec fn spec_same_kind(a: Token, b: Token) -> bool {
    match (a, b) {
        (Token::LeftParen, Token::LeftParen) => true,
        (Token::RightParen, Token::RightParen) => true,
        (Token::Star, Token::Star) => true,
        (Token::Alt, Token::Alt) => true,
        (Token::Concat, Token::Concat) => true,
        (Token::Plus, Token::Plus) => true,
        (Token::QMark, Token::QMark) => true,
        (Token::Char(_), Token::Char(_)) => true,
        (Token::End, Token::End) => true,
        _ => false,
    }
}

fn same_kind(a: &Token, b: &Token) -> (r: bool)
    ensures
        r == spec_same_kind(*a, *b),
{
    match (a, b) {
        (Token::LeftParen, Token::LeftParen) => true,
        (Token::RightParen, Token::RightParen) => true,
        (Token::Star, Token::Star) => true,
        (Token::Alt, Token::Alt) => true,
        (Token::Concat, Token::Concat) => true,
        (Token::Plus, Token::Plus) => true,
        (Token::QMark, Token::QMark) => true,
        (Token::Char(_), Token::Char(_)) => true,
        (Token::End, Token::End) => true,
        _ => false,
    }
}

/// The parser: the tokenizer it draws from, the postfix tokens emitted so
/// far, and a one-token lookahead.
pub struct Parser {
    pub lexer: Lexer,
    pub tokens: Vec<Token>,
    pub lookahead: Token,
}

/// The lookahead mirrors the pattern: it is the token at the cursor
/// position, or the sentinel once the pattern is exhausted.
pub open spec fn parser_wf(p: Parser) -> bool {
    let s = p.lexer.pattern@;
    if p.lookahead == Token::End {
        p.lexer.current == s.len()
    } else {
        1 <= p.lexer.current <= s.len() && p.lookahead == token_of(s[p.lexer.current - 1])
    }
}

/// The position of the lookahead token in the pattern.
pub open spec fn parser_pos(p: Parser) -> int {
    if p.lookahead == Token::End {
        p.lexer.pattern@.len() as int
    } else {
        p.lexer.current - 1
    }
}

impl Parser {
    /// A parser over `lexer`, primed with one token of lookahead.
    pub fn new(lexer: Lexer) -> (p: Parser)
        requires
            lexer.current == 0,
        ensures
            p.lexer.pattern@ == lexer.pattern@,
            parser_wf(p),
            parser_pos(p) == 0,
            p.tokens@ == Seq::<Token>::empty(),
    {
        let mut lexer = lexer;
        let lookahead = lexer.get_token();
        Parser { lexer, tokens: Vec::new(), lookahead }
    }

    /// Emits one token.
    fn append(&mut self, t: Token)
        ensures
            final(self).tokens@ == old(self).tokens@.push(t),
            final(self).lexer == old(self).lexer,
            final(self).lookahead == old(self).lookahead,
    {
        self.tokens.push(t);
    }

    /// Advances past the lookahead when it is the expected kind of token;
    /// a grammar mismatch otherwise.
    fn consume(&mut self, token: &Token) -> (r: Result<(), ParseError>)
        requires
            parser_wf(*old(self)),
            *token != Token::End,
        ensures
            final(self).lexer.pattern@ == old(self).lexer.pattern@,
            final(self).tokens@ == old(self).tokens@,
            if spec_same_kind(old(self).lookahead, *token) {
                &&& r is Ok
                &&& parser_wf(*final(self))
                &&& parser_pos(*final(self)) == parser_pos(*old(self)) + 1
            } else {
                r is Err && *final(self) == *old(self)
            },
    {
        if same_kind(&self.lookahead, token) {
            self.lookahead = self.lexer.get_token();
            Ok(())
        } else {
            Err(ParseError::new(String::from_str("unexpected token")))
        }
    }

    /// `Primary → literal | '(' Exp ')'`, emitting the literal.
    fn primary(&mut self) -> (r: Result<(), ParseError>)
        requires
            parser_wf(*old(self)),
        ensures
            final(self).lexer.pattern@ == old(self).lexer.pattern@,
            match spec_primary(old(self).lexer.pattern@, parser_pos(*old(self))) {
                Some((t, j)) => {
                    &&& r is Ok
                    &&& parser_wf(*final(self))
                    &&& final(self).tokens@ == old(self).tokens@ + t
                    &&& parser_pos(*final(self)) == j
                },
                None => r is Err,
            },
        decreases self.lexer.pattern@.len() - parser_pos(*self), 0int,
    {
        let ghost s = self.lexer.pattern@;
        let ghost i = parser_pos(*self);
        match self.lookahead {
            Token::LeftParen => {
                match self.consume(&Token::LeftParen) {
                    Ok(()) => {},
                    Err(e) => {
                        return Err(e);
                    },
                }
                match self.exp() {
                    Ok(()) => {},
                    Err(e) => {
                        return Err(e);
                    },
                }
                let ghost t = spec_exp(s, i + 1)->Some_0.0;
                let ghost j = spec_exp(s, i + 1)->Some_0.1;
                match self.consume(&Token::RightParen) {
                    Ok(()) => {},
                    Err(e) => {
                        return Err(e);
                    },
                }
                proof {
                    assert(old(self).tokens@ + t =~= (old(self).tokens@ + Seq::<
                        Token,
                    >::empty()) + t);
                }
                Ok(())
            },
            Token::Char(_) => {
                let la = self.lookahead;
                self.append(la);
                match self.consume(&la) {
                    Ok(()) => {},
                    Err(e) => {
                        return Err(e);
                    },
                }
                proof {
                    assert(final(self).tokens@ =~= old(self).tokens@ + seq![
                        Token::Char(s[i]),
                    ]);
                }
                Ok(())
            },
            _ => Err(
                ParseError::new(String::from_str("unexpected token in an operand position")),
            ),
        }
    }

    /// `Factor → Primary ('*' | '+' | '?')?`, emitting the operator after
    /// its operand.
    fn factor(&mut self) -> (r: Result<(), ParseError>)
        requires
            parser_wf(*old(self)),
        ensures
            final(self).lexer.pattern@ == old(self).lexer.pattern@,
            match spec_factor(old(self).lexer.pattern@, parser_pos(*old(self))) {
                Some((t, j)) => {
                    &&& r is Ok
                    &&& parser_wf(*final(self))
                    &&& final(self).tokens@ == old(self).tokens@ + t
                    &&& parser_pos(*final(self)) == j
                },
                None => r is Err,
            },
        decreases self.lexer.pattern@.len() - parser_pos(*self), 1int,
    {
        let ghost s = self.lexer.pattern@;
        let ghost i = parser_pos(*self);
        match self.primary() {
            Ok(()) => {},
            Err(e) => {
                return Err(e);
            },
        }
        let ghost t = spec_primary(s, i)->Some_0.0;
        match self.lookahead {
            Token::Star | Token::Plus | Token::QMark => {
                let la = self.lookahead;
                self.append(la);
                match self.consume(&la) {
                    Ok(()) => {},
                    Err(e) => {
                        return Err(e);
                    },
                }
                proof {
                    assert(final(self).tokens@ =~= old(self).tokens@ + t.push(la));
                }
                Ok(())
            },
            _ => Ok(()),
        }
    }

    /// `Term → Factor Term?`, emitting the concatenation operator after
    /// both operands.
    fn term(&mut self) -> (r: Result<(), ParseError>)
        requires
            parser_wf(*old(self)),
        ensures
            final(self).lexer.pattern@ == old(self).lexer.pattern@,
            match spec_term(old(self).lexer.pattern@, parser_pos(*old(self))) {
                Some((t, j)) => {
                    &&& r is Ok
                    &&& parser_wf(*final(self))
                    &&& final(self).tokens@ == old(self).tokens@ + t
                    &&& parser_pos(*final(self)) == j
                },
                None => r is Err,
            },
        decreases self.lexer.pattern@.len() - parser_pos(*self), 2int,
    {
        let ghost s = self.lexer.pattern@;
        let ghost i = parser_pos(*self);
        match self.factor() {
            Ok(()) => {},
            Err(e) => {
                return Err(e);
            },
        }
        let ghost t = spec_factor(s, i)->Some_0.0;
        let ghost j = spec_factor(s, i)->Some_0.1;
        proof {
            lemma_factor_advances(s, i);
        }
        match self.lookahead {
            Token::Alt | Token::RightParen | Token::End => Ok(()),
            _ => {
                match self.term() {
                    Ok(()) => {},
                    Err(e) => {
                        return Err(e);
                    },
                }
                let ghost t2 = spec_term(s, j)->Some_0.0;
                self.append(Token::Concat);
                proof {
                    assert(final(self).tokens@ =~= old(self).tokens@ + (t + t2.push(
                        Token::Concat,
                    )));
                }
                Ok(())
            },
        }
    }

    /// `Exp → Term ('|' Exp)?`, emitting the alternation operator after
    /// both operands.
    fn exp(&mut self) -> (r: Result<(), ParseError>)
        requires
            parser_wf(*old(self)),
        ensures
            final(self).lexer.pattern@ == old(self).lexer.pattern@,
            match spec_exp(old(self).lexer.pattern@, parser_pos(*old(self))) {
                Some((t, j)) => {
                    &&& r is Ok
                    &&& parser_wf(*final(self))
                    &&& final(self).tokens@ == old(self).tokens@ + t
                    &&& parser_pos(*final(self)) == j
                },
                None => r is Err,
            },
        decreases self.lexer.pattern@.len() - parser_pos(*self), 3int,
    {
        let ghost s = self.lexer.pattern@;
        let ghost i = parser_pos(*self);
        match self.term() {
            Ok(()) => {},
            Err(e) => {
                return Err(e);
            },
        }
        let ghost t = spec_term(s, i)->Some_0.0;
        let ghost j = spec_term(s, i)->Some_0.1;
        proof {
            lemma_term_advances(s, i);
        }
        if let Token::Alt = self.lookahead {
            match self.consume(&Token::Alt) {
                Ok(()) => {},
                Err(e) => {
                    return Err(e);
                },
            }
            match self.exp() {
                Ok(()) => {},
                Err(e) => {
                    return Err(e);
                },
            }
            let ghost t2 = spec_exp(s, j + 1)->Some_0.0;
            self.append(Token::Alt);
            proof {
                assert(final(self).tokens@ =~= old(self).tokens@ + (t + t2.push(Token::Alt)));
            }
            Ok(())
        } else {
            Ok(())
        }
    }

    /// Parses the whole pattern to its postfix token stream: `Ok` exactly
    /// when the pattern derives from `Exp` with no input left over.
    ///
    /// A parser is single-use by design: the precondition asks for a
    /// freshly primed parser — the state [`Parser::new`] establishes — and
    /// parsing consumes it, so a second call on the same parser is ruled
    /// out up front rather than reported at run time. To parse again,
    /// build a new parser.
    pub fn parse(&mut self) -> (r: Result<Vec<Token>, ParseError>)
        requires
            parser_wf(*old(self)),
            parser_pos(*old(self)) == 0,
            old(self).tokens@ == Seq::<Token>::empty(),
        ensures
            match spec_parse(old(self).lexer.pattern@) {
                Some(t) => r is Ok && r->Ok_0@ == t,
                None => r is Err,
            },
    {
        let ghost s = self.lexer.pattern@;
        match self.exp() {
            Ok(()) => {},
            Err(e) => {
                return Err(e);
            },
        }
        match self.lookahead {
            Token::End => {},
            _ => {
                return Err(
                    ParseError::new(
                        String::from_str("unexpected trailing input after the expression"),
                    ),
                );
            },
        }
        let mut out: Vec<Token> = Vec::new();
        core::mem::swap(&mut out, &mut self.tokens);
        proof {
            assert(out@ =~= Seq::<Token>::empty() + spec_exp(s, 0)->Some_0.0);
        }
        Ok(out)
    }
}

} // verus!
