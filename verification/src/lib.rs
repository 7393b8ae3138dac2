//! A verified regular-expression engine.
//!
//! A pattern over literal characters and the operators `(`, `)`, `|`, `*`,
//! `+`, `?` and `.` (explicit concatenation) is compiled into a
//! nondeterministic finite automaton by Thompson's construction, and an
//! input string is matched by simulating that automaton with
//! epsilon-closure expansion.

pub mod builder;
pub mod errors;
pub mod laws;
pub mod lexer;
pub mod nfa;
pub mod parser;
pub mod postfix;
pub mod state;
pub mod token;

use vstd::prelude::*;

use crate::builder::{
    apply_token, build_model, build_tokens, empty_build, lemma_apply_token_wf, lemma_build_append,
    wf_build, BuildState, Fragment, Handler,
};
use crate::errors::{CompileError, NfaConstructionError};
use crate::lexer::{token_from_char, Lexer};
use crate::nfa::{nfa_wf, SpecNfa, NFA};
use crate::parser::{lemma_exp_builds, spec_parse, Parser};
use crate::state::SpecState;
use crate::token::{token_of, Token};

verus! {

/// The automaton denoted by the empty pattern: a start state with a single
/// epsilon edge to the accepting end state, so it accepts exactly the empty
/// string.
pub open spec fn epsilon_nfa() -> SpecNfa {
    SpecNfa {
        states: seq![
            SpecState { eps: seq![1int], trans: Seq::empty(), is_end: false },
            SpecState { eps: Seq::empty(), trans: Seq::empty(), is_end: true },
        ],
        start: 0,
        end: 1,
    }
}

/// The finished automaton of a builder that ended with a single fragment:
/// that fragment's states, its end flagged as the sole accepting state.
pub open spec fn nfa_of(m: BuildState) -> SpecNfa {
    let f = m.stack[0];
    SpecNfa {
        states: m.states.update(f.1, SpecState { is_end: true, ..m.states[f.1] }),
        start: f.0,
        end: f.1,
    }
}

/// What compiling a pattern yields: the empty-string automaton for the
/// empty pattern, otherwise Thompson's construction over the parsed postfix
/// stream; `None` exactly when the pattern does not parse.
pub open spec fn compiled_nfa(s: Seq<char>) -> Option<SpecNfa> {
    if s.len() == 0 {
        Some(epsilon_nfa())
    } else {
        match spec_parse(s) {
            Some(t) => match build_tokens(empty_build(), t) {
                Some(m) => if m.stack.len() == 1 {
                    Some(nfa_of(m))
                } else {
                    None
                },
                None => None,
            },
            None => None,
        }
    }
}

/// Builds the empty-string automaton.
fn build_epsilon_nfa() -> (r: NFA)
    ensures
        r@ == epsilon_nfa(),
{
    let mut handler = Handler::new();
    let s0 = handler.create_state();
    let s1 = handler.create_state();
    let ghost a2 = handler.states@;
    handler.states[s0].add_epsilon(s1);
    proof {
        assert(crate::builder::arena_view(a2).len() == 2);
        assert(crate::builder::arena_view(a2)[0] == crate::builder::fresh_state());
        assert(crate::builder::arena_view(a2)[1] == crate::builder::fresh_state());
        crate::builder::lemma_arena_update(a2, s0 as int, handler.states@[s0 as int]);
        assert(crate::builder::arena_view(handler.states@) =~~= seq![
            SpecState { eps: seq![1int], trans: Seq::empty(), is_end: false },
            crate::builder::fresh_state(),
        ]);
    }
    let nfa = NFA::new(handler.states, s0, s1);
    proof {
        assert(nfa@ =~~= epsilon_nfa());
    }
    nfa
}

/// Compiles a pattern to its automaton. Succeeds exactly on the patterns
/// the grammar accepts — and on the empty pattern, which denotes the
/// automaton accepting only the empty string. Every failure is a parse
/// error: the parser only emits well-formed postfix streams, so the builder
/// never fails on them (`lemma_exp_builds`).
///
/// There are no escape sequences: the alphabet is exactly the seven
/// operator characters plus literals, so a backslash is an ordinary
/// literal and an operator character can only be matched literally by
/// itself, never through `\`.
pub fn compile(pattern: String) -> (r: Result<NFA, CompileError>)
    ensures
        r is Ok <==> compiled_nfa(pattern@) is Some,
        match r {
            Ok(n) => compiled_nfa(pattern@) == Some(n@),
            Err(e) => pattern@.len() > 0 && spec_parse(pattern@) is None && e is Parse,
        },
{
    let ghost s = pattern@;
    if pattern.as_str().unicode_len() == 0 {
        return Ok(build_epsilon_nfa());
    }
    let lexer = Lexer::new(pattern);
    let mut parser = Parser::new(lexer);
    let tokens = match parser.parse() {
        Ok(t) => t,
        Err(e) => {
            return Err(CompileError::Parse(e));
        },
    };
    let ghost toks = spec_parse(s)->Some_0;
    let mut handler = Handler::new();
    let mut nfa_stack: Vec<Fragment> = Vec::new();
    proof {
        assert(build_model(handler.states@, nfa_stack@) =~~= empty_build());
        lemma_exp_builds(s, 0, empty_build());
        assert(toks.take(0) =~= Seq::<Token>::empty());
    }
    let mut idx: usize = 0;
    while idx < tokens.len()
        invariant
            idx <= tokens@.len(),
            tokens@ == toks,
            build_tokens(empty_build(), toks) is Some,
            build_tokens(empty_build(), toks)->Some_0.stack.len() == 1,
            build_tokens(empty_build(), toks.take(idx as int)) == Some(
                build_model(handler.states@, nfa_stack@),
            ),
            wf_build(build_model(handler.states@, nfa_stack@)),
        decreases tokens@.len() - idx,
    {
        let ghost mcur = build_model(handler.states@, nfa_stack@);
        let ghost tk = toks[idx as int];
        proof {
            assert(toks =~= toks.take(idx as int + 1) + toks.skip(idx as int + 1));
            lemma_build_append(
                empty_build(),
                toks.take(idx as int + 1),
                toks.skip(idx as int + 1),
            );
            assert(build_tokens(empty_build(), toks.take(idx as int + 1)) is Some);
            assert(toks.take(idx as int + 1) =~= toks.take(idx as int) + seq![tk]);
            lemma_build_append(empty_build(), toks.take(idx as int), seq![tk]);
            assert(build_tokens(mcur, seq![tk]) is Some);
            assert(apply_token(mcur, seq![tk][0]) is Some);
            assert(apply_token(mcur, tk) is Some);
            let m2 = apply_token(mcur, tk)->Some_0;
            assert(seq![tk].drop_first() =~= Seq::<Token>::empty());
            assert(build_tokens(m2, Seq::<Token>::empty()) == Some(m2));
            assert(build_tokens(mcur, seq![tk]) == Some(m2));
            lemma_apply_token_wf(mcur, tk);
        }
        let t = tokens[idx];
        match handler.handle(&t, &mut nfa_stack) {
            Ok(()) => {},
            Err(e) => {
                return Err(CompileError::Construction(e));
            },
        }
        idx += 1;
    }
    proof {
        assert(toks.take(toks.len() as int) =~= toks);
    }
    let frag = nfa_stack.pop().unwrap();
    let ghost mfin = build_tokens(empty_build(), toks)->Some_0;
    proof {
        assert(mfin.stack[0] == (frag.start as int, frag.end as int));
        assert(nfa_wf(
            SpecNfa {
                states: crate::builder::arena_view(handler.states@),
                start: frag.start as int,
                end: frag.end as int,
            },
        ));
    }
    let nfa = NFA::new(handler.states, frag.start, frag.end);
    proof {
        assert(nfa@ =~~= nfa_of(mfin));
    }
    Ok(nfa)
}

/// The token stream a postfix character string stands for: every character
/// classified by the tokenizer's symbol table.
pub open spec fn postfix_tokens(s: Seq<char>) -> Seq<Token> {
    s.map_values(|c: char| token_of(c))
}

/// What building a postfix character string yields: the empty-string
/// automaton for the empty string, otherwise Thompson's construction over
/// its tokens; `None` exactly when a rule underflows the fragment stack,
/// a parenthesis token appears, or more than one fragment remains.
pub open spec fn postfix_nfa(s: Seq<char>) -> Option<SpecNfa> {
    if s.len() == 0 {
        Some(epsilon_nfa())
    } else {
        match build_tokens(empty_build(), postfix_tokens(s)) {
            Some(m) => if m.stack.len() == 1 {
                Some(nfa_of(m))
            } else {
                None
            },
            None => None,
        }
    }
}

/// Builds an automaton from a pattern already in postfix character order.
/// Fails with a construction error exactly on malformed postfix strings:
/// an operator with too few operand fragments on the stack, a parenthesis,
/// or leftover fragments after the last character.
#[verifier::loop_isolation(false)]
pub fn postfix_to_nfa(regex: &str) -> (r: Result<NFA, NfaConstructionError>)
    ensures
        r is Ok <==> postfix_nfa(regex@) is Some,
        r is Ok ==> postfix_nfa(regex@) == Some(r->Ok_0@),
{
    let ghost s = regex@;
    let ghost toks = postfix_tokens(s);
    let n = regex.unicode_len();
    if n == 0 {
        return Ok(build_epsilon_nfa());
    }
    let mut handler = Handler::new();
    let mut nfa_stack: Vec<Fragment> = Vec::new();
    proof {
        assert(build_model(handler.states@, nfa_stack@) =~~= empty_build());
        assert(toks.take(0) =~= Seq::<Token>::empty());
    }
    let mut idx: usize = 0;
    while idx < n
        invariant
            idx <= n,
            build_tokens(empty_build(), toks.take(idx as int)) == Some(
                build_model(handler.states@, nfa_stack@),
            ),
            wf_build(build_model(handler.states@, nfa_stack@)),
        decreases n - idx,
    {
        let ghost mcur = build_model(handler.states@, nfa_stack@);
        let c = regex.get_char(idx);
        let t = token_from_char(c);
        proof {
            assert(toks.take(idx as int + 1) =~= toks.take(idx as int) + seq![toks[idx as int]]);
            lemma_build_append(empty_build(), toks.take(idx as int), seq![toks[idx as int]]);
            if apply_token(mcur, toks[idx as int]) is Some {
                let m2 = apply_token(mcur, toks[idx as int])->Some_0;
                assert(seq![toks[idx as int]].drop_first() =~= Seq::<Token>::empty());
                assert(build_tokens(m2, Seq::<Token>::empty()) == Some(m2));
                lemma_apply_token_wf(mcur, toks[idx as int]);
            }
        }
        match handler.handle(&t, &mut nfa_stack) {
            Ok(()) => {},
            Err(e) => {
                proof {
                    assert(toks =~= toks.take(idx as int + 1) + toks.skip(idx as int + 1));
                    lemma_build_append(
                        empty_build(),
                        toks.take(idx as int + 1),
                        toks.skip(idx as int + 1),
                    );
                }
                return Err(e);
            },
        }
        idx += 1;
    }
    proof {
        assert(toks.take(n as int) =~= toks);
    }
    if nfa_stack.len() != 1 {
        return Err(
            NfaConstructionError::new(
                String::from_str("expected exactly one fragment after the postfix stream"),
            ),
        );
    }
    let frag = nfa_stack.pop().unwrap();
    let ghost mfin = build_tokens(empty_build(), toks)->Some_0;
    proof {
        assert(mfin.stack[0] == (frag.start as int, frag.end as int));
        assert(nfa_wf(
            SpecNfa {
                states: crate::builder::arena_view(handler.states@),
                start: frag.start as int,
                end: frag.end as int,
            },
        ));
    }
    let nfa = NFA::new(handler.states, frag.start, frag.end);
    proof {
        assert(nfa@ =~~= nfa_of(mfin));
    }
    Ok(nfa)
}

/// Builds an automaton from an infix pattern; the same contract as
/// [`compile`].
pub fn infix_to_nfa(regex: &str) -> (r: Result<NFA, CompileError>)
    ensures
        r is Ok <==> compiled_nfa(regex@) is Some,
        match r {
            Ok(n) => compiled_nfa(regex@) == Some(n@),
            Err(e) => regex@.len() > 0 && spec_parse(regex@) is None && e is Parse,
        },
{
    compile(regex.to_owned())
}

/// What [`create_matcher`] compiles a pattern to: explicit concatenation,
/// the shunting-yard pass, then Thompson's construction over the postfix
/// characters.
pub open spec fn matcher_nfa(s: Seq<char>) -> Option<SpecNfa> {
    postfix_nfa(crate::postfix::spec_to_postfix(crate::postfix::spec_explicit_concat(s)))
}

/// Builds an automaton from an infix pattern through the shunting-yard
/// converter. A pattern with an unmatched parenthesis — a stray `)` or a
/// `(` left open at end of input — always fails.
pub fn create_matcher(exp: &str) -> (r: Result<NFA, NfaConstructionError>)
    ensures
        r is Ok <==> matcher_nfa(exp@) is Some,
        r is Ok ==> matcher_nfa(exp@) == Some(r->Ok_0@),
        !crate::postfix::paren_balanced(exp@) ==> r is Err,
{
    proof {
        if !crate::postfix::paren_balanced(exp@) {
            crate::laws::lemma_matcher_rejects_unbalanced(exp@);
        }
    }
    let explicit = crate::postfix::with_explicit_concat(exp);
    let postfix = crate::postfix::to_postfix(explicit.as_str());
    postfix_to_nfa(postfix.as_str())
}

/// Simulates `nfa` on `word`: `true` exactly when the automaton accepts
/// the word.
pub fn recognize(nfa: &NFA, word: &str) -> (r: bool)
    ensures
        r == crate::nfa::accepts(nfa@, word@),
{
    nfa.match_regex(word)
}

} // verus!
