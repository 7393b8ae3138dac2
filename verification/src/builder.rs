//! Thompson's construction.
//!
//! The builder walks a postfix token stream with a stack of automaton
//! fragments, applying one construction rule per operator. Each rule pops
//! one or two fragments, wires them together with fresh states and epsilon
//! edges in the arena, and pushes exactly one fragment. The spec functions
//! in this module are the mathematical statement of those rules; every
//! `Handler` method is proved to implement its rule exactly.

use vstd::prelude::*;

use crate::errors::NfaConstructionError;
use crate::state::{SpecState, State};
use crate::token::Token;

verus! {

/// A partially built automaton, represented by the arena indices of its
/// start and end states.
#[derive(Copy, Clone, PartialEq, Eq, Structural, Debug)]
pub struct Fragment {
    pub start: usize,
    pub end: usize,
}

/// The model of the builder mid-construction: the arena of states built so
/// far and the stack of fragments, each fragment a (start, end) pair of
/// arena indices.
#[verifier::ext_equal]
pub struct BuildState {
    pub states: Seq<SpecState>,
    pub stack: Seq<(int, int)>,
}

/// The model of a vector of states.
pub open spec fn arena_view(states: Seq<State>) -> Seq<SpecState> {
    states.map_values(|s: State| s@)
}

/// The model of a fragment stack.
pub open spec fn stack_view(stack: Seq<Fragment>) -> Seq<(int, int)> {
    stack.map_values(|f: Fragment| (f.start as int, f.end as int))
}

/// A state with no edges and no accepting flag.
pub open spec fn fresh_state() -> SpecState {
    SpecState { eps: Seq::empty(), trans: Seq::empty(), is_end: false }
}

/// The literal rule: two fresh states, the first carrying the single
/// transition on `c` to the second, which is accepting; the new fragment
/// spans the two.
pub open spec fn char_step(m: BuildState, c: char) -> BuildState {
    let n = m.states.len() as int;
    BuildState {
        states: m.states + seq![
            SpecState { eps: Seq::empty(), trans: seq![(c, n + 1)], is_end: false },
            SpecState { eps: Seq::empty(), trans: Seq::empty(), is_end: true },
        ],
        stack: m.stack.push((n, n + 1)),
    }
}

/// The concatenation rule: the left fragment's end loses its accepting flag
/// and gains an epsilon edge to the right fragment's start; the result
/// fragment spans left start to right end.
pub open spec fn concat_step(m: BuildState) -> BuildState {
    let left = m.stack[m.stack.len() - 2];
    let right = m.stack[m.stack.len() - 1];
    let le = m.states[left.1];
    let states1 = m.states.update(
        left.1,
        SpecState { eps: le.eps.push(right.0), is_end: false, ..le },
    );
    let re = states1[right.1];
    BuildState {
        states: states1.update(right.1, SpecState { is_end: true, ..re }),
        stack: m.stack.take(m.stack.len() - 2).push((left.0, right.1)),
    }
}

/// The alternation rule: a fresh start state with epsilon edges to both
/// operand starts, a fresh accepting end state, epsilon edges from both
/// operand ends to it, and both operand ends lose their accepting flag.
pub open spec fn alt_step(m: BuildState) -> BuildState {
    let left = m.stack[m.stack.len() - 2];
    let right = m.stack[m.stack.len() - 1];
    let n = m.states.len() as int;
    let states1 = m.states + seq![
        SpecState { eps: seq![left.0, right.0], trans: Seq::empty(), is_end: false },
        SpecState { eps: Seq::empty(), trans: Seq::empty(), is_end: true },
    ];
    let le = states1[left.1];
    let states2 = states1.update(
        left.1,
        SpecState { eps: le.eps.push(n + 1), is_end: false, ..le },
    );
    let re = states2[right.1];
    let states3 = states2.update(
        right.1,
        SpecState { eps: re.eps.push(n + 1), is_end: false, ..re },
    );
    BuildState {
        states: states3,
        stack: m.stack.take(m.stack.len() - 2).push((n, n + 1)),
    }
}

/// The repetition rules. A fresh start state with an epsilon edge to the
/// operand's start — and, for Kleene star only, a zero-match epsilon edge
/// to the fresh accepting end state. The operand's end gains epsilon edges
/// to the new end and back to the operand's start, and loses its accepting
/// flag.
pub open spec fn rep_step(m: BuildState, zero_allowed: bool) -> BuildState {
    let inner = m.stack[m.stack.len() - 1];
    let n = m.states.len() as int;
    let start_eps = if zero_allowed { seq![inner.0, n + 1] } else { seq![inner.0] };
    let states1 = m.states + seq![
        SpecState { eps: start_eps, trans: Seq::empty(), is_end: false },
        SpecState { eps: Seq::empty(), trans: Seq::empty(), is_end: true },
    ];
    let ie = states1[inner.1];
    let states2 = states1.update(
        inner.1,
        SpecState { eps: ie.eps.push(n + 1).push(inner.0), is_end: false, ..ie },
    );
    BuildState {
        states: states2,
        stack: m.stack.take(m.stack.len() - 1).push((n, n + 1)),
    }
}

/// The zero-or-one rule: the operand's start gains a direct epsilon edge to
/// its end; no new states, the fragment is unchanged.
pub open spec fn qmark_step(m: BuildState) -> BuildState {
    let inner = m.stack[m.stack.len() - 1];
    let is = m.states[inner.0];
    BuildState {
        states: m.states.update(inner.0, SpecState { eps: is.eps.push(inner.1), ..is }),
        stack: m.stack,
    }
}

/// One construction step: the rule selected by `t`, or `None` when `t` is
/// no postfix token or finds fewer operand fragments on the stack than it
/// requires.
pub open spec fn apply_token(m: BuildState, t: Token) -> Option<BuildState> {
    match t {
        Token::Char(c) => Some(char_step(m, c)),
        Token::Concat => if m.stack.len() >= 2 {
            Some(concat_step(m))
        } else {
            None
        },
        Token::Alt => if m.stack.len() >= 2 {
            Some(alt_step(m))
        } else {
            None
        },
        Token::Star => if m.stack.len() >= 1 {
            Some(rep_step(m, true))
        } else {
            None
        },
        Token::Plus => if m.stack.len() >= 1 {
            Some(rep_step(m, false))
        } else {
            None
        },
        Token::QMark => if m.stack.len() >= 1 {
            Some(qmark_step(m))
        } else {
            None
        },
        Token::LeftParen => None,
        Token::RightParen => None,
        Token::End => None,
    }
}

/// The whole construction: folding the rules over a postfix token stream,
/// starting from `m`.
pub open spec fn build_tokens(m: BuildState, tokens: Seq<Token>) -> Option<BuildState>
    decreases tokens.len(),
{
    if tokens.len() == 0 {
        Some(m)
    } else {
        match apply_token(m, tokens[0]) {
            Some(m2) => build_tokens(m2, tokens.drop_first()),
            None => None,
        }
    }
}

/// The empty builder model.
pub open spec fn empty_build() -> BuildState {
    BuildState { states: Seq::empty(), stack: Seq::empty() }
}

/// Every edge of every state, and every fragment on the stack, points into
/// the arena.
pub open spec fn wf_build(m: BuildState) -> bool {
    let n = m.states.len() as int;
    &&& forall|i: int, k: int|
        0 <= i < n && 0 <= k < m.states[i].eps.len() ==> 0 <= #[trigger] m.states[i].eps[k] < n
    &&& forall|i: int, k: int|
        0 <= i < n && 0 <= k < m.states[i].trans.len() ==> 0 <= (#[trigger] m.states[i].trans[k]).1
            < n
    &&& forall|f: int|
        0 <= f < m.stack.len() ==> 0 <= (#[trigger] m.stack[f]).0 < n && 0 <= m.stack[f].1 < n
}

/// The model of a state arena is index-for-index the model of its states.
pub proof fn lemma_arena_push(s: Seq<State>, st: State)
    ensures
        arena_view(s.push(st)) == arena_view(s).push(st@),
{
    assert(arena_view(s.push(st)) =~= arena_view(s).push(st@));
}

pub proof fn lemma_arena_update(s: Seq<State>, i: int, st: State)
    requires
        0 <= i < s.len(),
    ensures
        arena_view(s.update(i, st)) == arena_view(s).update(i, st@),
{
    assert(arena_view(s.update(i, st)) =~= arena_view(s).update(i, st@));
}

/// The builder. It owns the arena of states under construction; a fresh
/// state's identifier is its arena index, so identifiers are strictly
/// increasing across one compilation.
pub struct Handler {
    pub states: Vec<State>,
}

/// The model of the builder together with its fragment stack.
pub open spec fn build_model(states: Seq<State>, stack: Seq<Fragment>) -> BuildState {
    BuildState { states: arena_view(states), stack: stack_view(stack) }
}

impl Handler {
    /// A builder with an empty arena.
    pub fn new() -> (h: Handler)
        ensures
            h.states@.len() == 0,
    {
        Handler { states: Vec::new() }
    }

    /// Appends a fresh state to the arena and returns its identifier.
    pub(crate) fn create_state(&mut self) -> (id: usize)
        ensures
            arena_view(final(self).states@) == arena_view(old(self).states@).push(fresh_state()),
            id == old(self).states@.len(),
            final(self).states@.len() == old(self).states@.len() + 1,
    {
        let id = self.states.len();
        self.states.push(State::new());
        proof {
            lemma_arena_push(old(self).states@, final(self).states@[id as int]);
            assert(arena_view(final(self).states@) =~= arena_view(old(self).states@).push(
                fresh_state(),
            ));
        }
        id
    }

    /// The literal rule.
    fn handle_char(&mut self, t: &Token, nfa_stack: &mut Vec<Fragment>) -> (r: Result<
        (),
        NfaConstructionError,
    >)
        ensures
            match *t {
                Token::Char(c) => r is Ok && build_model(final(self).states@, final(nfa_stack)@)
                    == char_step(build_model(old(self).states@, old(nfa_stack)@), c),
                _ => r is Err && final(self).states@ == old(self).states@ && final(nfa_stack)@
                    == old(nfa_stack)@,
            },
    {
        let c: char = match *t {
            Token::Char(c) => c,
            _ => {
                return Err(
                    NfaConstructionError::new(String::from_str("expecting a literal token")),
                );
            },
        };
        let s0 = self.create_state();
        let s1 = self.create_state();
        let ghost a2 = self.states@;
        self.states[s0].add_delta(c, s1);
        let ghost a3 = self.states@;
        self.states[s1].set_end(true);
        let ghost a4 = self.states@;
        nfa_stack.push(Fragment { start: s0, end: s1 });
        proof {
            lemma_arena_update(a2, s0 as int, a3[s0 as int]);
            lemma_arena_update(a3, s1 as int, a4[s1 as int]);
            assert(arena_view(a2)[s0 as int] == fresh_state());
            assert(arena_view(a3)[s1 as int] == fresh_state());
            assert(build_model(final(self).states@, final(nfa_stack)@) =~~= char_step(
                build_model(old(self).states@, old(nfa_stack)@),
                c,
            ));
        }
        Ok(())
    }

    /// The concatenation rule.
    fn handle_concat(&mut self, nfa_stack: &mut Vec<Fragment>) -> (r: Result<
        (),
        NfaConstructionError,
    >)
        requires
            wf_build(build_model(old(self).states@, old(nfa_stack)@)),
        ensures
            if old(nfa_stack)@.len() >= 2 {
                r is Ok && build_model(final(self).states@, final(nfa_stack)@) == concat_step(
                    build_model(old(self).states@, old(nfa_stack)@),
                )
            } else {
                r is Err && final(self).states@ == old(self).states@ && final(nfa_stack)@ == old(
                    nfa_stack,
                )@
            },
    {
        if nfa_stack.len() < 2 {
            return Err(
                NfaConstructionError::new(
                    String::from_str("concatenation expects two fragments on the stack"),
                ),
            );
        }
        let n2 = nfa_stack.pop().unwrap();
        let n1 = nfa_stack.pop().unwrap();
        let ghost a0 = self.states@;
        proof {
            let m0 = build_model(old(self).states@, old(nfa_stack)@);
            assert(m0.stack[m0.stack.len() - 1] == (n2.start as int, n2.end as int));
            assert(m0.stack[m0.stack.len() - 2] == (n1.start as int, n1.end as int));
            assert(n1.end < a0.len() && n2.end < a0.len() && n1.start < a0.len() && n2.start
                < a0.len());
        }
        self.states[n1.end].set_end(false);
        let ghost a1 = self.states@;
        self.states[n1.end].add_epsilon(n2.start);
        let ghost a2 = self.states@;
        self.states[n2.end].set_end(true);
        let ghost a3 = self.states@;
        nfa_stack.push(Fragment { start: n1.start, end: n2.end });
        proof {
            lemma_arena_update(a0, n1.end as int, a1[n1.end as int]);
            lemma_arena_update(a1, n1.end as int, a2[n1.end as int]);
            lemma_arena_update(a2, n2.end as int, a3[n2.end as int]);
            assert(build_model(final(self).states@, final(nfa_stack)@) =~~= concat_step(
                build_model(old(self).states@, old(nfa_stack)@),
            ));
        }
        Ok(())
    }

    /// The alternation rule.
    #[verifier::rlimit(60)]
    fn handle_alt(&mut self, nfa_stack: &mut Vec<Fragment>) -> (r: Result<
        (),
        NfaConstructionError,
    >)
        requires
            wf_build(build_model(old(self).states@, old(nfa_stack)@)),
        ensures
            if old(nfa_stack)@.len() >= 2 {
                r is Ok && build_model(final(self).states@, final(nfa_stack)@) == alt_step(
                    build_model(old(self).states@, old(nfa_stack)@),
                )
            } else {
                r is Err && final(self).states@ == old(self).states@ && final(nfa_stack)@ == old(
                    nfa_stack,
                )@
            },
    {
        if nfa_stack.len() < 2 {
            return Err(
                NfaConstructionError::new(
                    String::from_str("alternation expects two fragments on the stack"),
                ),
            );
        }
        let n2 = nfa_stack.pop().unwrap();
        let n1 = nfa_stack.pop().unwrap();
        let ghost a0 = self.states@;
        proof {
            let m0 = build_model(old(self).states@, old(nfa_stack)@);
            assert(m0.stack[m0.stack.len() - 1] == (n2.start as int, n2.end as int));
            assert(m0.stack[m0.stack.len() - 2] == (n1.start as int, n1.end as int));
            assert(n1.end < a0.len() && n2.end < a0.len() && n1.start < a0.len() && n2.start
                < a0.len());
        }
        let s0 = self.create_state();
        let ghost a1 = self.states@;
        self.states[s0].add_epsilon(n1.start);
        let ghost a2 = self.states@;
        self.states[s0].add_epsilon(n2.start);
        let ghost a3 = self.states@;
        let s3 = self.create_state();
        let ghost a4 = self.states@;
        self.states[n1.end].add_epsilon(s3);
        let ghost a5 = self.states@;
        self.states[n2.end].add_epsilon(s3);
        let ghost a6 = self.states@;
        self.states[n1.end].set_end(false);
        let ghost a7 = self.states@;
        self.states[n2.end].set_end(false);
        let ghost a8 = self.states@;
        self.states[s3].set_end(true);
        let ghost a9 = self.states@;
        nfa_stack.push(Fragment { start: s0, end: s3 });
        proof {
            lemma_arena_update(a1, s0 as int, a2[s0 as int]);
            lemma_arena_update(a2, s0 as int, a3[s0 as int]);
            lemma_arena_update(a4, n1.end as int, a5[n1.end as int]);
            lemma_arena_update(a5, n2.end as int, a6[n2.end as int]);
            lemma_arena_update(a6, n1.end as int, a7[n1.end as int]);
            lemma_arena_update(a7, n2.end as int, a8[n2.end as int]);
            lemma_arena_update(a8, s3 as int, a9[s3 as int]);
            assert(arena_view(a1)[s0 as int] == fresh_state());
            assert(arena_view(a4)[s3 as int] == fresh_state());
            let m0 = build_model(old(self).states@, old(nfa_stack)@);
            assert(stack_view(final(nfa_stack)@) =~= alt_step(m0).stack);
            let fs = arena_view(final(self).states@);
            let ss = alt_step(m0).states;
            assert(fs.len() == ss.len());
            assert(arena_view(a4)[s3 as int] == fresh_state());
            assert(arena_view(a4)[n1.end as int] == m0.states[n1.end as int]);
            assert(arena_view(a4)[n2.end as int] == m0.states[n2.end as int]);
            assert(fs[s0 as int] =~~= ss[s0 as int]);
            assert(fs[s3 as int] =~~= ss[s3 as int]);
            assert(fs[n1.end as int] =~~= ss[n1.end as int]);
            assert(fs[n2.end as int] =~~= ss[n2.end as int]);
            assert(arena_view(final(self).states@) =~~= alt_step(m0).states);
            assert(build_model(final(self).states@, final(nfa_stack)@) =~~= alt_step(m0));
        }
        Ok(())
    }

    /// The repetition rules: Kleene star and one-or-more.
    #[verifier::rlimit(60)]
    fn handle_rep(&mut self, t: &Token, nfa_stack: &mut Vec<Fragment>) -> (r: Result<
        (),
        NfaConstructionError,
    >)
        requires
            wf_build(build_model(old(self).states@, old(nfa_stack)@)),
            *t == Token::Star || *t == Token::Plus,
        ensures
            if old(nfa_stack)@.len() >= 1 {
                r is Ok && build_model(final(self).states@, final(nfa_stack)@) == rep_step(
                    build_model(old(self).states@, old(nfa_stack)@),
                    *t == Token::Star,
                )
            } else {
                r is Err && final(self).states@ == old(self).states@ && final(nfa_stack)@ == old(
                    nfa_stack,
                )@
            },
    {
        if nfa_stack.len() < 1 {
            return Err(
                NfaConstructionError::new(
                    String::from_str("repetition expects one fragment on the stack"),
                ),
            );
        }
        let n1 = nfa_stack.pop().unwrap();
        let ghost a0 = self.states@;
        proof {
            let m0 = build_model(old(self).states@, old(nfa_stack)@);
            assert(m0.stack[m0.stack.len() - 1] == (n1.start as int, n1.end as int));
            assert(n1.end < a0.len() && n1.start < a0.len());
        }
        let s0 = self.create_state();
        let s1 = self.create_state();
        let ghost a2 = self.states@;
        self.states[s0].add_epsilon(n1.start);
        let ghost a3 = self.states@;
        proof {
            lemma_arena_update(a2, s0 as int, a3[s0 as int]);
            assert(arena_view(a2)[s0 as int] == fresh_state());
        }
        if let Token::Star = t {
            self.states[s0].add_epsilon(s1);
        }
        let ghost a4 = self.states@;
        self.states[n1.end].add_epsilon(s1);
        let ghost a5 = self.states@;
        self.states[n1.end].add_epsilon(n1.start);
        let ghost a6 = self.states@;
        self.states[n1.end].set_end(false);
        let ghost a7 = self.states@;
        self.states[s1].set_end(true);
        let ghost a8 = self.states@;
        nfa_stack.push(Fragment { start: s0, end: s1 });
        proof {
            if *t == Token::Star {
                lemma_arena_update(a3, s0 as int, a4[s0 as int]);
            }
            lemma_arena_update(a4, n1.end as int, a5[n1.end as int]);
            lemma_arena_update(a5, n1.end as int, a6[n1.end as int]);
            lemma_arena_update(a6, n1.end as int, a7[n1.end as int]);
            lemma_arena_update(a7, s1 as int, a8[s1 as int]);
            let m0 = build_model(old(self).states@, old(nfa_stack)@);
            let star = *t == Token::Star;
            assert(stack_view(final(nfa_stack)@) =~= rep_step(m0, star).stack);
            let fs = arena_view(final(self).states@);
            let ss = rep_step(m0, star).states;
            assert(fs.len() == ss.len());
            assert(arena_view(a2)[s1 as int] == fresh_state());
            assert(arena_view(a4)[s1 as int] == fresh_state());
            assert(arena_view(a2)[n1.end as int] == m0.states[n1.end as int]);
            assert(arena_view(a4)[n1.end as int] == m0.states[n1.end as int]);
            assert(fs[s0 as int] =~~= ss[s0 as int]);
            assert(fs[s1 as int] =~~= ss[s1 as int]);
            assert(fs[n1.end as int] =~~= ss[n1.end as int]);
            assert(arena_view(final(self).states@) =~~= rep_step(m0, star).states);
            assert(build_model(final(self).states@, final(nfa_stack)@) =~~= rep_step(m0, star));
        }
        Ok(())
    }

    /// The zero-or-one rule.
    fn handle_qmark(&mut self, nfa_stack: &mut Vec<Fragment>) -> (r: Result<
        (),
        NfaConstructionError,
    >)
        requires
            wf_build(build_model(old(self).states@, old(nfa_stack)@)),
        ensures
            if old(nfa_stack)@.len() >= 1 {
                r is Ok && build_model(final(self).states@, final(nfa_stack)@) == qmark_step(
                    build_model(old(self).states@, old(nfa_stack)@),
                )
            } else {
                r is Err && final(self).states@ == old(self).states@ && final(nfa_stack)@ == old(
                    nfa_stack,
                )@
            },
    {
        if nfa_stack.len() < 1 {
            return Err(
                NfaConstructionError::new(
                    String::from_str("zero-or-one expects one fragment on the stack"),
                ),
            );
        }
        let n1 = nfa_stack.pop().unwrap();
        let ghost a0 = self.states@;
        proof {
            let m0 = build_model(old(self).states@, old(nfa_stack)@);
            assert(m0.stack[m0.stack.len() - 1] == (n1.start as int, n1.end as int));
            assert(n1.end < a0.len() && n1.start < a0.len());
        }
        self.states[n1.start].add_epsilon(n1.end);
        let ghost a1 = self.states@;
        nfa_stack.push(n1);
        proof {
            lemma_arena_update(a0, n1.start as int, a1[n1.start as int]);
            assert(build_model(final(self).states@, final(nfa_stack)@) =~~= qmark_step(
                build_model(old(self).states@, old(nfa_stack)@),
            ));
        }
        Ok(())
    }

    /// One construction step: applies the rule selected by `t`, or fails
    /// with a construction error when `t` is no postfix token or the stack
    /// holds fewer operands than the rule requires.
    pub fn handle(&mut self, t: &Token, nfa_stack: &mut Vec<Fragment>) -> (r: Result<
        (),
        NfaConstructionError,
    >)
        requires
            wf_build(build_model(old(self).states@, old(nfa_stack)@)),
        ensures
            match apply_token(build_model(old(self).states@, old(nfa_stack)@), *t) {
                Some(m2) => r is Ok && build_model(final(self).states@, final(nfa_stack)@) == m2,
                None => r is Err && final(self).states@ == old(self).states@ && final(nfa_stack)@
                    == old(nfa_stack)@,
            },
    {
        match t {
            Token::Star => self.handle_rep(t, nfa_stack),
            Token::Alt => self.handle_alt(nfa_stack),
            Token::Concat => self.handle_concat(nfa_stack),
            Token::Plus => self.handle_rep(t, nfa_stack),
            Token::QMark => self.handle_qmark(nfa_stack),
            Token::Char(_) => self.handle_char(t, nfa_stack),
            _ => Err(NfaConstructionError::new(String::from_str("not a postfix token"))),
        }
    }
}

/// Folding a concatenation of two token streams is folding the first, then
/// the second.
pub proof fn lemma_build_append(m: BuildState, t1: Seq<Token>, t2: Seq<Token>)
    ensures
        build_tokens(m, t1 + t2) == (match build_tokens(m, t1) {
            Some(m1) => build_tokens(m1, t2),
            None => None::<BuildState>,
        }),
    decreases t1.len(),
{
    if t1.len() == 0 {
        assert(t1 + t2 =~= t2);
    } else {
        assert((t1 + t2)[0] == t1[0]);
        match apply_token(m, t1[0]) {
            Some(m2) => {
                assert((t1 + t2).drop_first() =~= t1.drop_first() + t2);
                lemma_build_append(m2, t1.drop_first(), t2);
            },
            None => {
                assert((t1 + t2).len() > 0);
            },
        }
    }
}

/// The whole construction keeps the builder well formed.
pub proof fn lemma_build_tokens_wf(m: BuildState, tokens: Seq<Token>)
    requires
        wf_build(m),
        build_tokens(m, tokens) is Some,
    ensures
        wf_build(build_tokens(m, tokens)->Some_0),
    decreases tokens.len(),
{
    if tokens.len() > 0 {
        let m2 = apply_token(m, tokens[0])->Some_0;
        lemma_apply_token_wf(m, tokens[0]);
        lemma_build_tokens_wf(m2, tokens.drop_first());
    }
}

/// Every construction rule keeps the builder well formed: all new edges and
/// the new fragment point into the (possibly grown) arena.
pub proof fn lemma_apply_token_wf(m: BuildState, t: Token)
    requires
        wf_build(m),
        apply_token(m, t) is Some,
    ensures
        wf_build(apply_token(m, t)->Some_0),
{
    let m2 = apply_token(m, t)->Some_0;
    assert(wf_build(m2));
}

} // verus!
