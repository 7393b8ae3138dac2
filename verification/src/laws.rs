//! Laws of the engine, stated and proved once and for all inputs.

use vstd::prelude::*;

use crate::builder::{
    alt_step, apply_token, build_tokens, char_step, concat_step, empty_build, qmark_step, rep_step,
    BuildState,
};
use crate::compiled_nfa;
use crate::epsilon_nfa;
use crate::nfa_of;
use crate::parser::{spec_exp, spec_factor, spec_parse, spec_primary, spec_term};
use crate::state::SpecState;
use crate::token::Token;
use crate::nfa::{
    accepts, closure, eps_reach, in_range, is_eps_path, lemma_closed_contains_reach,
    lemma_reach_in_range, lookup, run, step_states, targets, SpecNfa,
};

verus! {

/// Construction is deterministic: compiling one pattern twice yields
/// automatons that agree on every subject, so matching a subject against
/// either gives the same answer.
pub proof fn lemma_compile_deterministic(p: Seq<char>, n1: SpecNfa, n2: SpecNfa, s: Seq<char>)
    requires
        compiled_nfa(p) == Some(n1),
        compiled_nfa(p) == Some(n2),
    ensures
        accepts(n1, s) == accepts(n2, s),
{
}

/// No state is epsilon-reachable from the empty set.
pub proof fn lemma_closure_empty(n: SpecNfa)
    ensures
        closure(n, Set::<int>::empty()) =~= Set::<int>::empty(),
{
    assert forall|j: int| !eps_reach(n, Set::<int>::empty(), j) by {
        assert forall|p: Seq<int>| !is_eps_path(n, Set::<int>::empty(), p, j) by {
            assert(!Set::<int>::empty().contains(p[0]));
        }
    }
}

/// The empty state set is stuck: no input leads anywhere from it.
pub proof fn lemma_run_empty(n: SpecNfa, s: Seq<char>)
    ensures
        run(n, Set::<int>::empty(), s) =~= Set::<int>::empty(),
    decreases s.len(),
{
    if s.len() > 0 {
        assert(targets(n, Set::<int>::empty(), s[0]) =~= Set::<int>::empty());
        lemma_closure_empty(n);
        assert(step_states(n, Set::<int>::empty(), s[0]) =~= Set::<int>::empty());
        lemma_run_empty(n, s.drop_first());
    }
}

/// The empty pattern denotes the automaton that accepts only the empty
/// string: its automaton accepts a subject exactly when the subject is
/// empty.
pub proof fn lemma_empty_pattern_language(s: Seq<char>)
    ensures
        accepts(epsilon_nfa(), s) <==> s.len() == 0,
{
    let n = epsilon_nfa();
    let init = Set::<int>::empty().insert(0int);
    let c01 = Set::<int>::empty().insert(0int).insert(1int);
    assert forall|j: int| eps_reach(n, init, j) implies c01.contains(j) by {
        lemma_reach_in_range(n, init, j);
    }
    assert(n.states[0].eps[0] == 1);
    assert(is_eps_path(n, init, seq![0int], 0));
    assert(n.states[0].eps.contains(1int));
    assert(is_eps_path(n, init, seq![0int, 1int], 1));
    assert(closure(n, init) =~= c01);
    if s.len() == 0 {
        let fin = run(n, closure(n, Set::<int>::empty().insert(n.start)), s);
        assert(fin == closure(n, init));
        assert(eps_reach(n, init, 1));
        assert(fin.contains(1int) && in_range(n, 1) && n.states[1].is_end);
        assert(accepts(n, s));
    } else {
        assert forall|t: int| !targets(n, c01, s[0]).contains(t) by {
            if targets(n, c01, s[0]).contains(t) {
                let i = choose|i: int|
                    #[trigger] c01.contains(i) && in_range(n, i) && lookup(n.states[i].trans, s[0])
                        == Some(t);
                assert(n.states[i].trans.len() == 0);
            }
        }
        assert(targets(n, c01, s[0]) =~= Set::<int>::empty());
        lemma_closure_empty(n);
        assert(step_states(n, c01, s[0]) =~= Set::<int>::empty());
        lemma_run_empty(n, s.drop_first());
        let fin = run(n, closure(n, init), s);
        assert(fin =~= Set::<int>::empty());
        assert(!accepts(n, s));
    }
}

/// The nullability rule of each construction rule, over a stack of
/// nullability flags that mirrors the builder's fragment stack: a literal
/// never derives the empty string, a concatenation does when both operands
/// do, an alternation when either does, a star or a zero-or-one always, a
/// one-or-more exactly when its operand does.
pub open spec fn nullable_step(ns: Seq<bool>, t: Token) -> Option<Seq<bool>> {
    match t {
        Token::Char(_) => Some(ns.push(false)),
        Token::Concat => if ns.len() >= 2 {
            Some(ns.take(ns.len() - 2).push(ns[ns.len() - 2] && ns[ns.len() - 1]))
        } else {
            None
        },
        Token::Alt => if ns.len() >= 2 {
            Some(ns.take(ns.len() - 2).push(ns[ns.len() - 2] || ns[ns.len() - 1]))
        } else {
            None
        },
        Token::Star => if ns.len() >= 1 {
            Some(ns.take(ns.len() - 1).push(true))
        } else {
            None
        },
        Token::Plus => if ns.len() >= 1 {
            Some(ns)
        } else {
            None
        },
        Token::QMark => if ns.len() >= 1 {
            Some(ns.take(ns.len() - 1).push(true))
        } else {
            None
        },
        Token::LeftParen => None,
        Token::RightParen => None,
        Token::End => None,
    }
}

/// The nullability rules folded over a postfix token stream.
pub open spec fn nullable_fold(ns: Seq<bool>, tokens: Seq<Token>) -> Option<Seq<bool>>
    decreases tokens.len(),
{
    if tokens.len() == 0 {
        Some(ns)
    } else {
        match nullable_step(ns, tokens[0]) {
            Some(ns2) => nullable_fold(ns2, tokens.drop_first()),
            None => None,
        }
    }
}

/// The pattern derives the empty string: the empty pattern does, and any
/// other pattern does exactly when the nullability rules, folded over its
/// postfix form, leave a single true flag.
pub open spec fn pattern_nullable(p: Seq<char>) -> bool {
    if p.len() == 0 {
        true
    } else {
        match spec_parse(p) {
            Some(t) => match nullable_fold(Seq::empty(), t) {
                Some(ns) => ns.len() == 1 && ns[0],
                None => false,
            },
            None => false,
        }
    }
}

/// A state arena wrapped as an automaton; reachability reads only the
/// states, so the start and end indices are immaterial here.
spec fn graph_of(states: Seq<SpecState>) -> SpecNfa {
    SpecNfa { states, start: 0, end: 0 }
}

/// `b` extends `a`: it has at least the states of `a`, and every old
/// state's epsilon list is only appended to. Every construction rule
/// extends the arena in this sense.
spec fn eps_extends(a: Seq<SpecState>, b: Seq<SpecState>) -> bool {
    &&& a.len() <= b.len()
    &&& forall|i: int| 0 <= i < a.len() ==> (#[trigger] a[i].eps).is_prefix_of(b[i].eps)
}

/// Epsilon paths survive arena extension: states are never removed and
/// epsilon edges never change place, so reachability is monotone under
/// construction.
proof fn lemma_reach_extends(a: Seq<SpecState>, b: Seq<SpecState>, init: Set<int>, j: int)
    requires
        eps_extends(a, b),
        eps_reach(graph_of(a), init, j),
    ensures
        eps_reach(graph_of(b), init, j),
{
    let p = choose|p: Seq<int>| is_eps_path(graph_of(a), init, p, j);
    assert forall|k: int| 0 <= k < p.len() - 1 implies in_range(graph_of(b), #[trigger] p[k])
        && graph_of(b).states[p[k]].eps.contains(p[k + 1]) by {
        assert(a[p[k]].eps.contains(p[k + 1]));
        let idx = choose|idx: int| 0 <= idx < a[p[k]].eps.len() && a[p[k]].eps[idx] == p[k + 1];
        assert(a[p[k]].eps.is_prefix_of(b[p[k]].eps));
        assert(b[p[k]].eps[idx] == a[p[k]].eps[idx]);
        assert(b[p[k]].eps.contains(p[k + 1]));
    }
    assert(is_eps_path(graph_of(b), init, p, j));
}

/// Two epsilon paths joined by an epsilon edge form an epsilon path.
proof fn lemma_path_join(
    states: Seq<SpecState>,
    init: Set<int>,
    p1: Seq<int>,
    a: int,
    mid: int,
    p2: Seq<int>,
    b: int,
)
    requires
        is_eps_path(graph_of(states), init, p1, a),
        is_eps_path(graph_of(states), Set::<int>::empty().insert(mid), p2, b),
        in_range(graph_of(states), a),
        states[a].eps.contains(mid),
    ensures
        eps_reach(graph_of(states), init, b),
{
    let q = p1 + p2;
    assert(p2[0] == mid);
    assert(q[q.len() - 1] == p2[p2.len() - 1]);
    assert forall|k: int| 0 <= k < q.len() - 1 implies in_range(graph_of(states), #[trigger] q[k])
        && graph_of(states).states[q[k]].eps.contains(q[k + 1]) by {
        if k < p1.len() - 1 {
            assert(q[k] == p1[k] && q[k + 1] == p1[k + 1]);
        } else if k == p1.len() - 1 {
            assert(q[k] == a && q[k + 1] == p2[0]);
        } else {
            assert(q[k] == p2[k - p1.len()] && q[k + 1] == p2[k + 1 - p1.len()]);
        }
    }
    assert(is_eps_path(graph_of(states), init, q, b));
}

/// A single state of `init` is an epsilon path.
proof fn lemma_path_single(states: Seq<SpecState>, x: int)
    ensures
        is_eps_path(graph_of(states), Set::<int>::empty().insert(x), seq![x], x),
{
}

/// The nullability stack is sound for the fragment stack: wherever its flag
/// is true, the fragment's end is epsilon-reachable from its start.
spec fn frags_sound(m: BuildState, ns: Seq<bool>) -> bool {
    &&& ns.len() == m.stack.len()
    &&& forall|i: int|
        0 <= i < ns.len() && ns[i] ==> eps_reach(
            graph_of(m.states),
            Set::<int>::empty().insert((#[trigger] m.stack[i]).0),
            m.stack[i].1,
        )
}

/// Every construction rule only appends states and epsilon edges: each old
/// state's epsilon list agrees with the new one on its whole length.
proof fn lemma_step_extends(m: BuildState, t: Token)
    requires
        crate::builder::wf_build(m),
        apply_token(m, t) is Some,
    ensures
        eps_extends(m.states, apply_token(m, t)->Some_0.states),
{
    let b = apply_token(m, t)->Some_0.states;
    assert forall|i: int| 0 <= i < m.states.len() implies (#[trigger] m.states[i].eps).is_prefix_of(
        b[i].eps,
    ) by {
        let s = m.states[i].eps;
        let n = m.states.len() as int;
        match t {
            Token::Char(_) => {
                assert(b[i].eps == s);
            },
            Token::Concat => {
                let right = m.stack[m.stack.len() - 1];
                assert(b[i].eps == s || b[i].eps == s.push(right.0));
            },
            Token::Alt => {
                assert(b[i].eps == s || b[i].eps == s.push(n + 1) || b[i].eps == s.push(n + 1).push(
                    n + 1,
                ));
            },
            Token::Star => {
                let inner = m.stack[m.stack.len() - 1];
                assert(b[i].eps == s || b[i].eps == s.push(n + 1).push(inner.0));
            },
            Token::Plus => {
                let inner = m.stack[m.stack.len() - 1];
                assert(b[i].eps == s || b[i].eps == s.push(n + 1).push(inner.0));
            },
            Token::QMark => {
                let inner = m.stack[m.stack.len() - 1];
                assert(b[i].eps == s || b[i].eps == s.push(inner.1));
            },
            _ => {},
        }
        assert(s.len() <= b[i].eps.len());
        assert(forall|k: int| 0 <= k < s.len() ==> s[k] == b[i].eps[k]);
        assert(s =~= b[i].eps.subrange(0, s.len() as int));
    }
}

/// Each construction rule preserves soundness of the nullability stack:
/// the rules only add epsilon edges, so old reachability survives, and
/// wherever a rule's nullability flag comes out true, the new fragment's
/// end is reachable from its start by the freshly wired epsilon edges.
proof fn lemma_step_sound(m: BuildState, ns: Seq<bool>, t: Token)
    requires
        crate::builder::wf_build(m),
        frags_sound(m, ns),
        apply_token(m, t) is Some,
    ensures
        nullable_step(ns, t) is Some,
        frags_sound(apply_token(m, t)->Some_0, nullable_step(ns, t)->Some_0),
{
    let m2 = apply_token(m, t)->Some_0;
    let ns2 = nullable_step(ns, t)->Some_0;
    let len = ns.len() as int;
    let n = m.states.len() as int;
    lemma_step_extends(m, t);
    assert forall|i: int|
        0 <= i < len && ns[i] implies eps_reach(
        graph_of(m2.states),
        Set::<int>::empty().insert(m.stack[i].0),
        m.stack[i].1,
    ) by {
        lemma_reach_extends(m.states, m2.states, Set::<int>::empty().insert(m.stack[i].0), m.stack[i].1);
    }
    match t {
        Token::Char(_) => {},
        Token::Concat => {
            let l = m.stack[len - 2];
            let r = m.stack[len - 1];
            if ns[len - 2] && ns[len - 1] {
                let p1 = choose|p: Seq<int>|
                    is_eps_path(graph_of(m2.states), Set::<int>::empty().insert(l.0), p, l.1);
                let p2 = choose|p: Seq<int>|
                    is_eps_path(graph_of(m2.states), Set::<int>::empty().insert(r.0), p, r.1);
                assert(m2.states[l.1].eps.last() == r.0 || (l.1 == r.1 && m2.states[l.1].eps.last()
                    == r.0));
                assert(m2.states[l.1].eps.contains(r.0));
                lemma_path_join(m2.states, Set::<int>::empty().insert(l.0), p1, l.1, r.0, p2, r.1);
            }
            assert(m2.stack[m2.stack.len() - 1] == (l.0, r.1));
        },
        Token::Alt => {
            let l = m.stack[len - 2];
            let r = m.stack[len - 1];
            if ns[len - 2] || ns[len - 1] {
                let f = if ns[len - 2] {
                    l
                } else {
                    r
                };
                let pf = choose|p: Seq<int>|
                    is_eps_path(graph_of(m2.states), Set::<int>::empty().insert(f.0), p, f.1);
                assert(m2.states[n].eps == seq![l.0, r.0]);
                assert(m2.states[n].eps[0] == l.0 && m2.states[n].eps[1] == r.0);
                assert(m2.states[n].eps.contains(f.0));
                lemma_path_single(m2.states, n);
                lemma_path_join(
                    m2.states,
                    Set::<int>::empty().insert(n),
                    seq![n],
                    n,
                    f.0,
                    pf,
                    f.1,
                );
                let q = choose|p: Seq<int>|
                    is_eps_path(graph_of(m2.states), Set::<int>::empty().insert(n), p, f.1);
                assert(m2.states[f.1].eps.contains(n + 1)) by {
                    assert(m2.states[f.1].eps.last() == n + 1);
                }
                lemma_path_single(m2.states, n + 1);
                lemma_path_join(
                    m2.states,
                    Set::<int>::empty().insert(n),
                    q,
                    f.1,
                    n + 1,
                    seq![n + 1],
                    n + 1,
                );
            }
            assert(m2.stack[m2.stack.len() - 1] == (n, n + 1));
        },
        Token::Star => {
            assert(m2.states[n].eps[1] == n + 1);
            assert(m2.states[n].eps.contains(n + 1));
            assert(is_eps_path(
                graph_of(m2.states),
                Set::<int>::empty().insert(n),
                seq![n, n + 1],
                n + 1,
            ));
            assert(m2.stack[m2.stack.len() - 1] == (n, n + 1));
        },
        Token::Plus => {
            let inner = m.stack[len - 1];
            if ns[len - 1] {
                let pf = choose|p: Seq<int>|
                    is_eps_path(
                        graph_of(m2.states),
                        Set::<int>::empty().insert(inner.0),
                        p,
                        inner.1,
                    );
                assert(m2.states[n].eps == seq![inner.0]);
                assert(m2.states[n].eps[0] == inner.0);
                assert(m2.states[n].eps.contains(inner.0));
                lemma_path_single(m2.states, n);
                lemma_path_join(
                    m2.states,
                    Set::<int>::empty().insert(n),
                    seq![n],
                    n,
                    inner.0,
                    pf,
                    inner.1,
                );
                let q = choose|p: Seq<int>|
                    is_eps_path(graph_of(m2.states), Set::<int>::empty().insert(n), p, inner.1);
                assert(m2.states[inner.1].eps.contains(n + 1)) by {
                    let es = m2.states[inner.1].eps;
                    assert(es[es.len() - 2] == n + 1);
                }
                lemma_path_single(m2.states, n + 1);
                lemma_path_join(
                    m2.states,
                    Set::<int>::empty().insert(n),
                    q,
                    inner.1,
                    n + 1,
                    seq![n + 1],
                    n + 1,
                );
            }
            assert(m2.stack[m2.stack.len() - 1] == (n, n + 1));
        },
        Token::QMark => {
            let inner = m.stack[len - 1];
            assert(m2.states[inner.0].eps.contains(inner.1)) by {
                assert(m2.states[inner.0].eps.last() == inner.1);
            }
            assert(is_eps_path(
                graph_of(m2.states),
                Set::<int>::empty().insert(inner.0),
                seq![inner.0, inner.1],
                inner.1,
            ));
        },
        _ => {},
    }
}

/// Folding the rules preserves soundness of the nullability stack.
proof fn lemma_fold_sound(m: BuildState, ns: Seq<bool>, tokens: Seq<Token>)
    requires
        crate::builder::wf_build(m),
        frags_sound(m, ns),
        build_tokens(m, tokens) is Some,
    ensures
        nullable_fold(ns, tokens) is Some,
        frags_sound(build_tokens(m, tokens)->Some_0, nullable_fold(ns, tokens)->Some_0),
    decreases tokens.len(),
{
    if tokens.len() > 0 {
        let m2 = apply_token(m, tokens[0])->Some_0;
        lemma_step_sound(m, ns, tokens[0]);
        crate::builder::lemma_apply_token_wf(m, tokens[0]);
        lemma_fold_sound(m2, nullable_step(ns, tokens[0])->Some_0, tokens.drop_first());
    }
}

/// One direction of the empty-subject law, over a raw postfix token
/// stream: where the nullability fold leaves a true flag, the built
/// automaton accepts the empty subject.
proof fn lemma_nullable_accepts_empty(toks: Seq<Token>, n: SpecNfa)
    requires
        build_tokens(empty_build(), toks) is Some,
        build_tokens(empty_build(), toks)->Some_0.stack.len() == 1,
        n == nfa_of(build_tokens(empty_build(), toks)->Some_0),
        nullable_fold(Seq::<bool>::empty(), toks) is Some,
        nullable_fold(Seq::<bool>::empty(), toks)->Some_0[0],
    ensures
        accepts(n, Seq::<char>::empty()),
{
    let mfin = build_tokens(empty_build(), toks)->Some_0;
    assert(frags_sound(empty_build(), Seq::<bool>::empty()));
    lemma_fold_sound(empty_build(), Seq::<bool>::empty(), toks);
    crate::builder::lemma_build_tokens_wf(empty_build(), toks);
    let ns = nullable_fold(Seq::<bool>::empty(), toks)->Some_0;
    let f = mfin.stack[0];
    assert(ns[0]);
    assert(eps_reach(graph_of(mfin.states), Set::<int>::empty().insert(f.0), f.1));
    assert(eps_extends(mfin.states, n.states)) by {
        assert forall|i: int|
            0 <= i < mfin.states.len() implies (#[trigger] mfin.states[i].eps).is_prefix_of(
            n.states[i].eps,
        ) by {
            assert(n.states[i].eps == mfin.states[i].eps);
            assert(mfin.states[i].eps =~= n.states[i].eps.subrange(
                0,
                mfin.states[i].eps.len() as int,
            ));
        }
    }
    lemma_reach_extends(mfin.states, n.states, Set::<int>::empty().insert(f.0), f.1);
    let q = choose|q: Seq<int>|
        is_eps_path(graph_of(n.states), Set::<int>::empty().insert(f.0), q, f.1);
    assert(is_eps_path(n, Set::<int>::empty().insert(n.start), q, f.1));
    assert(eps_reach(n, Set::<int>::empty().insert(n.start), f.1));
    let fin = run(n, closure(n, Set::<int>::empty().insert(n.start)), Seq::<char>::empty());
    assert(fin == closure(n, Set::<int>::empty().insert(n.start)));
    assert(fin.contains(f.1) && in_range(n, f.1) && n.states[f.1].is_end);
    assert(accepts(n, Seq::<char>::empty()));

}

/// A path starting in an epsilon-closed interval of states stays in it.
proof fn lemma_path_confined(
    states: Seq<SpecState>,
    lo: int,
    hi: int,
    init: Set<int>,
    p: Seq<int>,
    j: int,
)
    requires
        0 <= lo <= hi <= states.len(),
        forall|x: int, k: int|
            #![trigger states[x].eps[k]]
            lo <= x < hi && 0 <= k < states[x].eps.len() ==> lo <= states[x].eps[k] < hi,
        forall|y: int| init.contains(y) ==> lo <= y < hi,
        is_eps_path(graph_of(states), init, p, j),
    ensures
        forall|k: int| 0 <= k < p.len() ==> lo <= #[trigger] p[k] < hi,
    decreases p.len(),
{
    if p.len() > 1 {
        assert(states[p[0]].eps.contains(p[1]));
        let idx = choose|idx: int|
            0 <= idx < states[p[0]].eps.len() && states[p[0]].eps[idx] == p[1];
        assert(lo <= states[p[0]].eps[idx] < hi);
        let q = p.drop_first();
        assert(is_eps_path(graph_of(states), Set::<int>::empty().insert(p[1]), q, j)) by {
            assert(forall|k: int|
                0 <= k < q.len() - 1 ==> q[k] == p[k + 1] && #[trigger] q[k + 1] == p[k + 2]);
        }
        lemma_path_confined(states, lo, hi, Set::<int>::empty().insert(p[1]), q, j);
        assert forall|k: int| 0 <= k < p.len() implies lo <= #[trigger] p[k] < hi by {
            if k > 0 {
                assert(p[k] == q[k - 1]);
                assert(lo <= q[k - 1] < hi);
            }
        }
    }
}

/// A path through states whose epsilon lists are the same in two arenas is
/// a path in both.
proof fn lemma_path_transfer(
    a: Seq<SpecState>,
    b: Seq<SpecState>,
    init: Set<int>,
    p: Seq<int>,
    j: int,
)
    requires
        is_eps_path(graph_of(b), init, p, j),
        forall|k: int| 0 <= k < p.len() ==> 0 <= #[trigger] p[k] < a.len(),
        a.len() <= b.len(),
        forall|k: int| 0 <= k < p.len() ==> a[#[trigger] p[k]].eps == b[p[k]].eps,
    ensures
        is_eps_path(graph_of(a), init, p, j),
{
}

/// The first position of a path inside the interval, where the path starts
/// outside it and ends inside.
proof fn lemma_first_inside(p: Seq<int>, lo: int, hi: int) -> (k: int)
    requires
        p.len() >= 1,
        !(lo <= p[0] < hi),
        lo <= p[p.len() - 1] < hi,
    ensures
        1 <= k < p.len(),
        lo <= p[k] < hi,
        forall|j: int| 0 <= j < k ==> !(lo <= #[trigger] p[j] < hi),
    decreases p.len(),
{
    if lo <= p[1] < hi {
        1
    } else {
        let q = p.drop_first();
        let k2 = lemma_first_inside(q, lo, hi);
        assert(p[k2 + 1] == q[k2]);
        assert forall|j: int| 0 <= j < k2 + 1 implies !(lo <= #[trigger] p[j] < hi) by {
            if j > 0 {
                assert(p[j] == q[j - 1]);
            }
        }
        k2 + 1
    }
}

/// The first position of a path outside the interval, where the path
/// starts inside it and ends outside.
proof fn lemma_first_outside(p: Seq<int>, lo: int, hi: int) -> (k: int)
    requires
        p.len() >= 1,
        lo <= p[0] < hi,
        !(lo <= p[p.len() - 1] < hi),
    ensures
        1 <= k < p.len(),
        !(lo <= p[k] < hi),
        forall|j: int| 0 <= j < k ==> lo <= #[trigger] p[j] < hi,
    decreases p.len(),
{
    if !(lo <= p[1] < hi) {
        1
    } else {
        let q = p.drop_first();
        let k2 = lemma_first_outside(q, lo, hi);
        assert(p[k2 + 1] == q[k2]);
        assert forall|j: int| 0 <= j < k2 + 1 implies lo <= #[trigger] p[j] < hi by {
            if j > 0 {
                assert(p[j] == q[j - 1]);
            }
        }
        k2 + 1
    }
}

/// The first occurrence of a value on a path that holds it.
proof fn lemma_first_eq(p: Seq<int>, v: int) -> (k: int)
    requires
        p.len() >= 1,
        p.contains(v),
    ensures
        0 <= k < p.len(),
        p[k] == v,
        forall|j: int| 0 <= j < k ==> p[j] != v,
    decreases p.len(),
{
    if p[0] == v {
        0
    } else {
        let q = p.drop_first();
        assert(q.contains(v)) by {
            let idx = choose|idx: int| 0 <= idx < p.len() && p[idx] == v;
            assert(q[idx - 1] == v);
        }
        let k2 = lemma_first_eq(q, v);
        assert(p[k2 + 1] == q[k2]);
        assert forall|j: int| 0 <= j < k2 + 1 implies p[j] != v by {
            if j > 0 {
                assert(p[j] == q[j - 1]);
            }
        }
        k2 + 1
    }
}

/// A consecutive piece of an epsilon path is an epsilon path from its own
/// first state.
proof fn lemma_subrange_path(
    states: Seq<SpecState>,
    init: Set<int>,
    p: Seq<int>,
    j: int,
    a: int,
    b: int,
)
    requires
        is_eps_path(graph_of(states), init, p, j),
        0 <= a < b <= p.len(),
    ensures
        is_eps_path(
            graph_of(states),
            Set::<int>::empty().insert(p[a]),
            p.subrange(a, b),
            p[b - 1],
        ),
{
    let q = p.subrange(a, b);
    assert forall|k: int| 0 <= k < q.len() - 1 implies in_range(graph_of(states), #[trigger] q[k])
        && graph_of(states).states[q[k]].eps.contains(q[k + 1]) by {
        assert(q[k] == p[a + k] && q[k + 1] == p[a + k + 1]);
    }
}

/// A fragment whose interval of states is untouched by an arena change and
/// epsilon-closed keeps an unreachable end unreachable: any new path would
/// be confined to the interval and so already exist in the old arena.
proof fn lemma_untouched_complete(
    aold: Seq<SpecState>,
    anew: Seq<SpecState>,
    lo: int,
    hi: int,
    st: int,
    en: int,
)
    requires
        0 <= lo <= hi <= aold.len(),
        aold.len() <= anew.len(),
        lo <= st < hi,
        lo <= en < hi,
        forall|x: int| lo <= x < hi ==> (#[trigger] anew[x].eps) == aold[x].eps,
        forall|x: int, k: int|
            #![trigger aold[x].eps[k]]
            lo <= x < hi && 0 <= k < aold[x].eps.len() ==> lo <= aold[x].eps[k] < hi,
        !eps_reach(graph_of(aold), Set::<int>::empty().insert(st), en),
    ensures
        !eps_reach(graph_of(anew), Set::<int>::empty().insert(st), en),
{
    if eps_reach(graph_of(anew), Set::<int>::empty().insert(st), en) {
        let p = choose|p: Seq<int>|
            is_eps_path(graph_of(anew), Set::<int>::empty().insert(st), p, en);
        assert forall|x: int, k: int|
            #![trigger anew[x].eps[k]]
            lo <= x < hi && 0 <= k < anew[x].eps.len() implies lo <= anew[x].eps[k] < hi by {
            assert(anew[x].eps == aold[x].eps);
        }
        lemma_path_confined(anew, lo, hi, Set::<int>::empty().insert(st), p, en);
        lemma_path_transfer(aold, anew, Set::<int>::empty().insert(st), p, en);
    }
}

/// Fragment ownership: the bounds partition the arena into one interval
/// per stack fragment, in stack order; each fragment's start and end lie
/// in its interval, every epsilon edge from a state of an interval stays
/// inside that interval, and every accepting state is some fragment's end.
spec fn frags_partition(m: BuildState, bs: Seq<int>) -> bool {
    &&& bs.len() == m.stack.len() + 1
    &&& bs[0] == 0
    &&& bs[bs.len() - 1] == m.states.len()
    &&& forall|i: int, j: int| 0 <= i < j < bs.len() ==> #[trigger] bs[i] < #[trigger] bs[j]
    &&& forall|i: int|
        0 <= i < m.stack.len() ==> bs[i] <= (#[trigger] m.stack[i]).0 < bs[i + 1] && bs[i]
            <= m.stack[i].1 < bs[i + 1]
    &&& forall|i: int, x: int, k: int|
        #![trigger bs[i], m.states[x].eps[k]]
        0 <= i < m.stack.len() && bs[i] <= x < bs[i + 1] && 0 <= k < m.states[x].eps.len()
            ==> bs[i] <= m.states[x].eps[k] < bs[i + 1]
    &&& forall|x: int|
        0 <= x < m.states.len() && (#[trigger] m.states[x]).is_end ==> exists|i: int|
            0 <= i < m.stack.len() && (#[trigger] m.stack[i]).1 == x
}

/// The nullability stack is complete for the fragment stack: wherever its
/// flag is false, the fragment's end is not epsilon-reachable from its
/// start.
spec fn frags_complete(m: BuildState, ns: Seq<bool>) -> bool {
    &&& ns.len() == m.stack.len()
    &&& forall|i: int|
        0 <= i < ns.len() && !ns[i] ==> !eps_reach(
            graph_of(m.states),
            Set::<int>::empty().insert((#[trigger] m.stack[i]).0),
            m.stack[i].1,
        )
}

/// A state with no epsilon edges reaches only itself.
proof fn lemma_no_edges_no_reach(states: Seq<SpecState>, st: int, en: int)
    requires
        0 <= st < states.len(),
        states[st].eps.len() == 0,
        en != st,
    ensures
        !eps_reach(graph_of(states), Set::<int>::empty().insert(st), en),
{
    if eps_reach(graph_of(states), Set::<int>::empty().insert(st), en) {
        let p = choose|p: Seq<int>|
            is_eps_path(graph_of(states), Set::<int>::empty().insert(st), p, en);
        assert(p[0] == st);
        if p.len() >= 2 {
            assert(states[st].eps.contains(p[1]));
        }
        assert(p[p.len() - 1] == st);
    }
}

/// The literal rule preserves fragment ownership and completeness: the new
/// fragment's start has no epsilon edges at all, so its end is not
/// epsilon-reachable — a literal never derives the empty string.
proof fn lemma_complete_char(m: BuildState, ns: Seq<bool>, bs: Seq<int>, c: char) -> (bs2: Seq<
    int,
>)
    requires
        crate::builder::wf_build(m),
        frags_partition(m, bs),
        frags_complete(m, ns),
    ensures
        frags_partition(char_step(m, c), bs2),
        frags_complete(char_step(m, c), ns.push(false)),
{
    let n = m.states.len() as int;
    let m2 = char_step(m, c);
    let bs2 = bs.push(n + 2);
    let ns2 = ns.push(false);
    let len = m.stack.len() as int;
    assert(frags_partition(m2, bs2)) by {
        assert(bs2[bs2.len() - 1] == n + 2);
        assert(m2.states.len() == n + 2);
        assert(bs[bs.len() - 1] == n);
        assert forall|i: int, j: int| 0 <= i < j < bs2.len() implies #[trigger] bs2[i]
            < #[trigger] bs2[j] by {
            if j < bs2.len() - 1 {
                assert(bs2[i] == bs[i] && bs2[j] == bs[j]);
            } else {
                assert(bs2[j] == n + 2);
                if i < bs.len() - 1 {
                    assert(bs[i] < bs[bs.len() - 1]);
                }
                assert(bs2[i] <= n);
            }
        }
        assert forall|i: int|
            0 <= i < m2.stack.len() implies bs2[i] <= (#[trigger] m2.stack[i]).0 < bs2[i + 1]
            && bs2[i] <= m2.stack[i].1 < bs2[i + 1] by {
            if i < len {
                assert(m2.stack[i] == m.stack[i]);
                assert(bs2[i] == bs[i] && bs2[i + 1] == bs[i + 1]);
            } else {
                assert(m2.stack[i] == (n, n + 1));
                assert(bs2[i] == n && bs2[i + 1] == n + 2);
            }
        }
        assert forall|i: int, x: int, k: int|
            #![trigger bs2[i], m2.states[x].eps[k]]
            0 <= i < m2.stack.len() && bs2[i] <= x < bs2[i + 1] && 0 <= k
                < m2.states[x].eps.len() implies bs2[i] <= m2.states[x].eps[k] < bs2[i + 1] by {
            if i < len {
                assert(x < bs[i + 1] <= n);
                assert(m2.states[x] == m.states[x]);
                assert(bs[i] <= m.states[x].eps[k] < bs[i + 1]);
            } else {
                assert(x == n || x == n + 1);
                assert(m2.states[x].eps.len() == 0);
            }
        }
        assert forall|x: int|
            0 <= x < m2.states.len() && (#[trigger] m2.states[x]).is_end implies exists|i: int|
            0 <= i < m2.stack.len() && (#[trigger] m2.stack[i]).1 == x by {
            if x < n {
                assert(m2.states[x] == m.states[x]);
                let i0 = choose|i0: int| 0 <= i0 < m.stack.len() && m.stack[i0].1 == x;
                assert(m2.stack[i0] == m.stack[i0]);
                assert(0 <= i0 < m2.stack.len() && m2.stack[i0].1 == x);
            } else {
                assert(!m2.states[n as int].is_end);
                assert(x == n + 1);
                assert(m2.stack[len].1 == x);
                assert(0 <= len < m2.stack.len() && m2.stack[len].1 == x);
            }
        }
    }
    assert forall|i: int|
        0 <= i < ns2.len() && !ns2[i] implies !eps_reach(
        graph_of(m2.states),
        Set::<int>::empty().insert((#[trigger] m2.stack[i]).0),
        m2.stack[i].1,
    ) by {
        if i < ns.len() {
            assert(m2.stack[i] == m.stack[i]);
            lemma_untouched_complete(
                m.states,
                m2.states,
                bs[i],
                bs[i + 1],
                m.stack[i].0,
                m.stack[i].1,
            );
        } else {
            assert(m2.stack[i] == (n, n + 1));
            assert(m2.states[n].eps.len() == 0);
            lemma_no_edges_no_reach(m2.states, n, n + 1);
        }
    }
    bs2
}

/// The zero-or-one rule preserves fragment ownership and completeness: its
/// nullability flag is always true, so there is nothing to refute, and the
/// one new edge stays inside the fragment's interval.
proof fn lemma_complete_qmark(m: BuildState, ns: Seq<bool>, bs: Seq<int>) -> (bs2: Seq<int>)
    requires
        crate::builder::wf_build(m),
        frags_partition(m, bs),
        frags_complete(m, ns),
        m.stack.len() >= 1,
        ns.len() == m.stack.len(),
    ensures
        frags_partition(qmark_step(m), bs2),
        frags_complete(qmark_step(m), ns.take(ns.len() - 1).push(true)),
{
    let m2 = qmark_step(m);
    let ns2 = ns.take(ns.len() - 1).push(true);
    let len = m.stack.len() as int;
    let inner = m.stack[len - 1];
    assert(frags_partition(m2, bs)) by {
        assert(m2.states.len() == m.states.len());
        assert(m2.stack == m.stack);
        assert forall|i: int, x: int, k: int|
            #![trigger bs[i], m2.states[x].eps[k]]
            0 <= i < m2.stack.len() && bs[i] <= x < bs[i + 1] && 0 <= k
                < m2.states[x].eps.len() implies bs[i] <= m2.states[x].eps[k] < bs[i + 1] by {
            if x == inner.0 && k == m2.states[x].eps.len() - 1 {
                assert(m2.states[x].eps[k] == inner.1);
                assert(i == len - 1) by {
                    assert(bs[len - 1] <= inner.0 < bs[len]);
                }
            } else {
                assert(m2.states[x].eps[k] == m.states[x].eps[k]);
            }
        }
        assert forall|x: int|
            0 <= x < m2.states.len() && (#[trigger] m2.states[x]).is_end implies exists|i: int|
            0 <= i < m2.stack.len() && (#[trigger] m2.stack[i]).1 == x by {
            assert(m2.states[x].is_end == m.states[x].is_end);
            let i0 = choose|i0: int| 0 <= i0 < m.stack.len() && m.stack[i0].1 == x;
            assert(0 <= i0 < m2.stack.len() && m2.stack[i0].1 == x);
        }
    }
    assert forall|i: int|
        0 <= i < ns2.len() && !ns2[i] implies !eps_reach(
        graph_of(m2.states),
        Set::<int>::empty().insert((#[trigger] m2.stack[i]).0),
        m2.stack[i].1,
    ) by {
        assert(i < len - 1);
        assert(m2.stack[i] == m.stack[i]);
        assert(ns2[i] == ns[i]);
        lemma_untouched_complete(
            m.states,
            m2.states,
            bs[i],
            bs[i + 1],
            m.stack[i].0,
            m.stack[i].1,
        );
    }
    bs
}

/// The concatenation rule preserves fragment ownership and completeness.
/// The operand intervals merge, and the only epsilon edge between them is
/// the new one from the left end to the right start: a path from the left
/// start to the right end must cross exactly there, so it decomposes into
/// an old left path and an old right path — both operands derive the empty
/// string whenever the concatenation does.
proof fn lemma_complete_concat(m: BuildState, ns: Seq<bool>, bs: Seq<int>) -> (bs2: Seq<int>)
    requires
        crate::builder::wf_build(m),
        frags_partition(m, bs),
        frags_complete(m, ns),
        m.stack.len() >= 2,
        ns.len() == m.stack.len(),
    ensures
        frags_partition(concat_step(m), bs2),
        frags_complete(
            concat_step(m),
            ns.take(ns.len() - 2).push(ns[ns.len() - 2] && ns[ns.len() - 1]),
        ),
{
    let m2 = concat_step(m);
    let len = m.stack.len() as int;
    let n = m.states.len() as int;
    let l = m.stack[len - 2];
    let r = m.stack[len - 1];
    let a_lo = bs[len - 2];
    let a_hi = bs[len - 1];
    let bs2 = bs.remove(len - 1);
    let ns2 = ns.take(len - 2).push(ns[len - 2] && ns[len - 1]);
    assert(bs[len] == n);
    assert(a_lo <= l.0 < a_hi && a_lo <= l.1 < a_hi);
    assert(a_hi <= r.0 < n && a_hi <= r.1 < n);
    assert(l.1 != r.1 && l.1 != r.0);
    assert(m2.states.len() == n);
    assert(m2.states[l.1].eps == m.states[l.1].eps.push(r.0));
    assert(!m2.states[l.1].is_end);
    assert(m2.states[r.1].eps == m.states[r.1].eps && m2.states[r.1].is_end);
    assert(forall|x: int|
        0 <= x < n && x != l.1 && x != r.1 ==> #[trigger] m2.states[x] == m.states[x]);
    assert(forall|x: int| 0 <= x < n && x != l.1 ==> (#[trigger] m2.states[x]).eps == m.states[x].eps);
    assert(m2.stack == m.stack.take(len - 2).push((l.0, r.1)));
    assert(bs2.len() == len);
    assert(forall|i: int| 0 <= i < len - 1 ==> #[trigger] bs2[i] == bs[i]);
    assert(bs2[len - 1] == bs[len]);
    assert(frags_partition(m2, bs2)) by {
        assert forall|i: int, j: int| 0 <= i < j < bs2.len() implies #[trigger] bs2[i]
            < #[trigger] bs2[j] by {
            if j == len - 1 {
                assert(bs2[j] == bs[len] && bs[i] < bs[len]);
            }
        }
        assert forall|i: int|
            0 <= i < m2.stack.len() implies bs2[i] <= (#[trigger] m2.stack[i]).0 < bs2[i + 1]
            && bs2[i] <= m2.stack[i].1 < bs2[i + 1] by {
            if i < len - 2 {
                assert(m2.stack[i] == m.stack[i]);
                assert(bs2[i] == bs[i] && bs2[i + 1] == bs[i + 1]);
            } else {
                assert(m2.stack[i] == (l.0, r.1));
                assert(bs2[i] == a_lo && bs2[i + 1] == n);
            }
        }
        assert forall|i: int, x: int, k: int|
            #![trigger bs2[i], m2.states[x].eps[k]]
            0 <= i < m2.stack.len() && bs2[i] <= x < bs2[i + 1] && 0 <= k
                < m2.states[x].eps.len() implies bs2[i] <= m2.states[x].eps[k] < bs2[i + 1] by {
            if i < len - 2 {
                assert(x < bs[i + 1] <= a_lo);
                assert(m2.states[x].eps == m.states[x].eps);
                assert(bs[i] <= m.states[x].eps[k] < bs[i + 1]);
            } else {
                if x == l.1 {
                    if k < m.states[x].eps.len() {
                        assert(m2.states[x].eps[k] == m.states[x].eps[k]);
                        assert(a_lo <= m.states[x].eps[k] < a_hi);
                    } else {
                        assert(m2.states[x].eps[k] == r.0);
                    }
                } else if x < a_hi {
                    assert(m2.states[x].eps == m.states[x].eps);
                    assert(a_lo <= m.states[x].eps[k] < a_hi);
                } else {
                    assert(m2.states[x].eps == m.states[x].eps);
                    assert(a_hi <= m.states[x].eps[k] < n);
                }
            }
        }
        assert forall|x: int|
            0 <= x < m2.states.len() && (#[trigger] m2.states[x]).is_end implies exists|i: int|
            0 <= i < m2.stack.len() && (#[trigger] m2.stack[i]).1 == x by {
            if x == r.1 {
                assert(m2.stack[len - 2].1 == x);
                assert(0 <= len - 2 < m2.stack.len() && m2.stack[len - 2].1 == x);
            } else {
                assert(x != l.1);
                assert(m2.states[x] == m.states[x]);
                let i0 = choose|i0: int| 0 <= i0 < m.stack.len() && m.stack[i0].1 == x;
                assert(i0 != len - 2 && i0 != len - 1);
                assert(m2.stack[i0] == m.stack[i0]);
                assert(0 <= i0 < m2.stack.len() && m2.stack[i0].1 == x);
            }
        }
    }
    assert forall|i: int|
        0 <= i < ns2.len() && !ns2[i] implies !eps_reach(
        graph_of(m2.states),
        Set::<int>::empty().insert((#[trigger] m2.stack[i]).0),
        m2.stack[i].1,
    ) by {
        if i < len - 2 {
            assert(m2.stack[i] == m.stack[i]);
            assert(ns2[i] == ns[i]);
            assert(bs[i + 1] <= a_lo);
            assert forall|x: int| bs[i] <= x < bs[i + 1] implies (#[trigger] m2.states[x]).eps
                == m.states[x].eps by {
                assert(x != l.1);
            }
            lemma_untouched_complete(
                m.states,
                m2.states,
                bs[i],
                bs[i + 1],
                m.stack[i].0,
                m.stack[i].1,
            );
        } else {
            assert(m2.stack[i] == (l.0, r.1));
            if eps_reach(graph_of(m2.states), Set::<int>::empty().insert(l.0), r.1) {
                let q = choose|q: Seq<int>|
                    is_eps_path(graph_of(m2.states), Set::<int>::empty().insert(l.0), q, r.1);
                assert forall|x: int, k: int|
                    #![trigger m2.states[x].eps[k]]
                    a_lo <= x < n && 0 <= k < m2.states[x].eps.len() implies a_lo
                    <= m2.states[x].eps[k] < n by {
                    assert(bs2[len - 2] == a_lo && bs2[len - 1] == n);
                    assert(bs2[len - 2] <= m2.states[x].eps[k] < bs2[len - 1]);
                }
                lemma_path_confined(
                    m2.states,
                    a_lo,
                    n,
                    Set::<int>::empty().insert(l.0),
                    q,
                    r.1,
                );
                let kx = lemma_first_inside(q, a_hi, n);
                assert(q[kx - 1] == l.1 && q[kx] == r.0) by {
                    let prev = q[kx - 1];
                    let cur = q[kx];
                    assert(a_lo <= prev < a_hi);
                    assert(m2.states[prev].eps.contains(cur));
                    let idx = choose|idx: int|
                        0 <= idx < m2.states[prev].eps.len() && m2.states[prev].eps[idx] == cur;
                    if prev != l.1 {
                        assert(m2.states[prev].eps == m.states[prev].eps);
                        assert(a_lo <= m.states[prev].eps[idx] < a_hi) by {
                            assert(bs[len - 2] <= m.states[prev].eps[idx] < bs[len - 1]);
                        }
                    } else {
                        if idx < m.states[l.1].eps.len() {
                            assert(m2.states[l.1].eps[idx] == m.states[l.1].eps[idx]);
                            assert(bs[len - 2] <= m.states[l.1].eps[idx] < bs[len - 1]);
                        } else {
                            assert(m2.states[l.1].eps[idx] == r.0);
                        }
                    }
                }
                lemma_subrange_path(
                    m2.states,
                    Set::<int>::empty().insert(l.0),
                    q,
                    r.1,
                    0,
                    kx,
                );
                let p1 = q.subrange(0, kx);
                assert(is_eps_path(graph_of(m.states), Set::<int>::empty().insert(l.0), p1, l.1))
                    by {
                    assert(p1[p1.len() - 1] == l.1);
                    assert forall|k: int|
                        0 <= k < p1.len() - 1 implies in_range(graph_of(m.states), #[trigger] p1[k])
                        && graph_of(m.states).states[p1[k]].eps.contains(p1[k + 1]) by {
                        assert(p1[k] == q[k] && p1[k + 1] == q[k + 1]);
                        assert(!(a_hi <= q[k] < n) && !(a_hi <= q[k + 1] < n));
                        assert(m2.states[q[k]].eps.contains(q[k + 1]));
                        let idx = choose|idx: int|
                            0 <= idx < m2.states[q[k]].eps.len() && m2.states[q[k]].eps[idx] == q[k
                                + 1];
                        if q[k] == l.1 {
                            if idx < m.states[l.1].eps.len() {
                                assert(m.states[l.1].eps[idx] == q[k + 1]);
                                assert(m.states[q[k]].eps.contains(q[k + 1]));
                            } else {
                                assert(m2.states[l.1].eps[idx] == r.0);
                            }
                        } else {
                            assert(m2.states[q[k]].eps == m.states[q[k]].eps);
                            assert(m.states[q[k]].eps.contains(q[k + 1]));
                        }
                    }
                }
                assert(eps_reach(graph_of(m.states), Set::<int>::empty().insert(l.0), l.1));
                assert(ns[len - 2]);
                lemma_subrange_path(
                    m2.states,
                    Set::<int>::empty().insert(l.0),
                    q,
                    r.1,
                    kx,
                    q.len() as int,
                );
                let p2 = q.subrange(kx, q.len() as int);
                assert(is_eps_path(
                    graph_of(m2.states),
                    Set::<int>::empty().insert(r.0),
                    p2,
                    r.1,
                ));
                assert forall|x: int, k: int|
                    #![trigger m2.states[x].eps[k]]
                    a_hi <= x < n && 0 <= k < m2.states[x].eps.len() implies a_hi
                    <= m2.states[x].eps[k] < n by {
                    assert(x != l.1);
                    assert(m2.states[x].eps == m.states[x].eps);
                    assert(bs[len - 1] <= m.states[x].eps[k] < bs[len]);
                }
                lemma_path_confined(
                    m2.states,
                    a_hi,
                    n,
                    Set::<int>::empty().insert(r.0),
                    p2,
                    r.1,
                );
                lemma_path_transfer(
                    m.states,
                    m2.states,
                    Set::<int>::empty().insert(r.0),
                    p2,
                    r.1,
                );
                assert(eps_reach(graph_of(m.states), Set::<int>::empty().insert(r.0), r.1));
                assert(ns[len - 1]);
            }
        }
    }
    bs2
}

/// The alternation rule preserves fragment ownership and completeness. The
/// fresh start state reaches the fresh end only through one operand
/// branch, and each branch's only way out is the new edge from its end:
/// a path from the new start to the new end contains an old path through
/// one whole operand, so some operand derives the empty string whenever
/// the alternation does.
proof fn lemma_complete_alt(m: BuildState, ns: Seq<bool>, bs: Seq<int>) -> (bs2: Seq<int>)
    requires
        crate::builder::wf_build(m),
        frags_partition(m, bs),
        frags_complete(m, ns),
        m.stack.len() >= 2,
        ns.len() == m.stack.len(),
    ensures
        frags_partition(alt_step(m), bs2),
        frags_complete(
            alt_step(m),
            ns.take(ns.len() - 2).push(ns[ns.len() - 2] || ns[ns.len() - 1]),
        ),
{
    let m2 = alt_step(m);
    let len = m.stack.len() as int;
    let n = m.states.len() as int;
    let l = m.stack[len - 2];
    let r = m.stack[len - 1];
    let a_lo = bs[len - 2];
    let a_hi = bs[len - 1];
    let bs2 = bs.remove(len - 1).update(len - 1, n + 2);
    let ns2 = ns.take(len - 2).push(ns[len - 2] || ns[len - 1]);
    assert(bs[len] == n);
    assert(a_lo <= l.0 < a_hi && a_lo <= l.1 < a_hi);
    assert(a_hi <= r.0 < n && a_hi <= r.1 < n);
    assert(l.1 != r.1);
    assert(m2.states.len() == n + 2);
    assert(m2.states[l.1].eps == m.states[l.1].eps.push(n + 1));
    assert(m2.states[r.1].eps == m.states[r.1].eps.push(n + 1));
    assert(!m2.states[l.1].is_end && !m2.states[r.1].is_end);
    assert(m2.states[n as int].eps == seq![l.0, r.0] && !m2.states[n as int].is_end);
    assert(m2.states[n + 1].eps.len() == 0 && m2.states[n + 1].is_end);
    assert(forall|x: int|
        0 <= x < n && x != l.1 && x != r.1 ==> #[trigger] m2.states[x] == m.states[x]);
    assert(m2.stack == m.stack.take(len - 2).push((n, n + 1)));
    assert(bs2.len() == len);
    assert(forall|i: int| 0 <= i < len - 1 ==> #[trigger] bs2[i] == bs[i]);
    assert(bs2[len - 1] == n + 2);
    assert(frags_partition(m2, bs2)) by {
        assert forall|i: int, j: int| 0 <= i < j < bs2.len() implies #[trigger] bs2[i]
            < #[trigger] bs2[j] by {
            if j == len - 1 {
                assert(bs[i] < bs[len]);
            }
        }
        assert forall|i: int|
            0 <= i < m2.stack.len() implies bs2[i] <= (#[trigger] m2.stack[i]).0 < bs2[i + 1]
            && bs2[i] <= m2.stack[i].1 < bs2[i + 1] by {
            if i < len - 2 {
                assert(m2.stack[i] == m.stack[i]);
                assert(bs2[i] == bs[i] && bs2[i + 1] == bs[i + 1]);
            } else {
                assert(m2.stack[i] == (n, n + 1));
                assert(bs2[i] == a_lo && bs2[i + 1] == n + 2);
            }
        }
        assert forall|i: int, x: int, k: int|
            #![trigger bs2[i], m2.states[x].eps[k]]
            0 <= i < m2.stack.len() && bs2[i] <= x < bs2[i + 1] && 0 <= k
                < m2.states[x].eps.len() implies bs2[i] <= m2.states[x].eps[k] < bs2[i + 1] by {
            if i < len - 2 {
                assert(x < bs[i + 1] <= a_lo);
                assert(m2.states[x].eps == m.states[x].eps);
                assert(bs[i] <= m.states[x].eps[k] < bs[i + 1]);
            } else {
                if x == l.1 && k == m.states[l.1].eps.len() {
                    assert(m2.states[x].eps[k] == n + 1);
                } else if x == r.1 && k == m.states[r.1].eps.len() {
                    assert(m2.states[x].eps[k] == n + 1);
                } else if x == n {
                    assert(m2.states[x].eps[k] == l.0 || m2.states[x].eps[k] == r.0);
                } else if x == n + 1 {
                    assert(m2.states[x].eps.len() == 0);
                } else if x < a_hi {
                    assert(m2.states[x].eps[k] == m.states[x].eps[k]);
                    assert(a_lo <= m.states[x].eps[k] < a_hi);
                } else {
                    assert(x < n);
                    assert(m2.states[x].eps[k] == m.states[x].eps[k]);
                    assert(a_hi <= m.states[x].eps[k] < n) by {
                        assert(bs[len - 1] <= m.states[x].eps[k] < bs[len]);
                    }
                }
            }
        }
        assert forall|x: int|
            0 <= x < m2.states.len() && (#[trigger] m2.states[x]).is_end implies exists|i: int|
            0 <= i < m2.stack.len() && (#[trigger] m2.stack[i]).1 == x by {
            if x == n + 1 {
                assert(m2.stack[len - 2].1 == x);
                assert(0 <= len - 2 < m2.stack.len() && m2.stack[len - 2].1 == x);
            } else {
                assert(x != l.1 && x != r.1 && x != n);
                assert(m2.states[x] == m.states[x]);
                let i0 = choose|i0: int| 0 <= i0 < m.stack.len() && m.stack[i0].1 == x;
                assert(i0 != len - 2 && i0 != len - 1);
                assert(m2.stack[i0] == m.stack[i0]);
                assert(0 <= i0 < m2.stack.len() && m2.stack[i0].1 == x);
            }
        }
    }
    assert forall|i: int|
        0 <= i < ns2.len() && !ns2[i] implies !eps_reach(
        graph_of(m2.states),
        Set::<int>::empty().insert((#[trigger] m2.stack[i]).0),
        m2.stack[i].1,
    ) by {
        if i < len - 2 {
            assert(m2.stack[i] == m.stack[i]);
            assert(ns2[i] == ns[i]);
            assert(bs[i + 1] <= a_lo);
            assert forall|x: int| bs[i] <= x < bs[i + 1] implies (#[trigger] m2.states[x]).eps
                == m.states[x].eps by {
                assert(x != l.1 && x != r.1);
                assert(m2.states[x] == m.states[x]);
            }
            lemma_untouched_complete(
                m.states,
                m2.states,
                bs[i],
                bs[i + 1],
                m.stack[i].0,
                m.stack[i].1,
            );
        } else {
            assert(m2.stack[i] == (n, n + 1));
            assert(!ns[len - 2] && !ns[len - 1]);
            let en = n + 1;
            if eps_reach(graph_of(m2.states), Set::<int>::empty().insert(n), en) {
                let q = choose|q: Seq<int>|
                    is_eps_path(graph_of(m2.states), Set::<int>::empty().insert(n), q, en);
                assert(q[0] == n && q.len() >= 2);
                assert(m2.states[n as int].eps.contains(q[1]));
                assert(q[1] == l.0 || q[1] == r.0) by {
                    let e0 = q[1];
                    let idx = choose|idx: int|
                        0 <= idx < m2.states[n as int].eps.len() && m2.states[n as int].eps[idx]
                            == e0;
                    assert(idx == 0 || idx == 1);
                }
                lemma_subrange_path(
                    m2.states,
                    Set::<int>::empty().insert(n),
                    q,
                    n + 1,
                    1,
                    q.len() as int,
                );
                let rq = q.subrange(1, q.len() as int);
                let flo = if q[1] == l.0 {
                    a_lo
                } else {
                    a_hi
                };
                let fhi = if q[1] == l.0 {
                    a_hi
                } else {
                    n
                };
                let f = if q[1] == l.0 {
                    l
                } else {
                    r
                };
                assert(rq[rq.len() - 1] == n + 1);
                let kx = lemma_first_outside(rq, flo, fhi);
                assert(rq[kx - 1] == f.1) by {
                    let prev = rq[kx - 1];
                    let cur = rq[kx];
                    assert(flo <= prev < fhi && !(flo <= cur < fhi));
                    assert(m2.states[prev].eps.contains(cur));
                    let idx = choose|idx: int|
                        0 <= idx < m2.states[prev].eps.len() && m2.states[prev].eps[idx] == cur;
                    if prev != l.1 && prev != r.1 {
                        assert(m2.states[prev].eps == m.states[prev].eps);
                        if q[1] == l.0 {
                            assert(bs[len - 2] <= m.states[prev].eps[idx] < bs[len - 1]);
                        } else {
                            assert(bs[len - 1] <= m.states[prev].eps[idx] < bs[len]);
                        }
                    } else if prev == l.1 {
                        assert(q[1] == l.0) by {
                            if q[1] != l.0 {
                                assert(a_hi <= prev < n);
                            }
                        }
                        if idx < m.states[l.1].eps.len() {
                            assert(m2.states[prev].eps[idx] == m.states[l.1].eps[idx]);
                            assert(bs[len - 2] <= m.states[l.1].eps[idx] < bs[len - 1]);
                        }
                    } else {
                        assert(q[1] == r.0) by {
                            if q[1] == l.0 {
                                assert(a_lo <= prev < a_hi);
                            }
                        }
                        if idx < m.states[r.1].eps.len() {
                            assert(m2.states[prev].eps[idx] == m.states[r.1].eps[idx]);
                            assert(bs[len - 1] <= m.states[r.1].eps[idx] < bs[len]);
                        }
                    }
                }
                lemma_subrange_path(
                    m2.states,
                    Set::<int>::empty().insert(rq[0]),
                    rq,
                    n + 1,
                    0,
                    kx,
                );
                let p1 = rq.subrange(0, kx);
                assert(is_eps_path(graph_of(m.states), Set::<int>::empty().insert(f.0), p1, f.1))
                    by {
                    assert(p1[0] == f.0 && p1[p1.len() - 1] == f.1);
                    assert forall|k: int|
                        0 <= k < p1.len() - 1 implies in_range(graph_of(m.states), #[trigger] p1[k])
                        && graph_of(m.states).states[p1[k]].eps.contains(p1[k + 1]) by {
                        assert(p1[k] == rq[k] && p1[k + 1] == rq[k + 1]);
                        assert(flo <= rq[k] < fhi && flo <= rq[k + 1] < fhi);
                        let src = p1[k];
                        let tgt = p1[k + 1];
                        assert(m2.states[src].eps.contains(tgt));
                        let idx = choose|idx: int|
                            0 <= idx < m2.states[src].eps.len() && m2.states[src].eps[idx] == tgt;
                        if src == l.1 || src == r.1 {
                            if idx < m.states[src].eps.len() {
                                assert(m.states[src].eps[idx] == tgt);
                                assert(m.states[src].eps.contains(tgt));
                            } else {
                                assert(m2.states[src].eps[idx] == n + 1);
                            }
                        } else {
                            assert(m2.states[src].eps == m.states[src].eps);
                            assert(m.states[src].eps.contains(tgt));
                        }
                    }
                }
                assert(eps_reach(graph_of(m.states), Set::<int>::empty().insert(f.0), f.1));
                if q[1] == l.0 {
                    assert(ns[len - 2]);
                } else {
                    assert(ns[len - 1]);
                }
            }
        }
    }
    bs2
}

/// The repetition rules preserve fragment ownership and completeness. A
/// star's flag is true, so there is nothing to refute. For one-or-more,
/// the only way from the fresh start to the fresh end leads through the
/// operand from its start to the first visit of its end, and that piece is
/// an old path: the operand derives the empty string whenever the
/// repetition does.
#[verifier::rlimit(60)]
proof fn lemma_complete_rep(m: BuildState, ns: Seq<bool>, bs: Seq<int>, zero_allowed: bool) -> (bs2:
    Seq<int>)
    requires
        crate::builder::wf_build(m),
        frags_partition(m, bs),
        frags_complete(m, ns),
        m.stack.len() >= 1,
        ns.len() == m.stack.len(),
    ensures
        frags_partition(rep_step(m, zero_allowed), bs2),
        frags_complete(
            rep_step(m, zero_allowed),
            if zero_allowed {
                ns.take(ns.len() - 1).push(true)
            } else {
                ns
            },
        ),
{
    let m2 = rep_step(m, zero_allowed);
    let len = m.stack.len() as int;
    let n = m.states.len() as int;
    let inner = m.stack[len - 1];
    let i_lo = bs[len - 1];
    let bs2 = bs.update(bs.len() - 1, n + 2);
    let ns2 = if zero_allowed {
        ns.take(len - 1).push(true)
    } else {
        ns
    };
    assert(bs[len] == n);
    assert(i_lo <= inner.0 < n && i_lo <= inner.1 < n);
    assert(m2.states.len() == n + 2);
    assert(m2.states[inner.1].eps == m.states[inner.1].eps.push(n + 1).push(inner.0));
    assert(!m2.states[inner.1].is_end);
    assert(m2.states[n as int].eps == if zero_allowed {
        seq![inner.0, n + 1]
    } else {
        seq![inner.0]
    });
    assert(!m2.states[n as int].is_end);
    assert(m2.states[n + 1].eps.len() == 0 && m2.states[n + 1].is_end);
    assert(forall|x: int| 0 <= x < n && x != inner.1 ==> #[trigger] m2.states[x] == m.states[x]);
    assert(m2.stack == m.stack.take(len - 1).push((n, n + 1)));
    assert(bs2.len() == len + 1);
    assert(forall|i: int| 0 <= i < len ==> #[trigger] bs2[i] == bs[i]);
    assert(bs2[len] == n + 2);
    assert(frags_partition(m2, bs2)) by {
        assert forall|i: int, j: int| 0 <= i < j < bs2.len() implies #[trigger] bs2[i]
            < #[trigger] bs2[j] by {
            if j == len {
                assert(bs2[i] == bs[i]);
                if i < len {
                    assert(bs[i] <= bs[len]);
                }
            }
        }
        assert forall|i: int|
            0 <= i < m2.stack.len() implies bs2[i] <= (#[trigger] m2.stack[i]).0 < bs2[i + 1]
            && bs2[i] <= m2.stack[i].1 < bs2[i + 1] by {
            if i < len - 1 {
                assert(m2.stack[i] == m.stack[i]);
                assert(bs2[i] == bs[i] && bs2[i + 1] == bs[i + 1]);
            } else {
                assert(m2.stack[i] == (n, n + 1));
                assert(bs2[i] == i_lo && bs2[i + 1] == n + 2);
            }
        }
        assert forall|i: int, x: int, k: int|
            #![trigger bs2[i], m2.states[x].eps[k]]
            0 <= i < m2.stack.len() && bs2[i] <= x < bs2[i + 1] && 0 <= k
                < m2.states[x].eps.len() implies bs2[i] <= m2.states[x].eps[k] < bs2[i + 1] by {
            if i < len - 1 {
                assert(x < bs[i + 1] <= i_lo);
                assert(m2.states[x].eps == m.states[x].eps);
                assert(bs[i] <= m.states[x].eps[k] < bs[i + 1]);
            } else {
                if x == inner.1 {
                    if k < m.states[inner.1].eps.len() {
                        assert(m2.states[x].eps[k] == m.states[inner.1].eps[k]);
                        assert(bs[len - 1] <= m.states[inner.1].eps[k] < bs[len]);
                    } else {
                        assert(m2.states[x].eps[k] == n + 1 || m2.states[x].eps[k] == inner.0);
                    }
                } else if x == n {
                    assert(m2.states[x].eps[k] == inner.0 || m2.states[x].eps[k] == n + 1);
                } else if x == n + 1 {
                    assert(m2.states[x].eps.len() == 0);
                } else {
                    assert(x < n);
                    assert(m2.states[x].eps[k] == m.states[x].eps[k]);
                    assert(bs[len - 1] <= m.states[x].eps[k] < bs[len]);
                }
            }
        }
        assert forall|x: int|
            0 <= x < m2.states.len() && (#[trigger] m2.states[x]).is_end implies exists|i: int|
            0 <= i < m2.stack.len() && (#[trigger] m2.stack[i]).1 == x by {
            if x == n + 1 {
                assert(m2.stack[len - 1].1 == x);
                assert(0 <= len - 1 < m2.stack.len() && m2.stack[len - 1].1 == x);
            } else {
                assert(x != inner.1 && x != n);
                assert(m2.states[x] == m.states[x]);
                let i0 = choose|i0: int| 0 <= i0 < m.stack.len() && m.stack[i0].1 == x;
                assert(i0 != len - 1);
                assert(m2.stack[i0] == m.stack[i0]);
                assert(0 <= i0 < m2.stack.len() && m2.stack[i0].1 == x);
            }
        }
    }
    assert forall|i: int|
        0 <= i < ns2.len() && !ns2[i] implies !eps_reach(
        graph_of(m2.states),
        Set::<int>::empty().insert((#[trigger] m2.stack[i]).0),
        m2.stack[i].1,
    ) by {
        if i < len - 1 {
            assert(m2.stack[i] == m.stack[i]);
            assert(ns2[i] == ns[i]);
            assert(bs[i + 1] <= i_lo);
            assert forall|x: int| bs[i] <= x < bs[i + 1] implies (#[trigger] m2.states[x]).eps
                == m.states[x].eps by {
                assert(x != inner.1);
                assert(m2.states[x] == m.states[x]);
            }
            lemma_untouched_complete(
                m.states,
                m2.states,
                bs[i],
                bs[i + 1],
                m.stack[i].0,
                m.stack[i].1,
            );
        } else {
            assert(!zero_allowed && !ns[len - 1]);
            assert(m2.stack[i] == (n, n + 1));
            let en = n + 1;
            if eps_reach(graph_of(m2.states), Set::<int>::empty().insert(n), en) {
                let q = choose|q: Seq<int>|
                    is_eps_path(graph_of(m2.states), Set::<int>::empty().insert(n), q, en);
                assert(q[0] == n && q.len() >= 2);
                assert(m2.states[n as int].eps.contains(q[1]));
                assert(q[1] == inner.0) by {
                    let e0 = q[1];
                    let idx = choose|idx: int|
                        0 <= idx < m2.states[n as int].eps.len() && m2.states[n as int].eps[idx]
                            == e0;
                    assert(idx == 0);
                }
                lemma_subrange_path(
                    m2.states,
                    Set::<int>::empty().insert(n),
                    q,
                    en,
                    1,
                    q.len() as int,
                );
                let rq = q.subrange(1, q.len() as int);
                assert(rq[0] == inner.0 && rq[rq.len() - 1] == n + 1);
                let kx = lemma_first_outside(rq, i_lo, n);
                assert(rq[kx - 1] == inner.1) by {
                    let prev = rq[kx - 1];
                    let cur = rq[kx];
                    assert(i_lo <= prev < n && !(i_lo <= cur < n));
                    assert(m2.states[prev].eps.contains(cur));
                    let idx = choose|idx: int|
                        0 <= idx < m2.states[prev].eps.len() && m2.states[prev].eps[idx] == cur;
                    if prev != inner.1 {
                        assert(m2.states[prev].eps == m.states[prev].eps);
                        assert(bs[len - 1] <= m.states[prev].eps[idx] < bs[len]);
                    }
                }
                lemma_subrange_path(
                    m2.states,
                    Set::<int>::empty().insert(rq[0]),
                    rq,
                    n + 1,
                    0,
                    kx,
                );
                let p1 = rq.subrange(0, kx);
                assert(p1[kx - 1] == inner.1);
                assert(p1.contains(inner.1));
                let k1 = lemma_first_eq(p1, inner.1);
                lemma_subrange_path(
                    m2.states,
                    Set::<int>::empty().insert(p1[0]),
                    p1,
                    inner.1,
                    0,
                    k1 + 1,
                );
                let seg = p1.subrange(0, k1 + 1);
                assert(is_eps_path(
                    graph_of(m.states),
                    Set::<int>::empty().insert(inner.0),
                    seg,
                    inner.1,
                )) by {
                    assert(seg[0] == inner.0 && seg[seg.len() - 1] == inner.1);
                    assert forall|k: int|
                        0 <= k < seg.len() - 1 implies in_range(
                        graph_of(m.states),
                        #[trigger] seg[k],
                    ) && graph_of(m.states).states[seg[k]].eps.contains(seg[k + 1]) by {
                        assert(seg[k] == p1[k] && seg[k + 1] == p1[k + 1]);
                        assert(p1[k] == rq[k] && p1[k + 1] == rq[k + 1]);
                        assert(i_lo <= rq[k] < n);
                        assert(seg[k] != inner.1);
                        assert(m2.states[seg[k]].eps == m.states[seg[k]].eps);
                        assert(m2.states[seg[k]].eps.contains(seg[k + 1]));
                    }
                }
                assert(eps_reach(
                    graph_of(m.states),
                    Set::<int>::empty().insert(inner.0),
                    inner.1,
                ));
                assert(ns[len - 1]);
            }
        }
    }
    bs2
}

/// Every construction rule preserves fragment ownership and completeness
/// of the nullability stack.
proof fn lemma_step_complete(m: BuildState, ns: Seq<bool>, bs: Seq<int>, t: Token) -> (bs2: Seq<
    int,
>)
    requires
        crate::builder::wf_build(m),
        frags_partition(m, bs),
        frags_complete(m, ns),
        ns.len() == m.stack.len(),
        apply_token(m, t) is Some,
        nullable_step(ns, t) is Some,
    ensures
        frags_partition(apply_token(m, t)->Some_0, bs2),
        frags_complete(apply_token(m, t)->Some_0, nullable_step(ns, t)->Some_0),
{
    match t {
        Token::Char(c) => lemma_complete_char(m, ns, bs, c),
        Token::Concat => lemma_complete_concat(m, ns, bs),
        Token::Alt => lemma_complete_alt(m, ns, bs),
        Token::Star => lemma_complete_rep(m, ns, bs, true),
        Token::Plus => lemma_complete_rep(m, ns, bs, false),
        Token::QMark => lemma_complete_qmark(m, ns, bs),
        _ => bs,
    }
}

/// The whole construction preserves fragment ownership and completeness.
proof fn lemma_fold_complete(
    m: BuildState,
    ns: Seq<bool>,
    bs: Seq<int>,
    tokens: Seq<Token>,
) -> (bs2: Seq<int>)
    requires
        crate::builder::wf_build(m),
        frags_partition(m, bs),
        frags_complete(m, ns),
        ns.len() == m.stack.len(),
        build_tokens(m, tokens) is Some,
        nullable_fold(ns, tokens) is Some,
    ensures
        frags_partition(build_tokens(m, tokens)->Some_0, bs2),
        frags_complete(build_tokens(m, tokens)->Some_0, nullable_fold(ns, tokens)->Some_0),
    decreases tokens.len(),
{
    if tokens.len() == 0 {
        bs
    } else {
        let m2 = apply_token(m, tokens[0])->Some_0;
        let ns2 = nullable_step(ns, tokens[0])->Some_0;
        let bsx = lemma_step_complete(m, ns, bs, tokens[0]);
        crate::builder::lemma_apply_token_wf(m, tokens[0]);
        lemma_fold_complete(m2, ns2, bsx, tokens.drop_first())
    }
}

/// The converse direction, over a raw postfix token stream: an automaton
/// that accepts the empty subject was built from a stream whose
/// nullability fold leaves the single flag true.
proof fn lemma_accepts_empty_nullable(toks: Seq<Token>, n: SpecNfa)
    requires
        build_tokens(empty_build(), toks) is Some,
        build_tokens(empty_build(), toks)->Some_0.stack.len() == 1,
        n == nfa_of(build_tokens(empty_build(), toks)->Some_0),
        accepts(n, Seq::<char>::empty()),
    ensures
        nullable_fold(Seq::<bool>::empty(), toks) is Some,
        nullable_fold(Seq::<bool>::empty(), toks)->Some_0 == seq![true],
{
    let m0 = empty_build();
    let mfin = build_tokens(m0, toks)->Some_0;
    assert(frags_sound(m0, Seq::<bool>::empty()));
    lemma_fold_sound(m0, Seq::<bool>::empty(), toks);
    let ns = nullable_fold(Seq::<bool>::empty(), toks)->Some_0;
    assert(frags_partition(m0, seq![0int]));
    assert(frags_complete(m0, Seq::<bool>::empty()));
    let bsf = lemma_fold_complete(m0, Seq::<bool>::empty(), seq![0int], toks);
    crate::builder::lemma_build_tokens_wf(m0, toks);
    let f = mfin.stack[0];
    let fin = run(n, closure(n, Set::<int>::empty().insert(n.start)), Seq::<char>::empty());
    assert(fin == closure(n, Set::<int>::empty().insert(n.start)));
    let j = choose|j: int|
        #[trigger] fin.contains(j) && in_range(n, j) && n.states[j].is_end;
    assert(j == f.1) by {
        if j != f.1 {
            assert(n.states[j] == mfin.states[j]);
            assert(mfin.states[j].is_end);
            let i0 = choose|i0: int| 0 <= i0 < mfin.stack.len() && mfin.stack[i0].1 == j;
            assert(i0 == 0);
        }
    }
    assert(eps_reach(n, Set::<int>::empty().insert(n.start), f.1));
    let q = choose|q: Seq<int>|
        is_eps_path(n, Set::<int>::empty().insert(n.start), q, f.1);
    assert(is_eps_path(graph_of(mfin.states), Set::<int>::empty().insert(f.0), q, f.1)) by {
        assert(n.start == f.0);
        assert(forall|x: int|
            0 <= x < mfin.states.len() ==> (#[trigger] n.states[x]).eps
                == mfin.states[x].eps);
        assert forall|k: int| 0 <= k < q.len() - 1 implies in_range(
            graph_of(mfin.states),
            #[trigger] q[k],
        ) && graph_of(mfin.states).states[q[k]].eps.contains(q[k + 1]) by {
            assert(in_range(n, q[k]) && n.states[q[k]].eps.contains(q[k + 1]));
            assert(mfin.states[q[k]].eps == n.states[q[k]].eps);
        }
    }
    assert(eps_reach(graph_of(mfin.states), Set::<int>::empty().insert(f.0), f.1));
    assert(ns[0]) by {
        if !ns[0] {
            assert(!eps_reach(
                graph_of(mfin.states),
                Set::<int>::empty().insert(mfin.stack[0].0),
                mfin.stack[0].1,
            ));
        }
    }
    assert(ns.len() == 1);
    assert(ns =~= seq![true]);

}

/// The empty-subject law: a pattern's automaton accepts the empty subject
/// exactly when the pattern derives the empty string — by the standard
/// nullability rules: a literal never, a concatenation when both operands
/// do, an alternation when either does, a star or zero-or-one always, a
/// one-or-more when its operand does, the empty pattern always.
pub proof fn lemma_empty_subject_law(p: Seq<char>, n: SpecNfa)
    requires
        compiled_nfa(p) == Some(n),
    ensures
        accepts(n, Seq::<char>::empty()) <==> pattern_nullable(p),
{
    if p.len() == 0 {
        lemma_empty_pattern_language(Seq::<char>::empty());
    } else {
        let toks = spec_parse(p)->Some_0;
        if pattern_nullable(p) {
            lemma_nullable_accepts_empty(toks, n);
        }
        if accepts(n, Seq::<char>::empty()) {
            lemma_accepts_empty_nullable(toks, n);
        }
    }
}

/// The pattern a postfix character string stands for derives the empty
/// string: the nullability fold over its tokens leaves a single true flag,
/// and the empty string trivially does.
pub open spec fn postfix_nullable(q: Seq<char>) -> bool {
    if q.len() == 0 {
        true
    } else {
        match nullable_fold(Seq::<bool>::empty(), crate::postfix_tokens(q)) {
            Some(ns) => ns.len() == 1 && ns[0],
            None => false,
        }
    }
}

/// The empty-subject law for automatons built directly from a postfix
/// string: the automaton accepts the empty subject exactly when the
/// postfix pattern derives the empty string.
pub proof fn lemma_empty_subject_postfix(q: Seq<char>, n: SpecNfa)
    requires
        crate::postfix_nfa(q) == Some(n),
    ensures
        accepts(n, Seq::<char>::empty()) <==> postfix_nullable(q),
{
    if q.len() == 0 {
        lemma_empty_pattern_language(Seq::<char>::empty());
    } else {
        let toks = crate::postfix_tokens(q);
        if postfix_nullable(q) {
            lemma_nullable_accepts_empty(toks, n);
        }
        if accepts(n, Seq::<char>::empty()) {
            lemma_accepts_empty_nullable(toks, n);
        }
    }
}

/// The empty-subject law for the shunting-yard pipeline: an automaton from
/// that front-end accepts the empty subject exactly when the pipeline's
/// postfix form of the pattern derives the empty string.
pub proof fn lemma_empty_subject_matcher(p: Seq<char>, n: SpecNfa)
    requires
        crate::matcher_nfa(p) == Some(n),
    ensures
        accepts(n, Seq::<char>::empty()) <==> postfix_nullable(
            crate::postfix::spec_to_postfix(crate::postfix::spec_explicit_concat(p)),
        ),
{
    lemma_empty_subject_postfix(
        crate::postfix::spec_to_postfix(crate::postfix::spec_explicit_concat(p)),
        n,
    );
}

/// A postfix stream that builds successfully holds no parenthesis tokens:
/// the builder rejects them on sight.
proof fn lemma_build_no_parens(m: BuildState, toks: Seq<Token>)
    requires
        build_tokens(m, toks) is Some,
    ensures
        forall|k: int|
            0 <= k < toks.len() ==> #[trigger] toks[k] != Token::LeftParen && toks[k]
                != Token::RightParen,
    decreases toks.len(),
{
    if toks.len() > 0 {
        let m2 = apply_token(m, toks[0])->Some_0;
        lemma_build_no_parens(m2, toks.drop_first());
        assert forall|k: int|
            0 <= k < toks.len() implies #[trigger] toks[k] != Token::LeftParen && toks[k]
            != Token::RightParen by {
            if k > 0 {
                assert(toks.drop_first()[k - 1] == toks[k]);
            }
        }
    }
}

/// A pattern with unbalanced parentheses fails the shunting-yard pipeline:
/// its postfix string keeps a parenthesis character — a stray `)` is
/// emitted on the spot and a leftover `(` is pushed out by the final drain
/// — and the builder rejects parenthesis tokens.
pub proof fn lemma_matcher_rejects_unbalanced(p: Seq<char>)
    requires
        !crate::postfix::paren_balanced(p),
    ensures
        crate::matcher_nfa(p) is None,
{
    crate::postfix::lemma_unbalanced_postfix_has_paren(p);
    let q = crate::postfix::spec_to_postfix(crate::postfix::spec_explicit_concat(p));
    let toks = crate::postfix_tokens(q);
    if q.contains('(') {
        let k = choose|k: int| 0 <= k < q.len() && q[k] == '(';
        assert(toks[k] == crate::token::token_of(q[k]));
        if build_tokens(empty_build(), toks) is Some {
            lemma_build_no_parens(empty_build(), toks);
        }
    } else {
        let k = choose|k: int| 0 <= k < q.len() && q[k] == ')';
        assert(toks[k] == crate::token::token_of(q[k]));
        if build_tokens(empty_build(), toks) is Some {
            lemma_build_no_parens(empty_build(), toks);
        }
    }
}

/// The automaton that the pattern of one literal under a Kleene star
/// compiles to: the literal fragment spanning states 0 and 1, wrapped by
/// the star rule's fresh start 2 and end 3.
spec fn star_nfa() -> SpecNfa {
    SpecNfa {
        states: seq![
            SpecState { eps: Seq::empty(), trans: seq![('a', 1int)], is_end: false },
            SpecState { eps: seq![3int, 0int], trans: Seq::empty(), is_end: false },
            SpecState { eps: seq![0int, 3int], trans: Seq::empty(), is_end: false },
            SpecState { eps: Seq::empty(), trans: Seq::empty(), is_end: true },
        ],
        start: 2,
        end: 3,
    }
}

proof fn lemma_star_nfa_value()
    ensures
        compiled_nfa("a*"@) == Some(star_nfa()),
{
    reveal_strlit("a*");
    let s = "a*"@;
    assert(s.len() == 2 && s[0] == 'a' && s[1] == '*');
    let ta = seq![Token::Char('a')];
    let toks = seq![Token::Char('a'), Token::Star];
    assert(spec_primary(s, 0) == Some((ta, 1int)));
    assert(ta.push(Token::Star) =~= toks);
    assert(spec_factor(s, 0) == Some((toks, 2int)));
    assert(spec_term(s, 0) == Some((toks, 2int)));
    assert(spec_exp(s, 0) == Some((toks, 2int)));
    assert(spec_parse(s) == Some(toks));
    let m1 = char_step(empty_build(), 'a');
    assert(apply_token(empty_build(), toks[0]) == Some(m1));
    let m2 = rep_step(m1, true);
    assert(m1.stack.len() == 1);
    assert(apply_token(m1, toks[1]) == Some(m2));
    assert(toks.drop_first() =~= seq![Token::Star]);
    assert(seq![Token::Star].drop_first() =~= Seq::<Token>::empty());
    assert(build_tokens(m2, Seq::<Token>::empty()) == Some(m2));
    assert(build_tokens(m1, seq![Token::Star]) == Some(m2));
    assert(build_tokens(empty_build(), toks) == Some(m2));
    assert(m2.stack.len() == 1);
    assert(m2.stack[0] == (2int, 3int));
    assert(nfa_of(m2).states =~~= star_nfa().states);
    assert(nfa_of(m2) =~~= star_nfa());
}

/// The two live state sets of that automaton: at the start, and after one
/// or more matched characters.
spec fn star_a0() -> Set<int> {
    set![0int, 2int, 3int]
}

spec fn star_a1() -> Set<int> {
    set![0int, 1int, 3int]
}

proof fn lemma_star_closure_start()
    ensures
        closure(star_nfa(), Set::<int>::empty().insert(2int)) =~= star_a0(),
{
    let n = star_nfa();
    let init = Set::<int>::empty().insert(2int);
    let m = seq![true, false, true, true];
    assert forall|j: int| eps_reach(n, init, j) implies star_a0().contains(j) by {
        assert(n.states[2].eps[0] == 0 && n.states[2].eps[1] == 3);
        lemma_closed_contains_reach(n, init, m, j);
        assert(m[j]);
    }
    assert(n.states[2].eps.contains(0int) && n.states[2].eps.contains(3int));
    assert(is_eps_path(n, init, seq![2int], 2));
    assert(is_eps_path(n, init, seq![2int, 0int], 0));
    assert(is_eps_path(n, init, seq![2int, 3int], 3));
}

proof fn lemma_star_closure_one()
    ensures
        closure(star_nfa(), Set::<int>::empty().insert(1int)) =~= star_a1(),
{
    let n = star_nfa();
    let init = Set::<int>::empty().insert(1int);
    let m = seq![true, true, false, true];
    assert forall|j: int| eps_reach(n, init, j) implies star_a1().contains(j) by {
        assert(n.states[1].eps[0] == 3 && n.states[1].eps[1] == 0);
        lemma_closed_contains_reach(n, init, m, j);
        assert(m[j]);
    }
    assert(n.states[1].eps.contains(0int) && n.states[1].eps.contains(3int));
    assert(is_eps_path(n, init, seq![1int], 1));
    assert(is_eps_path(n, init, seq![1int, 0int], 0));
    assert(is_eps_path(n, init, seq![1int, 3int], 3));
}

proof fn lemma_star_step(cur: Set<int>, c: char)
    requires
        cur == star_a0() || cur == star_a1(),
    ensures
        step_states(star_nfa(), cur, c) =~= if c == 'a' {
            star_a1()
        } else {
            Set::<int>::empty()
        },
{
    let n = star_nfa();
    let tr = n.states[0].trans;
    assert(tr.len() == 1 && tr[0] == ('a', 1int));
    if c == 'a' {
        assert(lookup(tr, c) == Some(1int));
    } else {
        assert(tr.drop_first() =~= Seq::<(char, int)>::empty());
        assert(lookup(Seq::<(char, int)>::empty(), c) is None);
        assert(lookup(tr, c) is None);
    }
    assert forall|t: int| #[trigger]
        targets(n, cur, c).contains(t) implies c == 'a' && t == 1 by {
        let i = choose|i: int|
            #[trigger] cur.contains(i) && in_range(n, i) && lookup(n.states[i].trans, c) == Some(
                t,
            );
        if i != 0 {
            assert(n.states[i].trans.len() == 0);
        }
    }
    if c == 'a' {
        assert(cur.contains(0int) && in_range(n, 0) && lookup(n.states[0].trans, 'a') == Some(
            1int,
        ));
        assert(targets(n, cur, c).contains(1int));
        assert(targets(n, cur, c) =~= Set::<int>::empty().insert(1int));
        lemma_star_closure_one();
    } else {
        assert(targets(n, cur, c) =~= Set::<int>::empty());
        lemma_closure_empty(n);
    }
}

proof fn lemma_star_run(cur: Set<int>, s: Seq<char>)
    requires
        cur == star_a0() || cur == star_a1(),
    ensures
        (exists|j: int|
            #[trigger] run(star_nfa(), cur, s).contains(j) && in_range(star_nfa(), j)
                && star_nfa().states[j].is_end) <==> (forall|k: int|
            0 <= k < s.len() ==> s[k] == 'a'),
    decreases s.len(),
{
    let n = star_nfa();
    if s.len() == 0 {
        assert(run(n, cur, s).contains(3int) && in_range(n, 3) && n.states[3].is_end);
    } else {
        lemma_star_step(cur, s[0]);
        if s[0] == 'a' {
            assert(step_states(n, cur, s[0]) == star_a1());
            lemma_star_run(star_a1(), s.drop_first());
            assert(run(n, cur, s) == run(n, star_a1(), s.drop_first()));
            assert((forall|k: int| 0 <= k < s.len() ==> s[k] == 'a') <==> (forall|k: int|
                0 <= k < s.drop_first().len() ==> s.drop_first()[k] == 'a')) by {
                if forall|k: int| 0 <= k < s.drop_first().len() ==> #[trigger] s.drop_first()[k]
                    == 'a' {
                    assert forall|k: int| 0 <= k < s.len() implies s[k] == 'a' by {
                        if k > 0 {
                            assert(s.drop_first()[k - 1] == 'a');
                        }
                    }
                }
            }
        } else {
            assert(step_states(n, cur, s[0]) == Set::<int>::empty());
            lemma_run_empty(n, s.drop_first());
            assert(run(n, cur, s) =~= Set::<int>::empty());
            assert(!(forall|k: int| 0 <= k < s.len() ==> s[k] == 'a')) by {
                assert(s[0] != 'a');
            }
        }
    }
}

/// The closure law on the automaton of the pattern of one literal under a
/// Kleene star: it accepts a subject exactly when every character of the
/// subject is that literal — so it accepts the empty subject, and rejects
/// every subject holding any other character.
pub proof fn lemma_star_language(s: Seq<char>, n: SpecNfa)
    requires
        compiled_nfa("a*"@) == Some(n),
    ensures
        accepts(n, s) <==> (forall|k: int| 0 <= k < s.len() ==> s[k] == 'a'),
{
    lemma_star_nfa_value();
    assert(n == star_nfa());
    lemma_star_closure_start();
    assert(closure(n, Set::<int>::empty().insert(n.start)) == star_a0());
    lemma_star_run(star_a0(), s);
}

} // verus!
