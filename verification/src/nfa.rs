//! The runnable automaton and its simulator.
//!
//! An [`NFA`] owns the arena of states built by the compiler, together with
//! the indices of its start and end states. Matching maintains a current
//! set of states (a vector of marks keyed by state identifier, so
//! duplicates are suppressed): the set starts as the epsilon-closure of the
//! start state, each input character maps it through the symbol transitions
//! and another closure, and the input is accepted exactly when an accepting
//! state remains at the end.
//!
//! The spec functions below say what all that means mathematically:
//! epsilon-reachability is the existence of a path of epsilon edges, and
//! `accepts` folds the reachable-set step over the input.

use vstd::prelude::*;

use crate::builder::arena_view;
use crate::state::{SpecState, State};

verus! {

/// The model of an automaton: the models of its states, and the start and
/// end indices.
#[verifier::ext_equal]
pub struct SpecNfa {
    pub states: Seq<SpecState>,
    pub start: int,
    pub end: int,
}

/// `i` is the identifier of a state of `n`.
pub open spec fn in_range(n: SpecNfa, i: int) -> bool {
    0 <= i < n.states.len()
}

/// A well-formed automaton: the start and end indices and every edge of
/// every state point into the arena.
pub open spec fn nfa_wf(n: SpecNfa) -> bool {
    &&& in_range(n, n.start)
    &&& in_range(n, n.end)
    &&& forall|i: int, k: int|
        0 <= i < n.states.len() && 0 <= k < n.states[i].eps.len() ==> 0 <= #[trigger] n.states[i].eps[k]
            < n.states.len()
    &&& forall|i: int, k: int|
        0 <= i < n.states.len() && 0 <= k < n.states[i].trans.len() ==> 0 <= (
        #[trigger] n.states[i].trans[k]).1 < n.states.len()
}

/// The successor of a state on input character `c`: the target of the
/// first transition entry for `c`, if any.
pub open spec fn lookup(trans: Seq<(char, int)>, c: char) -> Option<int>
    decreases trans.len(),
{
    if trans.len() == 0 {
        None
    } else if trans[0].0 == c {
        Some(trans[0].1)
    } else {
        lookup(trans.drop_first(), c)
    }
}

/// The set of state identifiers a vector of marks stands for.
pub open spec fn marks_set(m: Seq<bool>) -> Set<int> {
    Set::new(|j: int| 0 <= j < m.len() && m[j])
}

/// `p` is a path of epsilon edges from some state of `init` to `j`.
pub open spec fn is_eps_path(n: SpecNfa, init: Set<int>, p: Seq<int>, j: int) -> bool {
    &&& p.len() >= 1
    &&& init.contains(p[0])
    &&& p[p.len() - 1] == j
    &&& forall|k: int|
        0 <= k < p.len() - 1 ==> in_range(n, #[trigger] p[k]) && n.states[p[k]].eps.contains(
            p[k + 1],
        )
}

/// `j` lies in the epsilon-closure of `init`: it is reachable from a state
/// of `init` by epsilon edges alone. Every state of `init` reaches itself
/// by the one-state path.
pub open spec fn eps_reach(n: SpecNfa, init: Set<int>, j: int) -> bool {
    exists|p: Seq<int>| is_eps_path(n, init, p, j)
}

/// The epsilon-closure of `init`.
pub open spec fn closure(n: SpecNfa, init: Set<int>) -> Set<int> {
    Set::new(|j: int| eps_reach(n, init, j))
}

/// The states reached from `cur` by one symbol transition on `c`.
pub open spec fn targets(n: SpecNfa, cur: Set<int>, c: char) -> Set<int> {
    Set::new(
        |t: int|
            exists|i: int|
                #[trigger] cur.contains(i) && in_range(n, i) && lookup(n.states[i].trans, c)
                    == Some(t),
    )
}

/// One simulation step: follow the transitions on `c` out of the current
/// set, then expand by epsilon-closure.
pub open spec fn step_states(n: SpecNfa, cur: Set<int>, c: char) -> Set<int> {
    closure(n, targets(n, cur, c))
}

/// The current state set after consuming all of `s`, starting from `cur`.
pub open spec fn run(n: SpecNfa, cur: Set<int>, s: Seq<char>) -> Set<int>
    decreases s.len(),
{
    if s.len() == 0 {
        cur
    } else {
        run(n, step_states(n, cur, s[0]), s.drop_first())
    }
}

/// The automaton accepts `s` exactly when, starting from the
/// epsilon-closure of the start state and stepping once per character of
/// `s`, some accepting state remains in the final set.
pub open spec fn accepts(n: SpecNfa, s: Seq<char>) -> bool {
    let fin = run(n, closure(n, Set::empty().insert(n.start)), s);
    exists|j: int| #[trigger] fin.contains(j) && in_range(n, j) && n.states[j].is_end
}

/// Every member of `init` is in the closure of `init`.
pub proof fn lemma_reach_base(n: SpecNfa, init: Set<int>, j: int)
    requires
        init.contains(j),
    ensures
        eps_reach(n, init, j),
{
    let p = seq![j];
    assert(is_eps_path(n, init, p, j));
}

/// Reachability extends along an epsilon edge.
pub proof fn lemma_reach_step(n: SpecNfa, init: Set<int>, i: int, e: int)
    requires
        eps_reach(n, init, i),
        in_range(n, i),
        n.states[i].eps.contains(e),
    ensures
        eps_reach(n, init, e),
{
    let p = choose|p: Seq<int>| is_eps_path(n, init, p, i);
    let p2 = p.push(e);
    assert(p2[p2.len() - 1] == e);
    assert(forall|k: int| 0 <= k < p.len() ==> p2[k] == p[k]);
    assert(is_eps_path(n, init, p2, e));
}

/// A set of marks that contains `init` and is closed under epsilon edges
/// contains the whole closure of `init`: no state outside it is reachable.
pub proof fn lemma_closed_contains_reach(n: SpecNfa, init: Set<int>, m: Seq<bool>, j: int)
    requires
        m.len() == n.states.len(),
        forall|i: int| init.contains(i) ==> 0 <= i < m.len() && m[i],
        forall|i: int, k: int|
            0 <= i < m.len() && m[i] && 0 <= k < n.states[i].eps.len() ==> {
                let e = #[trigger] n.states[i].eps[k];
                0 <= e < m.len() && m[e]
            },
        eps_reach(n, init, j),
    ensures
        0 <= j < m.len() && m[j],
{
    let p = choose|p: Seq<int>| is_eps_path(n, init, p, j);
    lemma_path_marked(n, init, m, p, j);
}

proof fn lemma_path_marked(n: SpecNfa, init: Set<int>, m: Seq<bool>, p: Seq<int>, j: int)
    requires
        m.len() == n.states.len(),
        forall|i: int| init.contains(i) ==> 0 <= i < m.len() && m[i],
        forall|i: int, k: int|
            0 <= i < m.len() && m[i] && 0 <= k < n.states[i].eps.len() ==> {
                let e = #[trigger] n.states[i].eps[k];
                0 <= e < m.len() && m[e]
            },
        is_eps_path(n, init, p, j),
    ensures
        0 <= j < m.len() && m[j],
    decreases p.len(),
{
    if p.len() == 1 {
        assert(j == p[0]);
    } else {
        let q = p.drop_last();
        let j2 = p[p.len() - 2];
        assert(q[q.len() - 1] == j2);
        assert(forall|k: int| 0 <= k < q.len() ==> q[k] == p[k]);
        assert(is_eps_path(n, init, q, j2));
        lemma_path_marked(n, init, m, q, j2);
        assert(n.states[j2].eps.contains(p[p.len() - 1]));
        let k = choose|k: int| 0 <= k < n.states[j2].eps.len() && n.states[j2].eps[k] == j;
        assert(m[n.states[j2].eps[k]]);
    }
}

/// In a well-formed automaton, only states of the automaton are reachable
/// from states of the automaton.
pub proof fn lemma_reach_in_range(n: SpecNfa, init: Set<int>, j: int)
    requires
        nfa_wf(n),
        forall|i: int| init.contains(i) ==> in_range(n, i),
        eps_reach(n, init, j),
    ensures
        in_range(n, j),
{
    let p = choose|p: Seq<int>| is_eps_path(n, init, p, j);
    if p.len() == 1 {
        assert(init.contains(p[0]));
    } else {
        let i = p[p.len() - 2];
        assert(in_range(n, i) && n.states[i].eps.contains(p[p.len() - 1]));
        let k = choose|k: int| 0 <= k < n.states[i].eps.len() && n.states[i].eps[k] == j;
        assert(0 <= n.states[i].eps[k] < n.states.len());
    }
}

/// A successful lookup returns some entry of the transition list.
pub proof fn lemma_lookup_found(tr: Seq<(char, int)>, c: char)
    requires
        lookup(tr, c) is Some,
    ensures
        exists|k: int| 0 <= k < tr.len() && tr[k] == (c, lookup(tr, c)->Some_0),
    decreases tr.len(),
{
    if tr[0].0 == c {
        assert(tr[0] == (c, lookup(tr, c)->Some_0));
    } else {
        lemma_lookup_found(tr.drop_first(), c);
        let k = choose|k: int|
            0 <= k < tr.drop_first().len() && tr.drop_first()[k] == (
            c,
            lookup(tr.drop_first(), c)->Some_0,
            );
        assert(tr[k + 1] == (c, lookup(tr, c)->Some_0));
    }
}

/// In a well-formed automaton, every transition target is a state of the
/// automaton, so every member of a target set is in range.
pub proof fn lemma_targets_in_range(n: SpecNfa, cur: Set<int>, c: char, t: int)
    requires
        nfa_wf(n),
        targets(n, cur, c).contains(t),
    ensures
        in_range(n, t),
{
    let i = choose|i: int|
        #[trigger] cur.contains(i) && in_range(n, i) && lookup(n.states[i].trans, c) == Some(t);
    lemma_lookup_found(n.states[i].trans, c);
    let k = choose|k: int| 0 <= k < n.states[i].trans.len() && n.states[i].trans[k] == (c, t);
    assert(0 <= (n.states[i].trans[k]).1 < n.states.len());
}

/// The number of set marks; the termination measure of the closure
/// computation.
pub open spec fn count_true(m: Seq<bool>) -> int
    decreases m.len(),
{
    if m.len() == 0 {
        0
    } else {
        count_true(m.drop_last()) + if m.last() {
            1int
        } else {
            0int
        }
    }
}

pub proof fn lemma_count_true_bounds(m: Seq<bool>)
    ensures
        0 <= count_true(m) <= m.len(),
    decreases m.len(),
{
    if m.len() > 0 {
        lemma_count_true_bounds(m.drop_last());
    }
}

/// The runnable automaton: the arena of states and the identifiers of the
/// start state and the single designated accepting end state. It is built
/// once by the compiler and read-only afterwards.
pub struct NFA {
    states: Vec<State>,
    start: usize,
    end: usize,
}

impl View for NFA {
    type V = SpecNfa;

    closed spec fn view(&self) -> SpecNfa {
        SpecNfa {
            states: arena_view(self.states@),
            start: self.start as int,
            end: self.end as int,
        }
    }
}

impl NFA {
    /// An automaton is well formed by construction.
    #[verifier::type_invariant]
    pub open spec fn inv(&self) -> bool {
        nfa_wf(self@)
    }

    /// A runnable automaton over the given arena, spanning `start` to
    /// `end`; the end state is flagged accepting.
    pub fn new(states: Vec<State>, start: usize, end: usize) -> (r: NFA)
        requires
            nfa_wf(
                SpecNfa {
                    states: arena_view(states@),
                    start: start as int,
                    end: end as int,
                },
            ),
        ensures
            r@ == (SpecNfa {
                states: arena_view(states@).update(
                    end as int,
                    SpecState { is_end: true, ..arena_view(states@)[end as int] },
                ),
                start: start as int,
                end: end as int,
            }),
            nfa_wf(r@),
    {
        let mut states = states;
        let ghost a0 = states@;
        states[end].set_end(true);
        proof {
            crate::builder::lemma_arena_update(a0, end as int, states@[end as int]);
        }
        NFA { states, start, end }
    }

    /// Expands a set of marks to its epsilon-closure: after the call, a
    /// state is marked exactly when it was reachable from an initially
    /// marked state by epsilon edges alone. A worklist of marked states
    /// guarantees termination on cyclic epsilon graphs: a state is pushed
    /// only when first marked.
    #[verifier::loop_isolation(false)]
    #[verifier::rlimit(80)]
    fn eps_closure(&self, marks: &mut Vec<bool>)
        requires
            old(marks)@.len() == self@.states.len(),
        ensures
            final(marks)@.len() == old(marks)@.len(),
            forall|j: int|
                0 <= j < final(marks)@.len() ==> (final(marks)@[j] <==> eps_reach(
                    self@,
                    marks_set(old(marks)@),
                    j,
                )),
    {
        proof {
            use_type_invariant(self);
        }
        let ghost init = marks_set(old(marks)@);
        let n = self.states.len();
        let mut stack: Vec<usize> = Vec::new();
        let mut i: usize = 0;
        while i < n
            invariant
                i <= n,
                marks@ == old(marks)@,
                forall|x: int|
                    0 <= x < stack@.len() ==> (#[trigger] stack@[x]) < n && marks@[stack@[x] as int],
                forall|j: int| 0 <= j < i && marks@[j] ==> stack@.contains(j as usize),
            decreases n - i,
        {
            if marks[i] {
                let ghost sbefore = stack@;
                stack.push(i);
                proof {
                    assert forall|u: usize| #[trigger]
                        sbefore.contains(u) implies stack@.contains(u) by {
                        let idx = choose|idx: int| 0 <= idx < sbefore.len() && sbefore[idx] == u;
                        assert(stack@[idx] == u);
                    }
                    assert(stack@[stack@.len() - 1] == i);
                }
            }
            i += 1;
        }
        proof {
            assert forall|j: int| 0 <= j < n && marks@[j] implies eps_reach(self@, init, j) by {
                lemma_reach_base(self@, init, j);
            }
        }
        while stack.len() > 0
            invariant
                marks@.len() == n,
                forall|x: int|
                    0 <= x < stack@.len() ==> (#[trigger] stack@[x]) < n && marks@[stack@[x] as int],
                forall|j: int| 0 <= j < n && #[trigger] marks@[j] ==> eps_reach(self@, init, j),
                forall|j: int| init.contains(j) ==> 0 <= j < n && marks@[j],
                forall|j: int, k: int|
                    0 <= j < n && marks@[j] && !stack@.contains(j as usize) && 0 <= k
                        < self@.states[j].eps.len() ==> marks@[#[trigger] self@.states[j].eps[k]],
            decreases n - count_true(marks@), stack@.len(),
        {
            let ghost marks_at = marks@;
            let ghost stack_at = stack@;
            proof {
                lemma_count_true_bounds(marks@);
            }
            let s = stack.pop().unwrap();
            proof {
                assert forall|j: int|
                    0 <= j < n && marks@[j] && !stack@.contains(j as usize) && j
                        != s implies !stack_at.contains(j as usize) by {
                    if stack_at.contains(j as usize) {
                        let idx = choose|idx: int|
                            0 <= idx < stack_at.len() && stack_at[idx] == (j as usize);
                        assert(stack_at[stack_at.len() - 1] == s);
                        assert(idx < stack_at.len() - 1);
                        assert(stack@[idx] == (j as usize));
                        assert(stack@.contains(j as usize));
                    }
                }
            }
            let m = self.states[s].epsilon.len();
            let mut k: usize = 0;
            while k < m
                invariant
                    k <= m,
                    s < n,
                    marks@.len() == n,
                    m == self@.states[s as int].eps.len(),
                    marks@[s as int],
                    forall|x: int|
                        0 <= x < stack@.len() ==> (#[trigger] stack@[x]) < n
                            && marks@[stack@[x] as int],
                    forall|j: int| 0 <= j < n && #[trigger] marks@[j] ==> eps_reach(self@, init, j),
                    forall|j: int| init.contains(j) ==> 0 <= j < n && marks@[j],
                    forall|j: int, kk: int|
                        0 <= j < n && marks@[j] && !stack@.contains(j as usize) && j != s && 0 <= kk
                            < self@.states[j].eps.len() ==> marks@[
                        #[trigger] self@.states[j].eps[kk]],
                    forall|kk: int| 0 <= kk < k ==> marks@[#[trigger] self@.states[s as int].eps[kk]],
                    count_true(marks@) >= count_true(marks_at),
                    count_true(marks@) == count_true(marks_at) ==> marks@ == marks_at && stack@
                        == stack_at.drop_last(),
                decreases m - k,
            {
                let e = self.states[s].epsilon[k];
                proof {
                    assert(self@.states[s as int].eps[k as int] == e as int);
                }
                if !marks[e] {
                    let ghost before = marks@;
                    let ghost sbefore = stack@;
                    marks[e] = true;
                    stack.push(e);
                    proof {
                        lemma_count_true_set(before, e as int);
                        lemma_reach_step(self@, init, s as int, e as int);
                        assert(marks@ =~= before.update(e as int, true));
                        assert forall|u: usize| #[trigger]
                            sbefore.contains(u) implies stack@.contains(u) by {
                            let idx = choose|idx: int|
                                0 <= idx < sbefore.len() && sbefore[idx] == u;
                            assert(stack@[idx] == u);
                        }
                        assert(stack@[stack@.len() - 1] == e);
                        assert(stack@.contains(e));
                    }
                }
                k += 1;
            }
            proof {
                lemma_count_true_bounds(marks@);
            }
        }
        proof {
            assert forall|j: int|
                0 <= j < marks@.len() && eps_reach(self@, init, j) implies marks@[j] by {
                lemma_closed_contains_reach(self@, init, marks@, j);
            }
        }
    }

    /// The successor of state `i` on input `c`: the target of the first
    /// transition entry for `c`, if any.
    fn find_transition(&self, i: usize, c: char) -> (r: Option<usize>)
        requires
            i < self@.states.len(),
        ensures
            match r {
                Some(t) => lookup(self@.states[i as int].trans, c) == Some(t as int) && t
                    < self@.states.len(),
                None => lookup(self@.states[i as int].trans, c) is None,
            },
    {
        proof {
            use_type_invariant(self);
        }
        let ghost tr = self@.states[i as int].trans;
        proof {
            assert(tr.skip(0) =~= tr);
        }
        let m = self.states[i].transitions.len();
        let mut k: usize = 0;
        while k < m
            invariant
                k <= m,
                i < self@.states.len(),
                m == tr.len(),
                tr == self@.states[i as int].trans,
                lookup(tr, c) == lookup(tr.skip(k as int), c),
                nfa_wf(self@),
            decreases m - k,
        {
            let pair = self.states[i].transitions[k];
            proof {
                assert(tr[k as int] == (pair.0, pair.1 as int));
                assert(tr.skip(k as int)[0] == tr[k as int]);
            }
            if pair.0 == c {
                return Some(pair.1);
            }
            proof {
                assert(tr.skip(k as int).drop_first() =~= tr.skip(k as int + 1));
            }
            k += 1;
        }
        proof {
            assert(tr.skip(m as int) =~= Seq::<(char, int)>::empty());
        }
        None
    }

    /// Follows the symbol transitions on `c` out of every marked state:
    /// the result marks exactly the transition targets.
    #[verifier::loop_isolation(false)]
    fn step_once(&self, current: &Vec<bool>, c: char) -> (next: Vec<bool>)
        requires
            current@.len() == self@.states.len(),
        ensures
            next@.len() == current@.len(),
            forall|j: int|
                0 <= j < next@.len() ==> (next@[j] <==> targets(
                    self@,
                    marks_set(current@),
                    c,
                ).contains(j)),
    {
        proof {
            use_type_invariant(self);
        }
        let n = self.states.len();
        let mut next: Vec<bool> = Vec::new();
        let mut i: usize = 0;
        while i < n
            invariant
                i <= n,
                next@.len() == i,
                forall|j: int| 0 <= j < i ==> !next@[j],
            decreases n - i,
        {
            next.push(false);
            i += 1;
        }
        let mut i: usize = 0;
        while i < n
            invariant
                i <= n,
                next@.len() == n,
                forall|j: int|
                    0 <= j < n ==> (next@[j] <==> exists|x: int|
                        0 <= x < i && current@[x] && lookup(self@.states[x].trans, c) == Some(j)),
            decreases n - i,
        {
            if current[i] {
                match self.find_transition(i, c) {
                    Some(t) => {
                        let ghost before = next@;
                        next[t] = true;
                        proof {
                            assert(next@ =~= before.update(t as int, true));
                        }
                    },
                    None => {},
                }
            }
            i += 1;
        }
        proof {
            assert forall|j: int| 0 <= j < next@.len() implies (next@[j] <==> targets(
                self@,
                marks_set(current@),
                c,
            ).contains(j)) by {
                if next@[j] {
                    let x = choose|x: int|
                        0 <= x < n && current@[x] && lookup(self@.states[x].trans, c) == Some(j);
                    assert(marks_set(current@).contains(x));
                    assert(targets(self@, marks_set(current@), c).contains(j));
                }
                if targets(self@, marks_set(current@), c).contains(j) {
                    let x = choose|x: int|
                        #[trigger] marks_set(current@).contains(x) && in_range(self@, x) && lookup(
                            self@.states[x].trans,
                            c,
                        ) == Some(j);
                    assert(0 <= x < n && current@[x]);
                }
            }
        }
        next
    }

    /// Simulates the automaton on `to_match`: `true` exactly when the
    /// automaton accepts the string.
    #[verifier::loop_isolation(false)]
    #[verifier::rlimit(80)]
    pub fn match_regex(&self, to_match: &str) -> (r: bool)
        ensures
            r == accepts(self@, to_match@),
    {
        proof {
            use_type_invariant(self);
        }
        let n = self.states.len();
        let mut current: Vec<bool> = Vec::new();
        let mut i: usize = 0;
        while i < n
            invariant
                i <= n,
                current@.len() == i,
                forall|j: int| 0 <= j < i ==> !current@[j],
            decreases n - i,
        {
            current.push(false);
            i += 1;
        }
        let ghost blank = current@;
        current[self.start] = true;
        proof {
            assert(current@ =~= blank.update(self@.start, true));
            assert(marks_set(current@) =~= Set::empty().insert(self@.start));
        }
        self.eps_closure(&mut current);
        let ghost s0 = closure(self@, Set::empty().insert(self@.start));
        proof {
            assert forall|j: int| s0.contains(j) implies 0 <= j < n by {
                lemma_reach_in_range(self@, Set::empty().insert(self@.start), j);
            }
            assert(marks_set(current@) =~= s0);
            assert(to_match@.skip(0) =~= to_match@);
        }
        let len = to_match.unicode_len();
        let mut pos: usize = 0;
        while pos < len
            invariant
                pos <= len,
                current@.len() == n,
                run(self@, marks_set(current@), to_match@.skip(pos as int)) == run(
                    self@,
                    s0,
                    to_match@,
                ),
            decreases len - pos,
        {
            let ghost cur_set = marks_set(current@);
            let c = to_match.get_char(pos);
            let mut next = self.step_once(&current, c);
            proof {
                assert forall|t: int| targets(self@, cur_set, c).contains(t) implies 0 <= t < n by {
                    lemma_targets_in_range(self@, cur_set, c, t);
                }
                assert(marks_set(next@) =~= targets(self@, cur_set, c));
            }
            self.eps_closure(&mut next);
            proof {
                assert forall|j: int| step_states(self@, cur_set, c).contains(j) implies 0 <= j
                    < n by {
                    assert forall|t: int| targets(self@, cur_set, c).contains(t) implies in_range(
                        self@,
                        t,
                    ) by {
                        lemma_targets_in_range(self@, cur_set, c, t);
                    }
                    lemma_reach_in_range(self@, targets(self@, cur_set, c), j);
                }
                assert(marks_set(next@) =~= step_states(self@, cur_set, c));
                assert(to_match@.skip(pos as int)[0] == to_match@[pos as int]);
                assert(to_match@.skip(pos as int).drop_first() =~= to_match@.skip(pos as int + 1));
            }
            current = next;
            pos += 1;
        }
        proof {
            assert(to_match@.skip(len as int) =~= Seq::<char>::empty());
        }
        let ghost fin = run(self@, s0, to_match@);
        let mut acc = false;
        let mut j: usize = 0;
        while j < n
            invariant
                j <= n,
                current@.len() == n,
                acc <==> exists|x: int| 0 <= x < j && #[trigger] current@[x] && self@.states[x].is_end,
            decreases n - j,
        {
            if current[j] && self.states[j].is_end {
                acc = true;
            }
            j += 1;
        }
        proof {
            assert(fin == marks_set(current@));
            if acc {
                let x = choose|x: int| 0 <= x < n && #[trigger] current@[x] && self@.states[x].is_end;
                assert(fin.contains(x));
                assert(accepts(self@, to_match@));
            }
            if accepts(self@, to_match@) {
                let x = choose|x: int| #[trigger]
                    fin.contains(x) && in_range(self@, x) && self@.states[x].is_end;
                assert(0 <= x < n && current@[x]);
            }
        }
        acc
    }
}

/// Setting one unset mark raises the count by one.
pub proof fn lemma_count_true_set(m: Seq<bool>, i: int)
    requires
        0 <= i < m.len(),
        !m[i],
    ensures
        count_true(m.update(i, true)) == count_true(m) + 1,
    decreases m.len(),
{
    let m2 = m.update(i, true);
    if i == m.len() - 1 {
        assert(m2.drop_last() =~= m.drop_last());
    } else {
        assert(m2.drop_last() =~= m.drop_last().update(i, true));
        lemma_count_true_set(m.drop_last(), i);
    }
}

} // verus!
