//! Automaton states.
//!
//! The automaton's state graph may contain cycles (the repetition operators
//! introduce back-edges), so states live in an arena — a vector owned by the
//! automaton — and every edge is stored as an index into that arena rather
//! than as an owning reference. A state's identifier is its arena index.

use vstd::prelude::*;

verus! {

/// One node of the automaton graph: an ordered list of epsilon successors,
/// a list of symbol transitions (each input character maps to at most one
/// successor; the first matching entry wins), and an accepting flag.
pub struct State {
    pub epsilon: Vec<usize>,
    pub transitions: Vec<(char, usize)>,
    pub is_end: bool,
}

/// The mathematical model of a [`State`]: the same three components with
/// arena indices widened to `int`.
#[verifier::ext_equal]
pub struct SpecState {
    pub eps: Seq<int>,
    pub trans: Seq<(char, int)>,
    pub is_end: bool,
}

impl View for State {
    type V = SpecState;

    open spec fn view(&self) -> SpecState {
        SpecState {
            eps: self.epsilon@.map_values(|u: usize| u as int),
            trans: self.transitions@.map_values(|p: (char, usize)| (p.0, p.1 as int)),
            is_end: self.is_end,
        }
    }
}

impl State {
    /// A fresh state with no outgoing edges, not accepting.
    pub fn new() -> (s: State)
        ensures
            s@ == (SpecState { eps: Seq::<int>::empty(), trans: Seq::<(char, int)>::empty(), is_end: false }),
    {
        let s = State { epsilon: Vec::new(), transitions: Vec::new(), is_end: false };
        proof {
            assert(s@ =~= SpecState {
                eps: Seq::<int>::empty(),
                trans: Seq::<(char, int)>::empty(),
                is_end: false,
            });
        }
        s
    }

    /// Appends an epsilon edge to the state with index `to`.
    pub fn add_epsilon(&mut self, to: usize)
        ensures
            final(self)@ == (SpecState { eps: old(self)@.eps.push(to as int), ..old(self)@ }),
    {
        self.epsilon.push(to);
        proof {
            assert(final(self)@ =~= SpecState { eps: old(self)@.eps.push(to as int), ..old(self)@ });
        }
    }

    /// Appends a transition on `symbol` to the state with index `to`.
    pub fn add_delta(&mut self, symbol: char, to: usize)
        ensures
            final(self)@ == (SpecState {
                trans: old(self)@.trans.push((symbol, to as int)),
                ..old(self)@
            }),
    {
        self.transitions.push((symbol, to));
        proof {
            assert(final(self)@ =~= SpecState {
                trans: old(self)@.trans.push((symbol, to as int)),
                ..old(self)@
            });
        }
    }

    /// Sets or clears the accepting flag.
    pub fn set_end(&mut self, is_end: bool)
        ensures
            final(self)@ == (SpecState { is_end: is_end, ..old(self)@ }),
    {
        self.is_end = is_end;
        proof {
            assert(final(self)@ =~= SpecState { is_end: is_end, ..old(self)@ });
        }
    }
}

} // verus!
