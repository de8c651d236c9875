//! The automaton state model.
//!
//! States live in an arena (the `states` vector of an automaton) and are
//! addressed by stable indices, so the cyclic transition graph needs no
//! shared ownership and state identity is index equality.

use vstd::prelude::*;

verus! {

/// The identity of a state: its index in the owning arena.
///
/// Two states are the same state exactly when their indices are equal;
/// structural content plays no part in identity.
#[derive(Debug, Clone, Copy, PartialEq, Eq, Structural)]
pub struct StatePtr {
    pub id: usize,
}

/// One outgoing transition: on `symbol` to `target`.
///
/// An absent symbol is an epsilon transition, taken without consuming
/// input.  Nondeterminism is explicit: a state may hold many transitions,
/// several of them on the same symbol.
#[derive(Debug, Clone, Copy, PartialEq, Eq)]
pub struct Transition {
    pub symbol: Option<char>,
    pub target: StatePtr,
}

/// A state: its outgoing transitions and, on states that represent
/// successful recognition of a complete sub-pattern, an accept label.
#[derive(Debug)]
pub struct State<T> {
    pub transitions: Vec<Transition>,
    pub token: Option<T>,
}

/// The mathematical value of a [`State`]: the same data with the
/// transition list as a sequence.
#[verifier::ext_equal]
pub struct SpecState<T> {
    pub transitions: Seq<Transition>,
    pub token: Option<T>,
}

impl<T> View for State<T> {
    type V = SpecState<T>;

    open spec fn view(&self) -> SpecState<T> {
        SpecState { transitions: self.transitions@, token: self.token }
    }
}

/// A transition list extended by `t`: unchanged when `t` is already
/// present — the transitions out of a state form a set, keyed by symbol
/// and target together — and the list plus `t` otherwise.
pub open spec fn add_edge(tr: Seq<Transition>, t: Transition) -> Seq<Transition> {
    if tr.contains(t) {
        tr
    } else {
        tr.push(t)
    }
}

/// Whether `tr` already holds a transition on `symbol` to `target`.
fn has_transition(tr: &Vec<Transition>, symbol: Option<char>, target: StatePtr) -> (r: bool)
    ensures
        r == tr@.contains(Transition { symbol, target }),
{
    let mut k: usize = 0;
    while k < tr.len()
        invariant
            k <= tr@.len(),
            forall|j: int| 0 <= j < k ==> tr@[j] != (Transition { symbol, target }),
        decreases tr@.len() - k,
    {
        let same_symbol = match (tr[k].symbol, symbol) {
            (None, None) => true,
            (Some(a), Some(b)) => a == b,
            _ => false,
        };
        if same_symbol && tr[k].target.id == target.id {
            return true;
        }
        k = k + 1;
    }
    false
}

impl<T> State<T> {
    /// A fresh state: no transitions, no accept label.
    pub fn new() -> (s: State<T>)
        ensures
            s@.transitions == Seq::<Transition>::empty(),
            s@.token is None,
    {
        State { transitions: Vec::new(), token: None }
    }

    /// Adds one transition on `symbol` (`None` = epsilon) to `target`.
    /// The transitions form a set: adding a pair that is already present
    /// leaves the state unchanged.
    pub fn add_transition(&mut self, symbol: Option<char>, target: StatePtr)
        ensures
            final(self)@.transitions == add_edge(
                old(self)@.transitions,
                Transition { symbol, target },
            ),
            final(self)@.token == old(self)@.token,
    {
        if !has_transition(&self.transitions, symbol, target) {
            self.transitions.push(Transition { symbol, target });
        }
    }
}

} // verus!
