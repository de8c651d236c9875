//! Thompson's construction: compiling a syntax tree into an automaton.
//!
//! Each sub-expression compiles to a fragment with exactly one start state
//! and one accept state; fragments are wired together per operator.  The
//! accept label supplied by the caller is threaded to the last operand of
//! each operator (the second operand of `Concat` and `Union`, the sole
//! operand of `Star`) and surfaces on the final fragment's accept state;
//! every other state carries no label.

pub mod state;

use vstd::prelude::*;

use crate::nfa::state::{add_edge, SpecState, State, StatePtr, Transition};
use crate::regex::{regex_wf, Regex};

verus! {

/// An automaton under construction, described by its single start state
/// and single accept state (both indices into the owning arena).
#[derive(Debug, Clone, Copy, PartialEq, Eq, Structural)]
pub struct Fragment {
    pub start: StatePtr,
    pub accept: StatePtr,
}

/// An automaton: an arena of states plus the entry and accept state of
/// the fragment that covers the whole expression.
#[derive(Debug)]
pub struct NFA<T> {
    pub states: Vec<State<T>>,
    pub start: StatePtr,
    pub accept: StatePtr,
}

/// The number of states that compiling `r` creates: two per `Literal`,
/// `Union` and `Star` node, none for `Concat`.
pub open spec fn regex_states(r: Regex) -> nat
    decreases r,
{
    match r {
        Regex::Literal(_) => 2,
        Regex::Concat(a, b) => regex_states(*a) + regex_states(*b),
        Regex::Union(a, b) => regex_states(*a) + regex_states(*b) + 2,
        Regex::Star(a) => regex_states(*a) + 2,
        Regex::Empty => 0,
    }
}

/// An epsilon transition to `to`.
pub open spec fn eps_to(to: StatePtr) -> Transition {
    Transition { symbol: None, target: to }
}

/// Counts the states that compiling `r` would create, or `None` when the
/// count does not fit in `usize` (nested `+` rewrites duplicate subtrees,
/// so the count can grow exponentially in the pattern).  A `Some` result
/// discharges [`NFA::build_nfa`]'s size precondition.
pub fn states_needed(r: &Regex) -> (n: Option<usize>)
    ensures
        n matches Some(k) ==> k as nat == regex_states(*r),
        n is None ==> regex_states(*r) > usize::MAX,
    decreases *r,
{
    match r {
        Regex::Literal(_) => Some(2),
        Regex::Concat(a, b) => match (states_needed(a), states_needed(b)) {
            (Some(x), Some(y)) => x.checked_add(y),
            _ => None,
        },
        Regex::Union(a, b) => match (states_needed(a), states_needed(b)) {
            (Some(x), Some(y)) => match x.checked_add(y) {
                Some(xy) => xy.checked_add(2),
                None => None,
            },
            _ => None,
        },
        Regex::Star(a) => match states_needed(a) {
            Some(x) => x.checked_add(2),
            None => None,
        },
        Regex::Empty => Some(0),
    }
}

/// The arena after compiling `Literal(c)`: two fresh states, one
/// transition on `c` from the first to the second, the label on the
/// second.
pub open spec fn spec_literal<T>(
    sts: Seq<SpecState<T>>,
    c: Option<char>,
    label: Option<T>,
) -> (Seq<SpecState<T>>, Fragment) {
    let start = StatePtr { id: sts.len() as usize };
    let accept = StatePtr { id: (sts.len() + 1) as usize };
    (
        sts + seq![
            SpecState { transitions: seq![Transition { symbol: c, target: accept }], token: None },
            SpecState { transitions: Seq::empty(), token: label },
        ],
        Fragment { start, accept },
    )
}

/// The arena after wiring `Concat(a, b)`: one epsilon transition from
/// `a`'s accept state to `b`'s start state; the fragment is
/// `(a.start, b.accept)`.
pub open spec fn spec_concat<T>(
    sts: Seq<SpecState<T>>,
    a: Fragment,
    b: Fragment,
) -> (Seq<SpecState<T>>, Fragment) {
    let joined = sts[a.accept.id as int];
    (
        sts.update(
            a.accept.id as int,
            SpecState {
                transitions: add_edge(joined.transitions, eps_to(b.start)),
                token: joined.token,
            },
        ),
        Fragment { start: a.start, accept: b.accept },
    )
}

/// The arena after wiring `Union(a, b)`: a fresh start state with epsilon
/// transitions into both operands, a fresh accept state with epsilon
/// transitions from both operands' accept states, and the label moved
/// from `b`'s accept state (the second operand wins).
pub open spec fn spec_union<T>(
    sts: Seq<SpecState<T>>,
    a: Fragment,
    b: Fragment,
) -> (Seq<SpecState<T>>, Fragment) {
    let start = StatePtr { id: sts.len() as usize };
    let accept = StatePtr { id: (sts.len() + 1) as usize };
    let a_acc = sts[a.accept.id as int];
    let b_acc = sts[b.accept.id as int];
    let wired = sts.update(
        a.accept.id as int,
        SpecState { transitions: add_edge(a_acc.transitions, eps_to(accept)), token: a_acc.token },
    ).update(
        b.accept.id as int,
        SpecState { transitions: add_edge(b_acc.transitions, eps_to(accept)), token: None },
    );
    (
        wired + seq![
            SpecState {
                transitions: add_edge(seq![eps_to(a.start)], eps_to(b.start)),
                token: None,
            },
            SpecState { transitions: Seq::empty(), token: b_acc.token },
        ],
        Fragment { start, accept },
    )
}

/// The arena after wiring `Star(a)`: a fresh start state with epsilon
/// transitions into `a` and straight to the fresh accept state (zero
/// occurrences), epsilon transitions from `a`'s accept state back to its
/// start (repeat) and to the fresh accept state (exit), and the label
/// moved from `a`'s accept state.
pub open spec fn spec_star<T>(sts: Seq<SpecState<T>>, a: Fragment) -> (
    Seq<SpecState<T>>,
    Fragment,
) {
    let start = StatePtr { id: sts.len() as usize };
    let accept = StatePtr { id: (sts.len() + 1) as usize };
    let a_acc = sts[a.accept.id as int];
    let wired = sts.update(
        a.accept.id as int,
        SpecState {
            transitions: add_edge(add_edge(a_acc.transitions, eps_to(a.start)), eps_to(accept)),
            token: None,
        },
    );
    (
        wired + seq![
            SpecState {
                transitions: add_edge(seq![eps_to(a.start)], eps_to(accept)),
                token: None,
            },
            SpecState { transitions: Seq::empty(), token: a_acc.token },
        ],
        Fragment { start, accept },
    )
}

/// The arena after compiling a whole tree, by structural recursion.
/// `Empty` never reaches the builder (see [`regex_wf`]); the equation
/// below makes it a no-op only so that the function is total.
pub open spec fn spec_build<T>(sts: Seq<SpecState<T>>, r: Regex, label: Option<T>) -> (
    Seq<SpecState<T>>,
    Fragment,
)
    decreases r,
{
    match r {
        Regex::Literal(c) => spec_literal(sts, c, label),
        Regex::Concat(a, b) => {
            let (sts_a, fa) = spec_build(sts, *a, None);
            let (sts_b, fb) = spec_build(sts_a, *b, label);
            spec_concat(sts_b, fa, fb)
        },
        Regex::Union(a, b) => {
            let (sts_a, fa) = spec_build(sts, *a, None);
            let (sts_b, fb) = spec_build(sts_a, *b, label);
            spec_union(sts_b, fa, fb)
        },
        Regex::Star(a) => {
            let (sts_a, fa) = spec_build(sts, *a, label);
            spec_star(sts_a, fa)
        },
        Regex::Empty => (sts, Fragment { start: StatePtr { id: 0 }, accept: StatePtr { id: 0 } }),
    }
}

impl<T> NFA<T> {
    /// The mathematical value of the arena: each state as a [`SpecState`].
    pub open spec fn arena(self) -> Seq<SpecState<T>> {
        self.states@.map_values(|s: State<T>| s@)
    }

    /// Both ends of the fragment name states of this arena.
    pub open spec fn frag_in(self, f: Fragment) -> bool {
        f.start.id < self.arena().len() && f.accept.id < self.arena().len()
    }

    /// The automaton has a transition on `symbol` (`None` = epsilon) from
    /// `from` to `to`.
    pub open spec fn has_edge(self, from: StatePtr, symbol: Option<char>, to: StatePtr) -> bool {
        from.id < self.arena().len() && self.arena()[from.id as int].transitions.contains(
            Transition { symbol, target: to },
        )
    }

    /// Some transition, on whatever symbol, leads from `from` to `to`.
    pub open spec fn steps_to(self, from: StatePtr, to: StatePtr) -> bool {
        exists|symbol: Option<char>| self.has_edge(from, symbol, to)
    }

    /// `p` walks the automaton: every adjacent pair is joined by a
    /// transition.
    pub open spec fn is_path(self, p: Seq<StatePtr>) -> bool {
        forall|i: int| 0 <= i < p.len() - 1 ==> #[trigger] self.steps_to(p[i], p[i + 1])
    }

    /// `p` walks the automaton along epsilon transitions only: no input
    /// symbol is consumed anywhere on it.
    pub open spec fn is_epsilon_path(self, p: Seq<StatePtr>) -> bool {
        forall|i: int| 0 <= i < p.len() - 1 ==> #[trigger] self.has_edge(p[i], None, p[i + 1])
    }

    /// Compiles `Literal(c)`: two fresh states, one transition on `c`
    /// (`None` = epsilon) from the fragment's start state to its accept
    /// state, and the label on the accept state.  The start state's single
    /// transition is the only one out of it.
    pub fn literal(&mut self, c: Option<char>, accept_label: Option<T>) -> (f: Fragment)
        requires
            old(self).arena().len() + 2 <= usize::MAX,
        ensures
            final(self).arena() == spec_literal(old(self).arena(), c, accept_label).0,
            f == spec_literal(old(self).arena(), c, accept_label).1,
            final(self).start == old(self).start,
            final(self).accept == old(self).accept,
            final(self).arena().len() == old(self).arena().len() + 2,
            f.start.id == old(self).arena().len(),
            f.accept.id == f.start.id + 1,
            forall|i: int|
                0 <= i < old(self).arena().len() ==> final(self).arena()[i] == old(self).arena()[i],
            final(self).arena()[f.start.id as int].transitions == seq![
                Transition { symbol: c, target: f.accept },
            ],
            final(self).arena()[f.start.id as int].token is None,
            final(self).arena()[f.accept.id as int].transitions == Seq::<Transition>::empty(),
            final(self).arena()[f.accept.id as int].token == accept_label,
            final(self).has_edge(f.start, c, f.accept),
    {
        let start = StatePtr { id: self.states.len() };
        let accept = StatePtr { id: start.id + 1 };
        let mut start_state = State::new();
        start_state.add_transition(c, accept);
        self.states.push(start_state);
        self.states.push(State { transitions: Vec::new(), token: accept_label });
        proof {
            assert(self.arena() =~~= spec_literal(old(self).arena(), c, accept_label).0);
            assert(self.arena()[start.id as int].transitions[0] == Transition {
                symbol: c,
                target: accept,
            });
        }
        Fragment { start, accept }
    }

    /// Wires `Concat(a, b)`: one epsilon transition from `a`'s accept
    /// state to `b`'s start state.  The result's accept state is exactly
    /// `b`'s, one epsilon transition away from `a`'s accept state; no
    /// state's label changes and no state is added.
    pub fn concat(&mut self, a: Fragment, b: Fragment) -> (f: Fragment)
        requires
            old(self).frag_in(a),
            old(self).frag_in(b),
        ensures
            final(self).arena() == spec_concat(old(self).arena(), a, b).0,
            f == spec_concat(old(self).arena(), a, b).1,
            f.start == a.start,
            f.accept == b.accept,
            final(self).start == old(self).start,
            final(self).accept == old(self).accept,
            final(self).arena().len() == old(self).arena().len(),
            forall|i: int|
                0 <= i < old(self).arena().len() && i != a.accept.id ==> final(self).arena()[i] == old(
                    self,
                ).arena()[i],
            final(self).arena()[a.accept.id as int].transitions == add_edge(
                old(self).arena()[a.accept.id as int].transitions,
                eps_to(b.start),
            ),
            final(self).arena()[a.accept.id as int].token == old(self).arena()[a.accept.id as int].token,
            final(self).has_edge(a.accept, None, b.start),
            forall|from: StatePtr, symbol: Option<char>, to: StatePtr|
                old(self).has_edge(from, symbol, to) ==> #[trigger] final(self).has_edge(
                    from,
                    symbol,
                    to,
                ),
    {
        let joined = &mut self.states[a.accept.id];
        joined.add_transition(None, b.start);
        proof {
            assert(self.arena() =~~= spec_concat(old(self).arena(), a, b).0);
            let pre = old(self).arena()[a.accept.id as int].transitions;
            let tr = self.arena()[a.accept.id as int].transitions;
            if !pre.contains(eps_to(b.start)) {
                assert(tr[tr.len() - 1] == eps_to(b.start));
            }
            self.lemma_edges_grow(*old(self));
        }
        Fragment { start: a.start, accept: b.accept }
    }

    /// Wires `Union(a, b)`: a fresh start state with epsilon transitions
    /// into both operands' start states, a fresh accept state with epsilon
    /// transitions from both operands' accept states, and the accept label
    /// moved from `b`'s accept state onto the fresh accept state — the
    /// label set during the second operand's own construction wins.
    pub fn union(&mut self, a: Fragment, b: Fragment) -> (f: Fragment)
        requires
            old(self).frag_in(a),
            old(self).frag_in(b),
            a.accept.id != b.accept.id,
            old(self).arena().len() + 2 <= usize::MAX,
        ensures
            final(self).arena() == spec_union(old(self).arena(), a, b).0,
            f == spec_union(old(self).arena(), a, b).1,
            final(self).start == old(self).start,
            final(self).accept == old(self).accept,
            final(self).arena().len() == old(self).arena().len() + 2,
            f.start.id == old(self).arena().len(),
            f.accept.id == f.start.id + 1,
            forall|i: int|
                0 <= i < old(self).arena().len() && i != a.accept.id && i != b.accept.id
                    ==> final(self).arena()[i] == old(self).arena()[i],
            final(self).arena()[a.accept.id as int].transitions == add_edge(
                old(self).arena()[a.accept.id as int].transitions,
                eps_to(f.accept),
            ),
            final(self).arena()[a.accept.id as int].token == old(self).arena()[a.accept.id as int].token,
            final(self).arena()[b.accept.id as int].transitions == add_edge(
                old(self).arena()[b.accept.id as int].transitions,
                eps_to(f.accept),
            ),
            final(self).arena()[b.accept.id as int].token is None,
            final(self).arena()[f.start.id as int].transitions == add_edge(
                seq![eps_to(a.start)],
                eps_to(b.start),
            ),
            a.start != b.start ==> final(self).arena()[f.start.id as int].transitions == seq![
                eps_to(a.start),
                eps_to(b.start),
            ],
            final(self).arena()[f.start.id as int].token is None,
            final(self).arena()[f.accept.id as int].transitions == Seq::<Transition>::empty(),
            final(self).arena()[f.accept.id as int].token == old(self).arena()[b.accept.id as int].token,
            final(self).has_edge(f.start, None, a.start),
            final(self).has_edge(f.start, None, b.start),
            final(self).has_edge(a.accept, None, f.accept),
            final(self).has_edge(b.accept, None, f.accept),
            forall|from: StatePtr, symbol: Option<char>, to: StatePtr|
                old(self).has_edge(from, symbol, to) ==> #[trigger] final(self).has_edge(
                    from,
                    symbol,
                    to,
                ),
    {
        let start = StatePtr { id: self.states.len() };
        let accept = StatePtr { id: start.id + 1 };
        let a_acc = &mut self.states[a.accept.id];
        a_acc.add_transition(None, accept);
        let b_acc = &mut self.states[b.accept.id];
        let moved = b_acc.token.take();
        b_acc.add_transition(None, accept);
        let mut start_state = State::new();
        start_state.add_transition(None, a.start);
        start_state.add_transition(None, b.start);
        self.states.push(start_state);
        self.states.push(State { transitions: Vec::new(), token: moved });
        proof {
            assert(self.arena() =~~= spec_union(old(self).arena(), a, b).0);
            let st = self.arena()[start.id as int].transitions;
            assert(st[0] == eps_to(a.start));
            if a.start != b.start {
                assert(st =~= seq![eps_to(a.start), eps_to(b.start)]);
                assert(st[1] == eps_to(b.start));
            }
            let pre_a = old(self).arena()[a.accept.id as int].transitions;
            let tr_a = self.arena()[a.accept.id as int].transitions;
            if !pre_a.contains(eps_to(accept)) {
                assert(tr_a[tr_a.len() - 1] == eps_to(accept));
            }
            let pre_b = old(self).arena()[b.accept.id as int].transitions;
            let tr_b = self.arena()[b.accept.id as int].transitions;
            if !pre_b.contains(eps_to(accept)) {
                assert(tr_b[tr_b.len() - 1] == eps_to(accept));
            }
            self.lemma_edges_grow(*old(self));
        }
        Fragment { start, accept }
    }

    /// Wires `Star(a)`: a fresh start state with epsilon transitions into
    /// `a`'s start state (enter the loop) and straight to the fresh accept
    /// state (zero occurrences), epsilon transitions from `a`'s accept
    /// state back to `a`'s start state (repeat) and to the fresh accept
    /// state (exit after one or more), and the accept label moved from
    /// `a`'s accept state onto the fresh accept state.
    ///
    /// The direct epsilon transition from the fragment's start state to
    /// its accept state means the starred automaton accepts the empty
    /// input (see [`lemma_star_accepts_empty`]).
    pub fn star(&mut self, a: Fragment) -> (f: Fragment)
        requires
            old(self).frag_in(a),
            old(self).arena().len() + 2 <= usize::MAX,
        ensures
            final(self).arena() == spec_star(old(self).arena(), a).0,
            f == spec_star(old(self).arena(), a).1,
            final(self).start == old(self).start,
            final(self).accept == old(self).accept,
            final(self).arena().len() == old(self).arena().len() + 2,
            f.start.id == old(self).arena().len(),
            f.accept.id == f.start.id + 1,
            forall|i: int|
                0 <= i < old(self).arena().len() && i != a.accept.id ==> final(self).arena()[i] == old(
                    self,
                ).arena()[i],
            final(self).arena()[a.accept.id as int].transitions == add_edge(
                add_edge(old(self).arena()[a.accept.id as int].transitions, eps_to(a.start)),
                eps_to(f.accept),
            ),
            final(self).arena()[a.accept.id as int].token is None,
            final(self).arena()[f.start.id as int].transitions == seq![eps_to(a.start), eps_to(f.accept)],
            final(self).arena()[f.start.id as int].token is None,
            final(self).arena()[f.accept.id as int].transitions == Seq::<Transition>::empty(),
            final(self).arena()[f.accept.id as int].token == old(self).arena()[a.accept.id as int].token,
            final(self).has_edge(f.start, None, a.start),
            final(self).has_edge(f.start, None, f.accept),
            final(self).has_edge(a.accept, None, a.start),
            final(self).has_edge(a.accept, None, f.accept),
            forall|from: StatePtr, symbol: Option<char>, to: StatePtr|
                old(self).has_edge(from, symbol, to) ==> #[trigger] final(self).has_edge(
                    from,
                    symbol,
                    to,
                ),
    {
        let start = StatePtr { id: self.states.len() };
        let accept = StatePtr { id: start.id + 1 };
        let a_acc = &mut self.states[a.accept.id];
        let moved = a_acc.token.take();
        a_acc.add_transition(None, a.start);
        a_acc.add_transition(None, accept);
        let mut start_state = State::new();
        start_state.add_transition(None, a.start);
        start_state.add_transition(None, accept);
        self.states.push(start_state);
        self.states.push(State { transitions: Vec::new(), token: moved });
        proof {
            assert(self.arena() =~~= spec_star(old(self).arena(), a).0);
            let st = self.arena()[start.id as int].transitions;
            assert(st =~= seq![eps_to(a.start), eps_to(accept)]);
            let pre = old(self).arena()[a.accept.id as int].transitions;
            let mid = add_edge(pre, eps_to(a.start));
            let tr_a = self.arena()[a.accept.id as int].transitions;
            if !pre.contains(eps_to(a.start)) {
                assert(mid[mid.len() - 1] == eps_to(a.start));
            }
            assert(mid.contains(eps_to(a.start)));
            if !mid.contains(eps_to(accept)) {
                assert(tr_a[tr_a.len() - 1] == eps_to(accept));
            }
            if tr_a != mid {
                let j = choose|j: int| 0 <= j < mid.len() && mid[j] == eps_to(a.start);
                assert(tr_a[j] == eps_to(a.start));
            }
            assert(tr_a.contains(eps_to(a.start)));
            self.lemma_edges_grow(*old(self));
        }
        Fragment { start, accept }
    }

    /// Compiles `regex` into a fresh fragment appended to this arena,
    /// dispatching on the syntax-tree variant.  The label lands on the
    /// fragment's accept state; every other state the call creates is
    /// unlabeled.  `Empty` is excluded by precondition: it reaching the
    /// builder is an internal-consistency failure of an earlier stage,
    /// not a user-input problem.
    fn build(&mut self, regex: Regex, accept_label: Option<T>) -> (f: Fragment)
        requires
            regex_wf(regex),
            old(self).arena().len() + regex_states(regex) <= usize::MAX,
        ensures
            final(self).arena() == spec_build(old(self).arena(), regex, accept_label).0,
            f == spec_build(old(self).arena(), regex, accept_label).1,
            final(self).start == old(self).start,
            final(self).accept == old(self).accept,
            final(self).arena().len() == old(self).arena().len() + regex_states(regex),
            old(self).arena().len() <= f.start.id < final(self).arena().len(),
            old(self).arena().len() <= f.accept.id < final(self).arena().len(),
            f.start.id != f.accept.id,
            forall|i: int|
                0 <= i < old(self).arena().len() ==> final(self).arena()[i] == old(self).arena()[i],
            final(self).arena()[f.accept.id as int].token == accept_label,
            forall|i: int|
                old(self).arena().len() <= i < final(self).arena().len() && i != f.accept.id
                    ==> final(self).arena()[i].token is None,
        decreases regex,
    {
        match regex {
            Regex::Literal(c) => self.literal(c, accept_label),
            Regex::Concat(a, b) => {
                let fa = self.build(*a, None);
                let fb = self.build(*b, accept_label);
                self.concat(fa, fb)
            },
            Regex::Union(a, b) => {
                let fa = self.build(*a, None);
                let fb = self.build(*b, accept_label);
                self.union(fa, fb)
            },
            Regex::Star(a) => {
                let fa = self.build(*a, accept_label);
                self.star(fa)
            },
            Regex::Empty => unreached(),
        }
    }

    /// Compiles a whole syntax tree into an automaton of its own: the
    /// result's arena holds exactly the states of Thompson's construction
    /// for `regex`, its accept state carries `accept_label`, and no other
    /// state carries any label.
    pub fn build_nfa(regex: Regex, accept_label: Option<T>) -> (nfa: NFA<T>)
        requires
            regex_wf(regex),
            regex_states(regex) <= usize::MAX,
        ensures
            nfa.arena() == spec_build(Seq::<SpecState<T>>::empty(), regex, accept_label).0,
            (Fragment { start: nfa.start, accept: nfa.accept }) == spec_build(
                Seq::<SpecState<T>>::empty(),
                regex,
                accept_label,
            ).1,
            nfa.arena().len() == regex_states(regex),
            nfa.start.id < nfa.arena().len(),
            nfa.accept.id < nfa.arena().len(),
            nfa.start.id != nfa.accept.id,
            nfa.arena()[nfa.accept.id as int].token == accept_label,
            forall|i: int|
                0 <= i < nfa.arena().len() && i != nfa.accept.id ==> (nfa.arena()[i].token
                    is None),
    {
        let mut nfa = NFA {
            states: Vec::new(),
            start: StatePtr { id: 0 },
            accept: StatePtr { id: 0 },
        };
        proof {
            assert(nfa.arena() =~~= Seq::<SpecState<T>>::empty());
        }
        let f = nfa.build(regex, accept_label);
        nfa.start = f.start;
        nfa.accept = f.accept;
        nfa
    }

    /// Every transition of `pre` is still present in `self`, provided each
    /// state of `pre` persists in `self` with its transition list intact
    /// or extended.  The builder only ever appends transitions, so this
    /// applies after every wiring step.
    proof fn lemma_edges_grow(self, pre: NFA<T>)
        requires
            pre.arena().len() <= self.arena().len(),
            forall|i: int|
                0 <= i < pre.arena().len() ==> pre.arena()[i].transitions.is_prefix_of(
                    #[trigger] self.arena()[i].transitions,
                ),
        ensures
            forall|from: StatePtr, symbol: Option<char>, to: StatePtr|
                pre.has_edge(from, symbol, to) ==> #[trigger] self.has_edge(from, symbol, to),
    {
        assert forall|from: StatePtr, symbol: Option<char>, to: StatePtr|
            pre.has_edge(from, symbol, to) implies #[trigger] self.has_edge(from, symbol, to) by {
            let t = Transition { symbol, target: to };
            let tr = pre.arena()[from.id as int].transitions;
            let j = choose|j: int| 0 <= j < tr.len() && tr[j] == t;
            assert(self.arena()[from.id as int].transitions[j] == t);
        }
    }
}

/// The walk `p` repeated `n` times end to end (for `n >= 1`).
pub open spec fn repeat_path(p: Seq<StatePtr>, n: nat) -> Seq<StatePtr>
    decreases n,
{
    if n <= 1 {
        p
    } else {
        repeat_path(p, (n - 1) as nat) + p
    }
}

/// A starred automaton accepts the empty input: from the fragment's start
/// state, an epsilon-only path reaches its accept state without consuming
/// any symbol.  The direct epsilon transition [`NFA::star`] guarantees is
/// such a path of one step.
pub proof fn lemma_star_accepts_empty<T>(nfa: NFA<T>, f: Fragment)
    requires
        nfa.has_edge(f.start, None, f.accept),
    ensures
        nfa.is_epsilon_path(seq![f.start, f.accept]),
        seq![f.start, f.accept].first() == f.start,
        seq![f.start, f.accept].last() == f.accept,
{
    let p = seq![f.start, f.accept];
    assert forall|i: int| 0 <= i < p.len() - 1 implies #[trigger] nfa.has_edge(
        p[i],
        None,
        p[i + 1],
    ) by {
        assert(p[0] == f.start && p[1] == f.accept);
    }
}

/// Repeating a loop body stays a walk: if `p` walks the automaton from a
/// state back to one that has an epsilon transition to `p`'s first state,
/// then so does `p` repeated any `n >= 1` times.
proof fn lemma_repeat_path<T>(nfa: NFA<T>, p: Seq<StatePtr>, n: nat)
    requires
        nfa.is_path(p),
        p.len() > 0,
        nfa.has_edge(p.last(), None, p.first()),
        n >= 1,
    ensures
        nfa.is_path(repeat_path(p, n)),
        repeat_path(p, n).len() == n * p.len(),
        repeat_path(p, n).len() >= p.len(),
        repeat_path(p, n).first() == p.first(),
        repeat_path(p, n).last() == p.last(),
    decreases n,
{
    if n > 1 {
        lemma_repeat_path(nfa, p, (n - 1) as nat);
        let q = repeat_path(p, (n - 1) as nat);
        let r = q + p;
        assert forall|i: int| 0 <= i < r.len() - 1 implies #[trigger] nfa.steps_to(
            r[i],
            r[i + 1],
        ) by {
            if i < q.len() - 1 {
                assert(r[i] == q[i] && r[i + 1] == q[i + 1]);
                assert(nfa.steps_to(q[i], q[i + 1]));
            } else if i == q.len() - 1 {
                assert(r[i] == q.last() && r[i + 1] == p.first());
                assert(nfa.has_edge(q.last(), None, p.first()));
            } else {
                let j = i - q.len();
                assert(r[i] == p[j] && r[i + 1] == p[j + 1]);
                assert(nfa.steps_to(p[j], p[j + 1]));
            }
        }
        assert(n * p.len() == (n - 1) * p.len() + p.len()) by (nonlinear_arith);
    } else {
        assert(n * p.len() == p.len()) by (nonlinear_arith)
            requires
                n == 1,
        ;
    }
}

/// A starred automaton accepts arbitrarily many repetitions: for any
/// `n >= 1` and any walk `p` of the inner fragment from its start state to
/// its accept state, the walk that enters the loop, traverses `p` exactly
/// `n` times (taking the repeat transition between rounds), and exits to
/// the star fragment's accept state is a path of the automaton from
/// `f.start` to `f.accept`.
pub proof fn lemma_star_accepts_repetitions<T>(
    nfa: NFA<T>,
    a: Fragment,
    f: Fragment,
    p: Seq<StatePtr>,
    n: nat,
)
    requires
        nfa.has_edge(f.start, None, a.start),
        nfa.has_edge(a.accept, None, a.start),
        nfa.has_edge(a.accept, None, f.accept),
        nfa.is_path(p),
        p.len() > 0,
        p.first() == a.start,
        p.last() == a.accept,
        n >= 1,
    ensures
        nfa.is_path(seq![f.start] + repeat_path(p, n) + seq![f.accept]),
        (seq![f.start] + repeat_path(p, n) + seq![f.accept]).first() == f.start,
        (seq![f.start] + repeat_path(p, n) + seq![f.accept]).last() == f.accept,
        repeat_path(p, n).len() == n * p.len(),
{
    lemma_repeat_path(nfa, p, n);
    let q = repeat_path(p, n);
    let r = seq![f.start] + q + seq![f.accept];
    assert forall|i: int| 0 <= i < r.len() - 1 implies #[trigger] nfa.steps_to(r[i], r[i + 1]) by {
        if i == 0 {
            assert(r[0] == f.start && r[1] == q.first());
            assert(nfa.has_edge(f.start, None, a.start));
        } else if i < q.len() {
            let j = i - 1;
            assert(r[i] == q[j] && r[i + 1] == q[j + 1]);
            assert(nfa.steps_to(q[j], q[j + 1]));
        } else {
            assert(r[i] == q.last() && r[i + 1] == f.accept);
            assert(nfa.has_edge(a.accept, None, f.accept));
        }
    }
}

} // verus!
