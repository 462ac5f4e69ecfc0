//! The mathematical model of an automaton: states with labelled edges in a
//! sequence, and what it means for the automaton to accept an input.

use crate::nfa::TransitionLabel;
use vstd::prelude::*;

verus! {

/// One outgoing transition of a state.
#[verifier::ext_equal]
pub struct Edge {
    pub label: TransitionLabel,
    /// Index of the state that the edge leads to.
    pub to: int,
}

/// One state of an automaton.
#[verifier::ext_equal]
pub struct StateModel {
    pub edges: Seq<Edge>,
    pub accepting: bool,
}

/// An automaton: its states, which refer to each other by index, and the
/// index of the state in which a run starts.
#[verifier::ext_equal]
pub struct NfaModel {
    pub start: int,
    pub states: Seq<StateModel>,
}

/// A point of a run: how many characters of the input are consumed (`.0`),
/// and the state that the automaton is in (`.1`).
pub type Config = (int, int);

impl Edge {
    /// An edge to `to` that consumes nothing.
    pub open spec fn epsilon(to: int) -> Edge {
        Edge { label: TransitionLabel::Epsilon, to }
    }

    /// Whether the edge can be taken with `i` characters of `input` consumed,
    /// leaving `j` consumed: an epsilon edge consumes nothing, a wildcard
    /// edge any one character, a letter edge that letter.
    pub open spec fn moves(self, input: Seq<char>, i: int, j: int) -> bool {
        match self.label {
            TransitionLabel::Epsilon => j == i,
            TransitionLabel::Wildcard => 0 <= i < input.len() && j == i + 1,
            TransitionLabel::Letter(c) => 0 <= i < input.len() && input[i] == c && j == i + 1,
        }
    }
}

impl StateModel {
    /// A state without edges that does not accept.
    pub open spec fn blank() -> StateModel {
        StateModel { edges: Seq::empty(), accepting: false }
    }
}

/// The `k`-th edge of the state of `a` leads from `a` to `b`.
pub open spec fn takes_edge(
    states: Seq<StateModel>,
    input: Seq<char>,
    a: Config,
    b: Config,
    k: int,
) -> bool {
    &&& 0 <= a.1 < states.len()
    &&& 0 <= k < states[a.1].edges.len()
    &&& states[a.1].edges[k].to == b.1
    &&& states[a.1].edges[k].moves(input, a.0, b.0)
}

/// One transition leads from `a` to `b`.
pub open spec fn step(states: Seq<StateModel>, input: Seq<char>, a: Config, b: Config) -> bool {
    exists|k: int| takes_edge(states, input, a, b, k)
}

/// A run of exactly `n` transitions leads from `a` to `b`.
pub open spec fn walks(
    states: Seq<StateModel>,
    input: Seq<char>,
    a: Config,
    b: Config,
    n: nat,
) -> bool
    decreases n,
{
    if n == 0 {
        a == b
    } else {
        exists|m: Config| #[trigger]
            step(states, input, a, m) && walks(states, input, m, b, (n - 1) as nat)
    }
}

/// Some run leads from `a` to `b`.
pub open spec fn reaches(states: Seq<StateModel>, input: Seq<char>, a: Config, b: Config) -> bool {
    exists|n: nat| walks(states, input, a, b, n)
}

impl NfaModel {
    /// The start state and every edge's target are states of the automaton,
    /// and no state has more than two edges.
    pub open spec fn wf(self) -> bool {
        &&& 0 <= self.start < self.states.len()
        &&& forall|s: int, k: int|
            0 <= s < self.states.len() && 0 <= k < self.states[s].edges.len() ==> 0 <= (
            #[trigger] self.states[s].edges[k]).to < self.states.len()
        &&& forall|s: int|
            0 <= s < self.states.len() ==> (#[trigger] self.states[s]).edges.len() <= 2
    }

    /// `q` is an accepting state, and the only one.
    pub open spec fn accepts_only_in(self, q: int) -> bool {
        &&& 0 <= q < self.states.len()
        &&& forall|s: int|
            0 <= s < self.states.len() ==> ((#[trigger] self.states[s]).accepting <==> s == q)
    }

    /// Exactly one state accepts.
    pub open spec fn has_one_accepting_state(self) -> bool {
        exists|q: int| self.accepts_only_in(q)
    }

    /// `q` is an accepting state that a run from the start state reaches with
    /// the whole input consumed.
    pub open spec fn accepts_in(self, input: Seq<char>, q: int) -> bool {
        &&& 0 <= q < self.states.len()
        &&& self.states[q].accepting
        &&& reaches(self.states, input, (0, self.start), (input.len() as int, q))
    }

    /// The automaton accepts `input`: some run from the start state ends in
    /// an accepting state with the whole input consumed.
    pub open spec fn accepts(self, input: Seq<char>) -> bool {
        exists|q: int| self.accepts_in(input, q)
    }
}

/// Two runs, one after the other, are a run.
pub proof fn lemma_walks_join(
    states: Seq<StateModel>,
    input: Seq<char>,
    a: Config,
    b: Config,
    c: Config,
    n: nat,
    m: nat,
)
    requires
        walks(states, input, a, b, n),
        walks(states, input, b, c, m),
    ensures
        walks(states, input, a, c, n + m),
    decreases n,
{
    if n > 0 {
        let mid = choose|mid: Config| #[trigger]
            step(states, input, a, mid) && walks(states, input, mid, b, (n - 1) as nat);
        lemma_walks_join(states, input, mid, b, c, (n - 1) as nat, m);
    }
}

/// Reachability is transitive.
pub proof fn lemma_reaches_join(
    states: Seq<StateModel>,
    input: Seq<char>,
    a: Config,
    b: Config,
    c: Config,
)
    requires
        reaches(states, input, a, b),
        reaches(states, input, b, c),
    ensures
        reaches(states, input, a, c),
{
    let n = choose|n: nat| walks(states, input, a, b, n);
    let m = choose|m: nat| walks(states, input, b, c, m);
    lemma_walks_join(states, input, a, b, c, n, m);
}

/// Every configuration reaches itself.
pub proof fn lemma_reaches_self(states: Seq<StateModel>, input: Seq<char>, a: Config)
    ensures
        reaches(states, input, a, a),
{
    assert(walks(states, input, a, a, 0));
}

/// One transition is a run.
pub proof fn lemma_step_reaches(states: Seq<StateModel>, input: Seq<char>, a: Config, b: Config)
    requires
        step(states, input, a, b),
    ensures
        reaches(states, input, a, b),
{
    assert(step(states, input, a, b) && walks(states, input, b, b, 0));
    assert(walks(states, input, a, b, 1));
}

/// A transition in front of a run is a run.
pub proof fn lemma_step_then_reaches(
    states: Seq<StateModel>,
    input: Seq<char>,
    a: Config,
    b: Config,
    c: Config,
)
    requires
        step(states, input, a, b),
        reaches(states, input, b, c),
    ensures
        reaches(states, input, a, c),
{
    lemma_step_reaches(states, input, a, b);
    lemma_reaches_join(states, input, a, b, c);
}

/// A transition after a run is a run.
pub proof fn lemma_reaches_then_step(
    states: Seq<StateModel>,
    input: Seq<char>,
    a: Config,
    b: Config,
    c: Config,
)
    requires
        reaches(states, input, a, b),
        step(states, input, b, c),
    ensures
        reaches(states, input, a, c),
{
    lemma_step_reaches(states, input, b, c);
    lemma_reaches_join(states, input, a, b, c);
}

/// A set of configurations that no transition leaves holds everything that
/// is reachable from its members.
pub proof fn lemma_closed_set_holds_reachable(
    states: Seq<StateModel>,
    input: Seq<char>,
    closed: Set<Config>,
    a: Config,
    b: Config,
    n: nat,
)
    requires
        closed.contains(a),
        forall|p: Config, q: Config|
            closed.contains(p) && #[trigger] step(states, input, p, q) ==> closed.contains(q),
        walks(states, input, a, b, n),
    ensures
        closed.contains(b),
    decreases n,
{
    if n > 0 {
        let mid = choose|mid: Config| #[trigger]
            step(states, input, a, mid) && walks(states, input, mid, b, (n - 1) as nat);
        lemma_closed_set_holds_reachable(states, input, closed, mid, b, (n - 1) as nat);
    }
}

/// No run leaves a state without edges.
pub proof fn lemma_no_edges_no_walk(
    states: Seq<StateModel>,
    input: Seq<char>,
    a: Config,
    b: Config,
    n: nat,
)
    requires
        walks(states, input, a, b, n),
        0 <= a.1 < states.len() ==> states[a.1].edges.len() == 0,
    ensures
        n == 0,
        a == b,
{
    if n > 0 {
        let mid = choose|mid: Config| #[trigger]
            step(states, input, a, mid) && walks(states, input, mid, b, (n - 1) as nat);
        let k = choose|k: int| takes_edge(states, input, a, mid, k);
        assert(takes_edge(states, input, a, mid, k));
    }
}

/// A run never gives back what it has consumed.
pub proof fn lemma_walks_forward(
    states: Seq<StateModel>,
    input: Seq<char>,
    a: Config,
    b: Config,
    n: nat,
)
    requires
        walks(states, input, a, b, n),
    ensures
        a.0 <= b.0,
    decreases n,
{
    if n > 0 {
        let mid = choose|mid: Config| #[trigger]
            step(states, input, a, mid) && walks(states, input, mid, b, (n - 1) as nat);
        let k = choose|k: int| takes_edge(states, input, a, mid, k);
        assert(takes_edge(states, input, a, mid, k));
        lemma_walks_forward(states, input, mid, b, (n - 1) as nat);
    }
}

} // verus!
