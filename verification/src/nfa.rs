//! The automaton as it is stored: an arena of states that refer to each other
//! by index, built from a postfix token sequence and then only read.

use crate::automaton::{
    lemma_no_edges_no_walk, step, takes_edge, walks, Config, Edge, NfaModel, StateModel,
};
use crate::parse::{
    calc_postfix, parse_re_to_tokens, spec_postfix, spec_tokens, string_chars, Token,
};
use crate::search::{
    decoded, lemma_decoded_insert, lemma_grid_finite, lemma_search_begins,
    lemma_search_exhausted, lemma_search_found, lemma_search_settles, lemma_search_takes,
    lemma_search_visits, lemma_unvisited_shrinks, search_grid, search_inv, spec_pair_key,
};
use crate::syntax::{
    expr_of_postfix, lemma_depth_of_prefix, postfix_is_well_formed, well_formed_postfix, Expr,
};
use crate::theorems::{
    compiled_automaton_accepts_what_pattern_denotes, pattern_compiles_where_its_tokens_convert,
};
use crate::validation::escapes_keep_apart;
use crate::thompson::{
    add_edge, concat_fragment, concat_states, lemma_finish_wf, lemma_run_structured,
    nfa_of_postfix, pair_fragment, quantifier_states, single_states, union_states, Construction,
    Fragment,
};
use std::collections::{HashSet, VecDeque};
use vstd::prelude::*;

verus! {

/// What a transition asks of the input.
#[derive(Debug, Clone, Copy, PartialEq, Eq, Structural)]
pub enum TransitionLabel {
    /// Consumes the given character.
    Letter(char),
    /// Consumes any one character.
    Wildcard,
    /// Consumes nothing.
    Epsilon,
}

/// An outgoing transition of a state.
#[derive(Debug, Clone, Copy)]
pub struct Transition {
    pub label: TransitionLabel,
    pub to: usize,
}

impl View for Transition {
    type V = Edge;

    open spec fn view(&self) -> Edge {
        Edge { label: self.label, to: self.to as int }
    }
}

/// One node of the automaton. The construction never gives a state more than
/// two transitions.
#[derive(Debug)]
pub struct State {
    transitions: Vec<Transition>,
    accepting: bool,
}

impl View for State {
    type V = StateModel;

    closed spec fn view(&self) -> StateModel {
        StateModel {
            edges: self.transitions@.map_values(|t: Transition| t@),
            accepting: self.accepting,
        }
    }
}

impl State {
    /// A state without transitions that does not accept.
    pub fn new() -> (s: State)
        ensures
            s@ == StateModel::blank(),
    {
        let s = State { transitions: Vec::new(), accepting: false };
        s
    }

    /// The same state with one more transition.
    pub fn with_transition(self, transition: Transition) -> (s: State)
        requires
            self@.edges.len() < 2,
        ensures
            s@ == (StateModel { edges: self@.edges.push(transition@), accepting: self@.accepting }),
    {
        let mut s = self;
        s.transitions.push(transition);
        s
    }

    /// The same state with its accepting flag set as given.
    pub fn with_accepting(self, accepting: bool) -> (s: State)
        ensures
            s@ == (StateModel { edges: self@.edges, accepting }),
    {
        let mut s = self;
        s.accepting = accepting;
        s
    }

    /// Appends a transition.
    pub fn add_transition(&mut self, transition: Transition)
        requires
            old(self)@.edges.len() < 2,
        ensures
            final(self)@ == (StateModel {
                edges: old(self)@.edges.push(transition@),
                accepting: old(self)@.accepting,
            }),
    {
        self.transitions.push(transition);
    }

    /// Sets the accepting flag.
    pub fn set_accepting(&mut self, accepting: bool)
        ensures
            final(self)@ == (StateModel { edges: old(self)@.edges, accepting }),
    {
        self.accepting = accepting;
    }

    /// Whether a run may end in this state.
    pub fn is_accepting(&self) -> (b: bool)
        ensures
            b == self@.accepting,
    {
        self.accepting
    }

    /// The outgoing transitions, in the order in which they were added.
    pub fn transitions(&self) -> (ts: &Vec<Transition>)
        ensures
            ts@.len() == self@.edges.len(),
            forall|k: int| 0 <= k < ts@.len() ==> (#[trigger] ts@[k])@ == self@.edges[k],
    {
        &self.transitions
    }
}

/// The states of an arena as the model sees them.
pub open spec fn arena_model(states: Seq<State>) -> Seq<StateModel> {
    states.map_values(|s: State| s@)
}

fn add_transition_at(states: &mut Vec<State>, i: usize, transition: Transition)
    requires
        i < old(states).len(),
        arena_model(old(states)@)[i as int].edges.len() < 2,
    ensures
        final(states)@.len() == old(states)@.len(),
        arena_model(final(states)@) == add_edge(arena_model(old(states)@), i as int, transition@),
{
    states[i].add_transition(transition);
}

/// A partly built automaton inside the arena, by the indices of the state
/// where a run enters it and of the state where a run leaves it.
#[derive(Debug, Clone, Copy)]
pub struct NfaFragment {
    pub start_id: usize,
    pub out_id: usize,
}

impl View for NfaFragment {
    type V = Fragment;

    open spec fn view(&self) -> Fragment {
        Fragment { start: self.start_id as int, out: self.out_id as int }
    }
}

/// The fragments of a stack as the model sees them.
pub open spec fn fragments_model(fragments: Seq<NfaFragment>) -> Seq<Fragment> {
    fragments.map_values(|f: NfaFragment| f@)
}

/// The automaton that a pattern compiles to, or `None` where the pattern is
/// not one well-formed expression: its tokens do not convert to postfix
/// order, or an operator of the postfix sequence does not find its operands.
/// The second can only happen where an escaped bar or open parenthesis
/// leaves two operands side by side, as in `a||\|b`: there the count of
/// the conversion comes out right although the first bar has one operand.
pub open spec fn spec_compile(pattern: Seq<char>) -> Option<NfaModel> {
    match spec_postfix(spec_tokens(pattern)) {
        Ok(postfix) => if well_formed_postfix(postfix) {
            Some(nfa_of_postfix(postfix))
        } else {
            None
        },
        Err(_) => None,
    }
}

/// The expression that a pattern describes, where the pattern compiles: the
/// expression of its postfix form.
pub open spec fn pattern_expr(pattern: Seq<char>) -> Expr {
    expr_of_postfix(spec_postfix(spec_tokens(pattern))->Ok_0)
}

/// A nondeterministic finite automaton. Once built it is only read.
pub struct NFA {
    start_id: usize,
    states: Vec<State>,
}

impl View for NFA {
    type V = NfaModel;

    closed spec fn view(&self) -> NfaModel {
        NfaModel { start: self.start_id as int, states: arena_model(self.states@) }
    }
}

impl NFA {
    /// Every automaton that exists is well formed.
    #[verifier::type_invariant]
    spec fn well_formed(self) -> bool {
        self@.wf()
    }

    /// Compiles a pattern. The result is `None` where the pattern is not one
    /// well-formed expression; else it is an automaton that accepts exactly
    /// the inputs that the expression of the pattern denotes.
    pub fn from_regex(re: &String) -> (r: Option<NFA>)
        ensures
            match r {
                Some(nfa) => {
                    &&& spec_compile(re@) == Some(nfa@)
                    &&& nfa@.wf()
                    &&& nfa@.has_one_accepting_state()
                    &&& forall|input: Seq<char>|
                        #![trigger nfa@.accepts(input)]
                        nfa@.accepts(input) <==> pattern_expr(re@).denotes(input)
                },
                None => spec_compile(re@) is None,
            },
            escapes_keep_apart(re@) ==> (r is Some <==> spec_postfix(spec_tokens(re@)) is Ok),
    {
        proof {
            if escapes_keep_apart(re@) {
                pattern_compiles_where_its_tokens_convert(re@);
            }
        }
        let tokens = parse_re_to_tokens(re);
        match calc_postfix(tokens) {
            None => None,
            Some(postfix) => {
                if postfix_is_well_formed(&postfix) {
                    let nfa = NFA::from_postfix(&postfix);
                    proof {
                        assert forall|input: Seq<char>|
                            #![trigger nfa@.accepts(input)]
                            nfa@.accepts(input) <==> pattern_expr(re@).denotes(input) by {
                            compiled_automaton_accepts_what_pattern_denotes(re@, input);
                        }
                    }
                    Some(nfa)
                } else {
                    None
                }
            },
        }
    }

    /// The automaton of the empty language: its accepting state cannot be
    /// reached, so it accepts no input.
    pub fn empty_language() -> (nfa: NFA)
        ensures
            nfa@ == (NfaModel {
                start: 0,
                states: seq![
                    StateModel::blank(),
                    StateModel { edges: Seq::empty(), accepting: true },
                ],
            }),
            nfa@.wf(),
            forall|input: Seq<char>| !nfa@.accepts(input),
    {
        let mut states: Vec<State> = Vec::with_capacity(2);
        let start_id = states.len();
        let start = State::new();
        let mut out = State::new();
        out.set_accepting(true);
        states.push(start);
        states.push(out);
        let ghost model = NfaModel {
            start: 0,
            states: seq![StateModel::blank(), StateModel { edges: Seq::empty(), accepting: true }],
        };
        assert forall|input: Seq<char>| !model.accepts(input) by {
            if model.accepts(input) {
                let q = choose|q: int| model.accepts_in(input, q);
                let last: Config = (input.len() as int, q);
                let n = choose|n: nat| walks(model.states, input, (0, 0), last, n);
                lemma_no_edges_no_walk(model.states, input, (0, 0), last, n);
            }
        }
        NFA { start_id, states }
    }

    /// Index of the state in which a run starts.
    pub fn start_id(&self) -> (id: usize)
        ensures
            id == self@.start,
    {
        self.start_id
    }

    /// The states, each at its index.
    pub fn states(&self) -> (states: &Vec<State>)
        ensures
            arena_model(states@) == self@.states,
    {
        &self.states
    }

    /// Builds the automaton of a well-formed postfix sequence by Thompson
    /// construction.
    pub fn from_postfix(postfix: &Vec<Token>) -> (nfa: NFA)
        requires
            well_formed_postfix(postfix@),
        ensures
            nfa@ == nfa_of_postfix(postfix@),
            nfa@.wf(),
            nfa@.has_one_accepting_state(),
    {
        let mut states: Vec<State> = Vec::new();
        let mut fragments: Vec<NfaFragment> = Vec::new();

        let mut i: usize = 0;
        while i < postfix.len()
            invariant
                i <= postfix.len(),
                well_formed_postfix(postfix@),
                (Construction {
                    states: arena_model(states@),
                    fragments: fragments_model(fragments@),
                }) == Construction::run(postfix@, i as int),
            decreases postfix.len() - i,
        {
            let ghost before = Construction::run(postfix@, i as int);
            proof {
                lemma_depth_of_prefix(postfix@, i as int, postfix@.len() as int);
                lemma_depth_of_prefix(postfix@, i + 1, postfix@.len() as int);
                lemma_run_structured(postfix@, i as int);
                let n = before.fragments.len() as int;
                if n >= 1 {
                    assert(before.fits(n - 1));
                }
                if n >= 2 {
                    assert(before.fits(n - 2));
                }
            }
            let token = postfix[i];
            match token {
                Token::Letter(c) => {
                    let fragment = NFA::add_single_transition_fragment(
                        &mut states,
                        TransitionLabel::Letter(c),
                    );
                    fragments.push(fragment);
                },
                Token::Wildcard => {
                    let fragment = NFA::add_single_transition_fragment(
                        &mut states,
                        TransitionLabel::Wildcard,
                    );
                    fragments.push(fragment);
                },
                Token::Concatenation => {
                    let end_fragment = fragments.pop().unwrap();
                    let start_fragment = fragments.pop().unwrap();
                    let fragment = NFA::add_concat_fragment(
                        &mut states,
                        start_fragment,
                        end_fragment,
                    );
                    fragments.push(fragment);
                },
                Token::Union => {
                    let frag_a = fragments.pop().unwrap();
                    let frag_b = fragments.pop().unwrap();
                    let fragment = NFA::add_union_fragment(&mut states, frag_a, frag_b);
                    fragments.push(fragment);
                },
                Token::KleeneQuantifier => {
                    let frag = fragments.pop().unwrap();
                    let fragment = NFA::add_quantifier_fragment(&mut states, frag, true, true);
                    fragments.push(fragment);
                },
                Token::PositiveQuantifier => {
                    let frag = fragments.pop().unwrap();
                    let fragment = NFA::add_quantifier_fragment(&mut states, frag, true, false);
                    fragments.push(fragment);
                },
                Token::OptionalQuantifier => {
                    let frag = fragments.pop().unwrap();
                    let fragment = NFA::add_quantifier_fragment(&mut states, frag, false, true);
                    fragments.push(fragment);
                },
                Token::OpenParenthesis | Token::CloseParenthesis => {
                    // a well-formed postfix sequence holds no parenthesis
                    assert(false);
                },
            }
            i += 1;
        }

        proof {
            lemma_run_structured(postfix@, postfix@.len() as int);
            let built = Construction::run(postfix@, postfix@.len() as int);
            lemma_finish_wf(built);
        }
        let start_id = fragments[0].start_id;
        let out_id = fragments[0].out_id;
        states[out_id].set_accepting(true);
        assert(arena_model(states@) =~= nfa_of_postfix(postfix@).states);
        NFA { start_id, states }
    }

    /// Appends a fragment for one character or for the wildcard.
    pub fn add_single_transition_fragment(
        states: &mut Vec<State>,
        label: TransitionLabel,
    ) -> (fragment: NfaFragment)
        ensures
            arena_model(final(states)@) == single_states(arena_model(old(states)@), label),
            fragment@ == pair_fragment(arena_model(old(states)@)),
    {
        let start_id = states.len();
        states.push(State::new());
        let out_id = states.len();
        states.push(State::new());
        add_transition_at(states, start_id, Transition { label, to: out_id });
        NfaFragment { start_id, out_id }
    }

    /// Joins two fragments in a row: a run that leaves the first enters the
    /// second.
    pub fn add_concat_fragment(
        states: &mut Vec<State>,
        start_fragment: NfaFragment,
        end_fragment: NfaFragment,
    ) -> (fragment: NfaFragment)
        requires
            start_fragment.out_id < old(states).len(),
            arena_model(old(states)@)[start_fragment.out_id as int].edges.len() < 2,
        ensures
            arena_model(final(states)@) == concat_states(
                arena_model(old(states)@),
                start_fragment@,
                end_fragment@,
            ),
            fragment@ == concat_fragment(start_fragment@, end_fragment@),
    {
        let transition = Transition { label: TransitionLabel::Epsilon, to: end_fragment.start_id };
        add_transition_at(states, start_fragment.out_id, transition);
        NfaFragment { start_id: start_fragment.start_id, out_id: end_fragment.out_id }
    }

    /// Joins two fragments as a choice: a run enters either of them from a
    /// new start state and leaves through a new out state.
    pub fn add_union_fragment(
        states: &mut Vec<State>,
        frag_a: NfaFragment,
        frag_b: NfaFragment,
    ) -> (fragment: NfaFragment)
        requires
            frag_a.out_id < old(states).len(),
            frag_b.out_id < old(states).len(),
            frag_a.out_id != frag_b.out_id,
            arena_model(old(states)@)[frag_a.out_id as int].edges.len() < 2,
            arena_model(old(states)@)[frag_b.out_id as int].edges.len() < 2,
        ensures
            arena_model(final(states)@) == union_states(
                arena_model(old(states)@),
                frag_a@,
                frag_b@,
            ),
            fragment@ == pair_fragment(arena_model(old(states)@)),
    {
        let start_id = states.len();
        states.push(State::new());
        let out_id = states.len();
        states.push(State::new());
        add_transition_at(
            states,
            start_id,
            Transition { label: TransitionLabel::Epsilon, to: frag_a.start_id },
        );
        add_transition_at(
            states,
            start_id,
            Transition { label: TransitionLabel::Epsilon, to: frag_b.start_id },
        );
        add_transition_at(
            states,
            frag_a.out_id,
            Transition { label: TransitionLabel::Epsilon, to: out_id },
        );
        add_transition_at(
            states,
            frag_b.out_id,
            Transition { label: TransitionLabel::Epsilon, to: out_id },
        );
        assert(arena_model(states@) =~~= union_states(
            arena_model(old(states)@),
            frag_a@,
            frag_b@,
        ));
        NfaFragment { start_id, out_id }
    }

    /// Puts a quantifier around a fragment. With `optional` a run may pass
    /// by the fragment; with `repeat` it may go through it again.
    pub fn add_quantifier_fragment(
        states: &mut Vec<State>,
        frag: NfaFragment,
        repeat: bool,
        optional: bool,
    ) -> (fragment: NfaFragment)
        requires
            frag.out_id < old(states).len(),
            arena_model(old(states)@)[frag.out_id as int].edges.len() == 0,
        ensures
            arena_model(final(states)@) == quantifier_states(
                arena_model(old(states)@),
                frag@,
                repeat,
                optional,
            ),
            fragment@ == pair_fragment(arena_model(old(states)@)),
    {
        let start_id = states.len();
        states.push(State::new());
        let out_id = states.len();
        states.push(State::new());
        add_transition_at(
            states,
            start_id,
            Transition { label: TransitionLabel::Epsilon, to: frag.start_id },
        );
        add_transition_at(
            states,
            frag.out_id,
            Transition { label: TransitionLabel::Epsilon, to: out_id },
        );
        if optional {
            add_transition_at(
                states,
                start_id,
                Transition { label: TransitionLabel::Epsilon, to: out_id },
            );
        }
        if repeat {
            add_transition_at(
                states,
                frag.out_id,
                Transition { label: TransitionLabel::Epsilon, to: frag.start_id },
            );
        }
        assert(arena_model(states@) =~~= quantifier_states(
            arena_model(old(states)@),
            frag@,
            repeat,
            optional,
        ));
        NfaFragment { start_id, out_id }
    }
}

/// The worklist as the model sees it.
pub open spec fn pending_model(queue: Seq<(usize, usize)>) -> Seq<Config> {
    queue.map_values(|p: (usize, usize)| (p.0 as int, p.1 as int))
}

/// The key of a pair of a position and a state in the set of visited pairs.
fn pair_key(position: usize, state: usize) -> (key: u128)
    ensures
        key == spec_pair_key(position as int, state as int),
{
    (position as u128) * 0x1_0000_0000_0000_0000u128 + (state as u128)
}

impl NFA {
    /// Whether the automaton accepts `input`. The search goes through the
    /// pairs of an input position and a state that a run can reach, each one
    /// once, and stops at the first pair that ends the input in an accepting
    /// state.
    pub fn is_match(&self, input: &String) -> (r: bool)
        ensures
            r == self@.accepts(input@),
    {
        broadcast use vstd::std_specs::hash::group_hash_axioms;

        proof {
            use_type_invariant(self);
        }
        let chars = string_chars(input);
        let ghost positions = chars@.len() as int + 1;
        let ghost count = self.states@.len() as int;
        assert(chars.len() <= usize::MAX && self.states.len() <= usize::MAX);
        let ghost all = search_grid(self@, input@);

        let mut visited: HashSet<u128> = HashSet::new();
        let mut queue: VecDeque<(usize, usize)> = VecDeque::new();
        visited.insert(pair_key(0, self.start_id));
        queue.push_back((0, self.start_id));
        proof {
            lemma_grid_finite(positions, count);
            lemma_search_begins(self@, input@);
            lemma_decoded_insert(Set::empty(), positions, count, (0, self.start_id as int));
            assert(pending_model(queue@) =~= seq![(0int, self.start_id as int)]);
        }
        loop
            invariant
                self@.wf(),
                chars@ == input@,
                positions == chars@.len() + 1 <= 0x1_0000_0000_0000_0000,
                count == self.states@.len() <= 0x1_0000_0000_0000_0000,
                all == search_grid(self@, input@),
                all.finite(),
                search_inv(
                    self@,
                    input@,
                    decoded(visited@, positions, count),
                    pending_model(queue@),
                    None,
                ),
            decreases all.difference(decoded(visited@, positions, count)).len() + queue@.len(),
        {
            let ghost measure = all.difference(decoded(visited@, positions, count)).len()
                + queue@.len();
            let ghost taken = pending_model(queue@);
            let (idx, state_id) = match queue.pop_front() {
                Some(pair) => pair,
                None => {
                    proof {
                        lemma_search_exhausted(
                            self@,
                            input@,
                            decoded(visited@, positions, count),
                        );
                    }
                    return false;
                },
            };
            let ghost current: Config = (idx as int, state_id as int);
            proof {
                lemma_search_takes(self@, input@, decoded(visited@, positions, count), taken);
                assert(pending_model(queue@) =~= taken.drop_first());
            }
            if idx >= chars.len() && self.states[state_id].is_accepting() {
                proof {
                    lemma_search_found(
                        self@,
                        input@,
                        decoded(visited@, positions, count),
                        pending_model(queue@),
                        current,
                    );
                }
                return true;
            }
            let transitions = self.states[state_id].transitions();
            let mut k: usize = 0;
            while k < transitions.len()
                invariant
                    self@.wf(),
                    chars@ == input@,
                    positions == chars@.len() + 1 <= 0x1_0000_0000_0000_0000,
                    count == self.states@.len() <= 0x1_0000_0000_0000_0000,
                    all == search_grid(self@, input@),
                    all.finite(),
                    current == (idx as int, state_id as int),
                    all.contains(current),
                    k <= transitions@.len(),
                    transitions@.len() == self@.states[state_id as int].edges.len(),
                    forall|e: int|
                        0 <= e < transitions@.len() ==> (#[trigger] transitions@[e])@
                            == self@.states[state_id as int].edges[e],
                    search_inv(
                        self@,
                        input@,
                        decoded(visited@, positions, count),
                        pending_model(queue@),
                        Some(current),
                    ),
                    forall|e: int, q: Config|
                        0 <= e < k && #[trigger] takes_edge(self@.states, input@, current, q, e)
                            ==> decoded(visited@, positions, count).contains(q),
                    all.difference(decoded(visited@, positions, count)).len() + queue@.len()
                        == measure - 1,
                decreases transitions@.len() - k,
            {
                let transition = transitions[k];
                let next: Option<(usize, usize)> = match transition.label {
                    TransitionLabel::Epsilon => Some((idx, transition.to)),
                    TransitionLabel::Wildcard => if idx < chars.len() {
                        Some((idx + 1, transition.to))
                    } else {
                        None
                    },
                    TransitionLabel::Letter(c) => if idx < chars.len() && chars[idx] == c {
                        Some((idx + 1, transition.to))
                    } else {
                        None
                    },
                };
                assert(match next {
                    Some(pair) => takes_edge(
                        self@.states,
                        input@,
                        current,
                        (pair.0 as int, pair.1 as int),
                        k as int,
                    ),
                    None => forall|q: Config|
                        !takes_edge(self@.states, input@, current, q, k as int),
                });
                match next {
                    Some(pair) => {
                        let ghost q: Config = (pair.0 as int, pair.1 as int);
                        let ghost keys = visited@;
                        let ghost seen = decoded(keys, positions, count);
                        let ghost pending = pending_model(queue@);
                        let fresh = visited.insert(pair_key(pair.0, pair.1));
                        proof {
                            lemma_decoded_insert(keys, positions, count, q);
                        }
                        if fresh {
                            queue.push_back(pair);
                            proof {
                                lemma_search_visits(self@, input@, seen, pending, current, q);
                                assert(pending_model(queue@) =~= pending.push(q));
                                lemma_unvisited_shrinks(all, seen, q);
                            }
                        } else {
                            assert(seen.insert(q) =~= seen);
                        }
                    },
                    None => {},
                }
                k += 1;
            }
            proof {
                let seen = decoded(visited@, positions, count);
                assert forall|q: Config| #[trigger]
                    step(self@.states, input@, current, q) implies seen.contains(q) by {
                    let e = choose|e: int| takes_edge(self@.states, input@, current, q, e);
                    assert(takes_edge(self@.states, input@, current, q, e));
                }
                lemma_search_settles(self@, input@, seen, pending_model(queue@), current);
            }
        }
    }
}

} // verus!
