//! Thompson construction on the model: how each token of a postfix sequence
//! extends the arena of states, and what the finished automaton is.

use crate::automaton::{Edge, NfaModel, StateModel};
use crate::nfa::TransitionLabel;
use crate::parse::Token;
use crate::syntax::{arity, postfix_depth};
use vstd::prelude::*;

verus! {

/// A partly built automaton inside the arena: a run enters it at `start` and
/// leaves it at `out`, which has no edges yet.
#[verifier::ext_equal]
pub struct Fragment {
    pub start: int,
    pub out: int,
}

/// The arena with one more edge at the state `s`.
pub open spec fn add_edge(states: Seq<StateModel>, s: int, edge: Edge) -> Seq<StateModel> {
    states.update(
        s,
        StateModel { edges: states[s].edges.push(edge), accepting: states[s].accepting },
    )
}

/// The arena with two new states: one with the given edges, then a blank one.
pub open spec fn add_pair(states: Seq<StateModel>, start_edges: Seq<Edge>) -> Seq<StateModel> {
    states.push(StateModel { edges: start_edges, accepting: false }).push(StateModel::blank())
}

/// The fragment of the two states that `add_pair` appends.
pub open spec fn pair_fragment(states: Seq<StateModel>) -> Fragment {
    Fragment { start: states.len() as int, out: states.len() as int + 1 }
}

/// The arena with a fragment for one character or for the wildcard: a start
/// state with one edge of that label to a blank out state.
pub open spec fn single_states(states: Seq<StateModel>, label: TransitionLabel) -> Seq<StateModel> {
    add_pair(states, seq![Edge { label, to: states.len() as int + 1 }])
}

/// The arena with `first` and `second` joined in a row: the out state of
/// `first` gets an epsilon edge to the start of `second`.
pub open spec fn concat_states(
    states: Seq<StateModel>,
    first: Fragment,
    second: Fragment,
) -> Seq<StateModel> {
    add_edge(states, first.out, Edge::epsilon(second.start))
}

/// The fragment of two fragments joined in a row.
pub open spec fn concat_fragment(first: Fragment, second: Fragment) -> Fragment {
    Fragment { start: first.start, out: second.out }
}

/// The arena with a choice between `a` and `b`: a new start state with an
/// epsilon edge to either start, and a new out state to which either out
/// state gets an epsilon edge.
pub open spec fn union_states(states: Seq<StateModel>, a: Fragment, b: Fragment) -> Seq<
    StateModel,
> {
    let out = states.len() as int + 1;
    add_pair(
        add_edge(add_edge(states, a.out, Edge::epsilon(out)), b.out, Edge::epsilon(out)),
        seq![Edge::epsilon(a.start), Edge::epsilon(b.start)],
    )
}

/// The arena with a quantifier around `inner`: a new start state with an
/// epsilon edge to the start of `inner`, and a new out state to which the
/// out state of `inner` gets an epsilon edge. With `optional` the new start
/// also leads straight to the new out; with `repeat` the out state of
/// `inner` also leads back to its start.
pub open spec fn quantifier_states(
    states: Seq<StateModel>,
    inner: Fragment,
    repeat: bool,
    optional: bool,
) -> Seq<StateModel> {
    let out = states.len() as int + 1;
    let linked = add_edge(states, inner.out, Edge::epsilon(out));
    let looped = if repeat {
        add_edge(linked, inner.out, Edge::epsilon(inner.start))
    } else {
        linked
    };
    let start_edges = if optional {
        seq![Edge::epsilon(inner.start), Edge::epsilon(out)]
    } else {
        seq![Edge::epsilon(inner.start)]
    };
    add_pair(looped, start_edges)
}

/// The state of the construction between two tokens: the arena, and the
/// stack of fragments that wait for their operator.
#[verifier::ext_equal]
pub struct Construction {
    pub states: Seq<StateModel>,
    pub fragments: Seq<Fragment>,
}

impl Construction {
    /// The state before the first token: no state, no fragment.
    pub open spec fn initial() -> Construction {
        Construction { states: Seq::empty(), fragments: Seq::empty() }
    }

    /// Puts a fragment for one character or for the wildcard on the stack.
    pub open spec fn push_single(self, label: TransitionLabel) -> Construction {
        Construction {
            states: single_states(self.states, label),
            fragments: self.fragments.push(pair_fragment(self.states)),
        }
    }

    /// Joins the two fragments on top in a row, the lower one first.
    pub open spec fn join_concat(self) -> Construction {
        let n = self.fragments.len() as int;
        let first = self.fragments[n - 2];
        let second = self.fragments[n - 1];
        Construction {
            states: concat_states(self.states, first, second),
            fragments: self.fragments.take(n - 2).push(concat_fragment(first, second)),
        }
    }

    /// Joins the two fragments on top as a choice.
    pub open spec fn join_union(self) -> Construction {
        let n = self.fragments.len() as int;
        Construction {
            states: union_states(self.states, self.fragments[n - 1], self.fragments[n - 2]),
            fragments: self.fragments.take(n - 2).push(pair_fragment(self.states)),
        }
    }

    /// Puts a quantifier around the fragment on top.
    pub open spec fn wrap(self, repeat: bool, optional: bool) -> Construction {
        let n = self.fragments.len() as int;
        Construction {
            states: quantifier_states(self.states, self.fragments[n - 1], repeat, optional),
            fragments: self.fragments.take(n - 1).push(pair_fragment(self.states)),
        }
    }

    /// The construction after one more token of the postfix sequence.
    pub open spec fn step(self, token: Token) -> Construction {
        match token {
            Token::Letter(c) => self.push_single(TransitionLabel::Letter(c)),
            Token::Wildcard => self.push_single(TransitionLabel::Wildcard),
            Token::Concatenation => self.join_concat(),
            Token::Union => self.join_union(),
            Token::KleeneQuantifier => self.wrap(true, true),
            Token::PositiveQuantifier => self.wrap(true, false),
            Token::OptionalQuantifier => self.wrap(false, true),
            Token::OpenParenthesis => self,
            Token::CloseParenthesis => self,
        }
    }

    /// The construction after the first `n` tokens of a postfix sequence.
    pub open spec fn run(postfix: Seq<Token>, n: int) -> Construction
        decreases n,
    {
        if n <= 0 {
            Construction::initial()
        } else {
            Construction::run(postfix, n - 1).step(postfix[n - 1])
        }
    }

    /// The automaton of a finished construction: it starts where the
    /// fragment at the bottom starts, and the out state of that fragment is
    /// its one accepting state.
    pub open spec fn finish(self) -> NfaModel {
        let whole = self.fragments[0];
        NfaModel {
            start: whole.start,
            states: self.states.update(
                whole.out,
                StateModel { edges: self.states[whole.out].edges, accepting: true },
            ),
        }
    }

    /// First index of the part of the arena that belongs to the fragment at
    /// `k` of the stack: the fragments lie in the arena one after the other,
    /// each ending with its out state.
    pub open spec fn low(self, k: int) -> int {
        if k <= 0 {
            0
        } else {
            self.fragments[k - 1].out + 1
        }
    }

    /// The fragment at `k` of the stack lies in a part of the arena of its
    /// own, from `low(k)` up to its out state, that no edge leaves; its out
    /// state has no edge.
    pub open spec fn fits(self, k: int) -> bool {
        placed(self.states, self.fragments[k], self.low(k))
    }

    /// What holds of the arena and the stack between any two tokens: the
    /// fragments fill the arena without a gap, each in a part of its own;
    /// no state has more than two edges or accepts.
    pub open spec fn structured(self) -> bool {
        &&& self.states.len() == self.low(self.fragments.len() as int)
        &&& forall|k: int| 0 <= k < self.fragments.len() ==> #[trigger] self.fits(k)
        &&& plain(self.states)
    }
}

/// The fragment lies in the part of the arena from `lo` up to its out state,
/// which no edge leaves; its out state has no edge.
pub open spec fn placed(states: Seq<StateModel>, f: Fragment, lo: int) -> bool {
    &&& lo <= f.start < f.out
    &&& states[f.out].edges.len() == 0
    &&& closed_part(states, lo, f.out + 1)
}

/// No edge of a state in the part from `lo` up to `hi` leads out of it.
pub open spec fn closed_part(states: Seq<StateModel>, lo: int, hi: int) -> bool {
    &&& 0 <= lo <= hi <= states.len()
    &&& forall|s: int, e: int|
        lo <= s < hi && 0 <= e < states[s].edges.len() ==> lo <= (#[trigger] states[s].edges[e]).to
            < hi
}

/// No state has more than two edges, and none accepts.
pub open spec fn plain(states: Seq<StateModel>) -> bool {
    forall|s: int|
        0 <= s < states.len() ==> (#[trigger] states[s]).edges.len() <= 2 && !states[s].accepting
}

/// The second arena has the states of the first below `hi` unchanged.
pub open spec fn agree_below(states: Seq<StateModel>, other: Seq<StateModel>, hi: int) -> bool {
    &&& hi <= states.len()
    &&& hi <= other.len()
    &&& forall|s: int| 0 <= s < hi ==> #[trigger] other[s] == states[s]
}

/// The automaton that Thompson construction builds from a postfix sequence.
pub open spec fn nfa_of_postfix(postfix: Seq<Token>) -> NfaModel {
    Construction::run(postfix, postfix.len() as int).finish()
}

/// A closed part stays closed where the states below its end are unchanged.
pub proof fn lemma_closed_part_kept(
    states: Seq<StateModel>,
    other: Seq<StateModel>,
    lo: int,
    hi: int,
    below: int,
)
    requires
        closed_part(states, lo, hi),
        agree_below(states, other, below),
        hi <= below,
    ensures
        closed_part(other, lo, hi),
{
    assert forall|s: int, e: int| lo <= s < hi && 0 <= e < other[s].edges.len() implies lo <= (
    #[trigger] other[s].edges[e]).to < hi by {}
}

/// The fragments below the operands of a token stay in place where the
/// arena below those operands is unchanged.
pub proof fn lemma_lower_fragments_fit(c: Construction, d: Construction, m: int)
    requires
        c.structured(),
        0 <= m <= c.fragments.len(),
        m <= d.fragments.len(),
        forall|k: int| 0 <= k < m ==> #[trigger] d.fragments[k] == c.fragments[k],
        agree_below(c.states, d.states, c.low(m)),
    ensures
        forall|k: int| 0 <= k < m ==> #[trigger] d.fits(k),
        d.low(m) == c.low(m),
{
    lemma_low_grows(c, m);
    assert forall|k: int| 0 <= k < m implies #[trigger] d.fits(k) by {
        assert(c.fits(k));
        lemma_low_grows(c, k);
        lemma_low_step(c, k, m);
        lemma_closed_part_kept(c.states, d.states, c.low(k), c.fragments[k].out + 1, c.low(m));
    }
}

/// The parts of the fragments begin inside the arena.
pub proof fn lemma_low_grows(c: Construction, k: int)
    requires
        c.structured(),
        0 <= k <= c.fragments.len(),
    ensures
        0 <= c.low(k) <= c.states.len(),
{
    lemma_low_step(c, k, c.fragments.len() as int);
    if k > 0 {
        assert(c.fits(k - 1));
    }
}

/// The parts of the fragments lie in the order of the stack.
pub proof fn lemma_low_step(c: Construction, k: int, m: int)
    requires
        c.structured(),
        0 <= k <= m <= c.fragments.len(),
    ensures
        c.low(k) <= c.low(m),
        k < m ==> c.fragments[k].out + 1 <= c.low(m),
    decreases m - k,
{
    if k < m {
        assert(c.fits(k));
        lemma_low_step(c, k + 1, m);
    }
}

/// A fragment for a character or the wildcard keeps the construction in
/// order.
pub proof fn lemma_single_structured(c: Construction, label: TransitionLabel)
    requires
        c.structured(),
    ensures
        c.push_single(label).structured(),
{
    let d = c.push_single(label);
    let m = c.fragments.len() as int;
    lemma_low_grows(c, m);
    lemma_lower_fragments_fit(c, d, m);
}

/// Two fragments joined in a row keep the construction in order.
pub proof fn lemma_concat_structured(c: Construction)
    requires
        c.structured(),
        c.fragments.len() >= 2,
    ensures
        c.join_concat().structured(),
{
    let d = c.join_concat();
    let m = c.fragments.len() - 2;
    let second = c.fragments[m + 1];
    assert(c.fits(m));
    assert(c.fits(m + 1));
    lemma_low_grows(c, m);
    lemma_lower_fragments_fit(c, d, m);
    assert(d.fits(m)) by {
        let lo = c.low(m);
        let hi = second.out + 1;
        assert forall|s: int, e: int| lo <= s < hi && 0 <= e < d.states[s].edges.len() implies lo
            <= (#[trigger] d.states[s].edges[e]).to < hi by {}
    }
}

/// Two fragments joined as a choice keep the construction in order.
pub proof fn lemma_union_structured(c: Construction)
    requires
        c.structured(),
        c.fragments.len() >= 2,
    ensures
        c.join_union().structured(),
{
    let d = c.join_union();
    let m = c.fragments.len() - 2;
    let a = c.fragments[m + 1];
    let n = c.states.len() as int;
    assert(c.fits(m));
    assert(c.fits(m + 1));
    lemma_low_grows(c, m);
    lemma_lower_fragments_fit(c, d, m);
    assert(d.fits(m)) by {
        let lo = c.low(m);
        let hi = n + 2;
        assert forall|s: int, e: int| lo <= s < hi && 0 <= e < d.states[s].edges.len() implies lo
            <= (#[trigger] d.states[s].edges[e]).to < hi by {}
    }
}

/// A quantifier around a fragment keeps the construction in order.
pub proof fn lemma_wrap_structured(c: Construction, repeat: bool, optional: bool)
    requires
        c.structured(),
        c.fragments.len() >= 1,
    ensures
        c.wrap(repeat, optional).structured(),
{
    let d = c.wrap(repeat, optional);
    let m = c.fragments.len() - 1;
    let n = c.states.len() as int;
    assert(c.fits(m));
    lemma_low_grows(c, m);
    lemma_lower_fragments_fit(c, d, m);
    assert(d.fits(m)) by {
        let lo = c.low(m);
        let hi = n + 2;
        assert forall|s: int, e: int| lo <= s < hi && 0 <= e < d.states[s].edges.len() implies lo
            <= (#[trigger] d.states[s].edges[e]).to < hi by {}
    }
}

/// One token whose operands are on the stack keeps the construction in
/// order, and leaves one fragment in place of its operands.
pub proof fn lemma_step_structured(c: Construction, token: Token)
    requires
        c.structured(),
        arity(token) is Some,
        c.fragments.len() >= arity(token)->Some_0,
    ensures
        c.step(token).structured(),
        c.step(token).fragments.len() == c.fragments.len() - arity(token)->Some_0 + 1,
{
    match token {
        Token::Letter(c0) => {
            lemma_single_structured(c, TransitionLabel::Letter(c0));
        },
        Token::Wildcard => {
            lemma_single_structured(c, TransitionLabel::Wildcard);
        },
        Token::Concatenation => {
            lemma_concat_structured(c);
        },
        Token::Union => {
            lemma_union_structured(c);
        },
        Token::KleeneQuantifier => {
            lemma_wrap_structured(c, true, true);
        },
        Token::PositiveQuantifier => {
            lemma_wrap_structured(c, true, false);
        },
        Token::OptionalQuantifier => {
            lemma_wrap_structured(c, false, true);
        },
        _ => {},
    }
}

/// A prefix of a postfix sequence that leaves a stack leaves the
/// construction in order, with that many fragments.
pub proof fn lemma_run_structured(postfix: Seq<Token>, n: int)
    requires
        0 <= n,
        postfix_depth(postfix, n) is Some,
    ensures
        Construction::run(postfix, n).structured(),
        Construction::run(postfix, n).fragments.len() == postfix_depth(postfix, n)->Some_0,
    decreases n,
{
    if n > 0 {
        lemma_run_structured(postfix, n - 1);
        lemma_step_structured(Construction::run(postfix, n - 1), postfix[n - 1]);
    }
}

/// The automaton of a finished construction is well formed, and the out
/// state of the whole is its one accepting state.
pub proof fn lemma_finish_wf(c: Construction)
    requires
        c.structured(),
        c.fragments.len() == 1,
    ensures
        c.finish().wf(),
        c.finish().accepts_only_in(c.fragments[0].out),
{
    let nfa = c.finish();
    assert(c.fits(0));
    assert forall|s: int| 0 <= s < nfa.states.len() implies ((#[trigger] nfa.states[s]).accepting
        <==> s == c.fragments[0].out) by {}
    assert forall|s: int, k: int|
        0 <= s < nfa.states.len() && 0 <= k < nfa.states[s].edges.len() implies 0 <= (
    #[trigger] nfa.states[s].edges[k]).to < nfa.states.len() by {}
    assert forall|s: int| 0 <= s < nfa.states.len() implies (#[trigger] nfa.states[s]).edges.len()
        <= 2 by {}
}

} // verus!
