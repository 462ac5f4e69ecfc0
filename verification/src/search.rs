//! The worklist search over pairs of input position and state, on the model:
//! what holds between two steps of the search, and why its answer is right.

use crate::automaton::{
    lemma_closed_set_holds_reachable, lemma_reaches_self, lemma_reaches_then_step, reaches, step,
    walks, Config, NfaModel,
};
use vstd::prelude::*;
use vstd::set_lib::{lemma_int_range, set_int_range};

verus! {

/// The pairs of a position below `positions` and a state below `states`.
pub open spec fn grid(positions: int, states: int) -> Set<Config> {
    Set::new(|p: Config| 0 <= p.0 < positions && 0 <= p.1 < states)
}

/// The pairs that a search of `nfa` on `input` may meet.
pub open spec fn search_grid(nfa: NfaModel, input: Seq<char>) -> Set<Config> {
    grid(input.len() as int + 1, nfa.states.len() as int)
}

/// There are finitely many pairs of a position and a state.
pub proof fn lemma_grid_finite(positions: int, states: int)
    requires
        0 <= positions,
        0 <= states,
    ensures
        grid(positions, states).finite(),
    decreases positions,
{
    if positions == 0 {
        assert(grid(positions, states) =~= Set::empty());
    } else {
        lemma_grid_finite(positions - 1, states);
        let row = set_int_range(0, states).map(|s: int| (positions - 1, s));
        lemma_int_range(0, states);
        set_int_range(0, states).lemma_map_finite(|s: int| (positions - 1, s));
        assert forall|p: Config| grid(positions, states).contains(p) implies grid(
            positions - 1,
            states,
        ).union(row).contains(p) by {
            if p.0 == positions - 1 {
                assert(set_int_range(0, states).contains(p.1));
            }
        }
        assert(grid(positions, states) =~= grid(positions - 1, states).union(row));
    }
}

/// The number under which a pair of a position and a state is kept in the
/// set of visited pairs: the position in the upper half, the state in the
/// lower half.
pub open spec fn spec_pair_key(position: int, state: int) -> int {
    position * 0x1_0000_0000_0000_0000 + state
}

/// The pairs of the grid whose keys are in `keys`.
pub open spec fn decoded(keys: Set<u128>, positions: int, states: int) -> Set<Config> {
    Set::new(
        |p: Config|
            grid(positions, states).contains(p) && keys.contains(spec_pair_key(p.0, p.1) as u128),
    )
}

/// A new key adds its pair, and no other.
pub proof fn lemma_decoded_insert(keys: Set<u128>, positions: int, states: int, p: Config)
    requires
        grid(positions, states).contains(p),
        positions <= 0x1_0000_0000_0000_0000,
        states <= 0x1_0000_0000_0000_0000,
    ensures
        decoded(keys.insert(spec_pair_key(p.0, p.1) as u128), positions, states) == decoded(
            keys,
            positions,
            states,
        ).insert(p),
{
}

/// One more visited pair leaves one pair less to visit.
pub proof fn lemma_unvisited_shrinks(all: Set<Config>, seen: Set<Config>, p: Config)
    requires
        all.finite(),
        all.contains(p),
        !seen.contains(p),
    ensures
        all.difference(seen.insert(p)).len() == all.difference(seen).len() - 1,
{
    assert(all.difference(seen.insert(p)) =~= all.difference(seen).remove(p));
}

/// The search is done with `p`: a run that ends there is not accepted, and
/// every pair that one transition leads to from `p` has been seen.
pub open spec fn settled(nfa: NfaModel, input: Seq<char>, seen: Set<Config>, p: Config) -> bool {
    &&& !(p.0 == input.len() && nfa.states[p.1].accepting)
    &&& forall|q: Config| #[trigger] step(nfa.states, input, p, q) ==> seen.contains(q)
}

/// What holds between two steps of the search. `seen` are the pairs that
/// were put on the worklist so far, `pending` the worklist, `current` the
/// pair that is being expanded, if any. Every seen pair is reachable from
/// the start, and the search is done with every seen pair that is neither
/// pending nor being expanded.
pub open spec fn search_inv(
    nfa: NfaModel,
    input: Seq<char>,
    seen: Set<Config>,
    pending: Seq<Config>,
    current: Option<Config>,
) -> bool {
    &&& seen.contains((0, nfa.start))
    &&& seen.subset_of(search_grid(nfa, input))
    &&& forall|p: Config| #[trigger]
        seen.contains(p) ==> reaches(nfa.states, input, (0, nfa.start), p)
    &&& forall|k: int| 0 <= k < pending.len() ==> seen.contains(#[trigger] pending[k])
    &&& forall|p: Config| #[trigger]
        seen.contains(p) && !pending.contains(p) && current != Some(p) ==> settled(
            nfa,
            input,
            seen,
            p,
        )
    &&& current matches Some(c) ==> seen.contains(c)
}

/// The search may begin with the start pair alone.
pub proof fn lemma_search_begins(nfa: NfaModel, input: Seq<char>)
    requires
        nfa.wf(),
    ensures
        search_inv(nfa, input, set![(0int, nfa.start)], seq![(0int, nfa.start)], None),
{
    let first: Config = (0, nfa.start);
    lemma_reaches_self(nfa.states, input, first);
    assert(seq![first][0] == first);
}

/// Taking the first pending pair to expand it.
pub proof fn lemma_search_takes(
    nfa: NfaModel,
    input: Seq<char>,
    seen: Set<Config>,
    pending: Seq<Config>,
)
    requires
        search_inv(nfa, input, seen, pending, None),
        pending.len() > 0,
    ensures
        search_inv(nfa, input, seen, pending.drop_first(), Some(pending[0])),
{
    let rest = pending.drop_first();
    assert forall|k: int| 0 <= k < rest.len() implies seen.contains(#[trigger] rest[k]) by {}
    assert forall|p: Config| #[trigger]
        seen.contains(p) && !rest.contains(p) && Some(pending[0]) != Some(p) implies settled(
        nfa,
        input,
        seen,
        p,
    ) by {
        if pending.contains(p) {
            let k = choose|k: int| 0 <= k < pending.len() && pending[k] == p;
            assert(rest[k - 1] == p);
        }
    }
}

/// Putting a pair on the worklist that one transition leads to from the
/// pair that is being expanded.
pub proof fn lemma_search_visits(
    nfa: NfaModel,
    input: Seq<char>,
    seen: Set<Config>,
    pending: Seq<Config>,
    c: Config,
    q: Config,
)
    requires
        search_inv(nfa, input, seen, pending, Some(c)),
        step(nfa.states, input, c, q),
        search_grid(nfa, input).contains(q),
    ensures
        search_inv(nfa, input, seen.insert(q), pending.push(q), Some(c)),
{
    let seen2 = seen.insert(q);
    let pending2 = pending.push(q);
    lemma_reaches_then_step(nfa.states, input, (0, nfa.start), c, q);
    assert(pending2[pending.len() as int] == q);
    assert forall|p: Config| #[trigger]
        seen2.contains(p) && !pending2.contains(p) && Some(c) != Some(p) implies settled(
        nfa,
        input,
        seen2,
        p,
    ) by {
        if pending.contains(p) {
            let k = choose|k: int| 0 <= k < pending.len() && pending[k] == p;
            assert(pending2[k] == p);
        }
    }
    assert forall|k: int| 0 <= k < pending2.len() implies seen2.contains(
        #[trigger] pending2[k],
    ) by {}
}

/// Leaving a pair once every pair that it leads to has been seen.
pub proof fn lemma_search_settles(
    nfa: NfaModel,
    input: Seq<char>,
    seen: Set<Config>,
    pending: Seq<Config>,
    c: Config,
)
    requires
        search_inv(nfa, input, seen, pending, Some(c)),
        settled(nfa, input, seen, c),
    ensures
        search_inv(nfa, input, seen, pending, None),
{
}

/// A seen pair at the end of the input in an accepting state shows that the
/// automaton accepts.
pub proof fn lemma_search_found(
    nfa: NfaModel,
    input: Seq<char>,
    seen: Set<Config>,
    pending: Seq<Config>,
    c: Config,
)
    requires
        search_inv(nfa, input, seen, pending, Some(c)),
        c.0 == input.len(),
        nfa.states[c.1].accepting,
    ensures
        nfa.accepts(input),
{
    assert(nfa.accepts_in(input, c.1));
}

/// With nothing left on the worklist every reachable pair has been seen and
/// none of them accepts.
pub proof fn lemma_search_exhausted(nfa: NfaModel, input: Seq<char>, seen: Set<Config>)
    requires
        search_inv(nfa, input, seen, Seq::empty(), None),
    ensures
        !nfa.accepts(input),
{
    if nfa.accepts(input) {
        let q = choose|q: int| nfa.accepts_in(input, q);
        let last: Config = (input.len() as int, q);
        let n = choose|n: nat| walks(nfa.states, input, (0, nfa.start), last, n);
        assert forall|a: Config, b: Config|
            seen.contains(a) && #[trigger] step(nfa.states, input, a, b) implies seen.contains(
            b,
        ) by {}
        lemma_closed_set_holds_reachable(nfa.states, input, seen, (0, nfa.start), last, n);
    }
}

} // verus!
