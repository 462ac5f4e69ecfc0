//! How the runs of an arena change while the construction extends it: what
//! is appended or added never takes a run away, a part that is left
//! untouched keeps exactly its runs, and a run can leave a part only through
//! the one state that got new edges.

use crate::automaton::{
    lemma_reaches_self, lemma_step_then_reaches, reaches, step, takes_edge, walks, Config,
    StateModel,
};
use crate::thompson::closed_part;
use vstd::prelude::*;

verus! {

/// The second arena has every state of the first, each with the edges it
/// had, in their places, and maybe more after them.
pub open spec fn extends(old_states: Seq<StateModel>, new_states: Seq<StateModel>) -> bool {
    &&& old_states.len() <= new_states.len()
    &&& forall|s: int|
        0 <= s < old_states.len() ==> (#[trigger] old_states[s]).edges.len()
            <= new_states[s].edges.len()
    &&& forall|s: int, k: int|
        0 <= s < old_states.len() && 0 <= k < old_states[s].edges.len() ==> (
        #[trigger] new_states[s].edges[k]) == old_states[s].edges[k]
}

/// A transition of an arena is a transition of every arena that extends it.
pub proof fn lemma_step_extends(
    old_states: Seq<StateModel>,
    new_states: Seq<StateModel>,
    input: Seq<char>,
    a: Config,
    b: Config,
)
    requires
        extends(old_states, new_states),
        step(old_states, input, a, b),
    ensures
        step(new_states, input, a, b),
{
    let k = choose|k: int| takes_edge(old_states, input, a, b, k);
    assert(takes_edge(new_states, input, a, b, k));
}

/// A run of an arena is a run of every arena that extends it.
pub proof fn lemma_walks_extends(
    old_states: Seq<StateModel>,
    new_states: Seq<StateModel>,
    input: Seq<char>,
    a: Config,
    b: Config,
    n: nat,
)
    requires
        extends(old_states, new_states),
        walks(old_states, input, a, b, n),
    ensures
        walks(new_states, input, a, b, n),
    decreases n,
{
    if n > 0 {
        let mid = choose|mid: Config| #[trigger]
            step(old_states, input, a, mid) && walks(old_states, input, mid, b, (n - 1) as nat);
        lemma_step_extends(old_states, new_states, input, a, mid);
        lemma_walks_extends(old_states, new_states, input, mid, b, (n - 1) as nat);
    }
}

/// What is reachable in an arena is reachable in every arena that extends
/// it.
pub proof fn lemma_reaches_extends(
    old_states: Seq<StateModel>,
    new_states: Seq<StateModel>,
    input: Seq<char>,
    a: Config,
    b: Config,
)
    requires
        extends(old_states, new_states),
        reaches(old_states, input, a, b),
    ensures
        reaches(new_states, input, a, b),
{
    let n = choose|n: nat| walks(old_states, input, a, b, n);
    lemma_walks_extends(old_states, new_states, input, a, b, n);
}

/// A transition from a state is a transition of every arena that has the
/// same state there, and it stays inside a closed part.
pub proof fn lemma_step_of_same_state(
    x: Seq<StateModel>,
    y: Seq<StateModel>,
    input: Seq<char>,
    lo: int,
    hi: int,
    a: Config,
    b: Config,
)
    requires
        closed_part(x, lo, hi),
        lo <= a.1 < hi,
        hi <= y.len(),
        y[a.1] == x[a.1],
        step(y, input, a, b),
    ensures
        step(x, input, a, b),
        lo <= b.1 < hi,
{
    let k = choose|k: int| takes_edge(y, input, a, b, k);
    assert(takes_edge(x, input, a, b, k));
}

/// A run that starts in a closed part stays in it, and is a run of every
/// arena that has the same states in that part.
pub proof fn lemma_walks_in_kept_part(
    x: Seq<StateModel>,
    y: Seq<StateModel>,
    input: Seq<char>,
    lo: int,
    hi: int,
    a: Config,
    b: Config,
    n: nat,
)
    requires
        closed_part(x, lo, hi),
        hi <= y.len(),
        forall|s: int| lo <= s < hi ==> #[trigger] y[s] == x[s],
        lo <= a.1 < hi,
        walks(y, input, a, b, n),
    ensures
        walks(x, input, a, b, n),
        lo <= b.1 < hi,
    decreases n,
{
    if n > 0 {
        let mid = choose|mid: Config| #[trigger]
            step(y, input, a, mid) && walks(y, input, mid, b, (n - 1) as nat);
        lemma_step_of_same_state(x, y, input, lo, hi, a, mid);
        lemma_walks_in_kept_part(x, y, input, lo, hi, mid, b, (n - 1) as nat);
    }
}

/// Two arenas with the same states in a closed part have the same runs from
/// a state of that part.
pub proof fn lemma_reaches_in_kept_part(
    x: Seq<StateModel>,
    y: Seq<StateModel>,
    input: Seq<char>,
    lo: int,
    hi: int,
    a: Config,
    b: Config,
)
    requires
        closed_part(x, lo, hi),
        hi <= y.len(),
        forall|s: int| lo <= s < hi ==> #[trigger] y[s] == x[s],
        lo <= a.1 < hi,
    ensures
        reaches(y, input, a, b) <==> reaches(x, input, a, b),
{
    if reaches(y, input, a, b) {
        let n = choose|n: nat| walks(y, input, a, b, n);
        lemma_walks_in_kept_part(x, y, input, lo, hi, a, b, n);
    }
    if reaches(x, input, a, b) {
        let n = choose|n: nat| walks(x, input, a, b, n);
        assert(closed_part(y, lo, hi)) by {
            assert forall|s: int, e: int|
                lo <= s < hi && 0 <= e < y[s].edges.len() implies lo <= (
            #[trigger] y[s].edges[e]).to < hi by {}
        }
        lemma_walks_in_kept_part(y, x, input, lo, hi, a, b, n);
    }
}

/// A run of the new arena from a state of a part whose states are unchanged
/// but for the last one, `out`. Either the run is a run of the old arena
/// that never comes to `out` (the result is `(true, _, _)`), or it comes to
/// `out` by a run of the old arena at position `k` and goes on from there
/// for `m` transitions (the result is `(false, k, m)`).
pub proof fn lemma_walk_leaves_through_out(
    old_states: Seq<StateModel>,
    new_states: Seq<StateModel>,
    input: Seq<char>,
    lo: int,
    out: int,
    a: Config,
    b: Config,
    n: nat,
) -> (r: (bool, int, nat))
    requires
        closed_part(old_states, lo, out + 1),
        out + 1 <= new_states.len(),
        forall|s: int| lo <= s < out ==> #[trigger] new_states[s] == old_states[s],
        lo <= a.1 <= out,
        walks(new_states, input, a, b, n),
    ensures
        r.0 ==> reaches(old_states, input, a, b) && lo <= b.1 < out,
        !r.0 ==> r.2 <= n && reaches(old_states, input, a, (r.1, out)) && walks(
            new_states,
            input,
            (r.1, out),
            b,
            r.2,
        ),
    decreases n,
{
    if a.1 == out {
        lemma_reaches_self(old_states, input, a);
        (false, a.0, n)
    } else if n == 0 {
        lemma_reaches_self(old_states, input, a);
        (true, 0, 0)
    } else {
        let mid = choose|mid: Config| #[trigger]
            step(new_states, input, a, mid) && walks(new_states, input, mid, b, (n - 1) as nat);
        lemma_step_of_same_state(old_states, new_states, input, lo, out + 1, a, mid);
        let r = lemma_walk_leaves_through_out(
            old_states,
            new_states,
            input,
            lo,
            out,
            mid,
            b,
            (n - 1) as nat,
        );
        if r.0 {
            lemma_step_then_reaches(old_states, input, a, mid, b);
        } else {
            lemma_step_then_reaches(old_states, input, a, mid, (r.1, out));
        }
        r
    }
}

} // verus!
