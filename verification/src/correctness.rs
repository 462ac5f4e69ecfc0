//! Why Thompson construction is right: the runs through a fragment are
//! exactly the parts of an input that its expression denotes.

use crate::automaton::{
    lemma_no_edges_no_walk, lemma_reaches_join, lemma_step_reaches, lemma_step_then_reaches,
    lemma_walks_forward, reaches, step, takes_edge, walks, Config, StateModel,
};
use crate::nfa::TransitionLabel;
use crate::parse::Token;
use crate::runs::{
    lemma_reaches_extends, lemma_reaches_in_kept_part, lemma_walk_leaves_through_out,
    lemma_walks_in_kept_part,
};
use crate::syntax::{
    arity, between, expr_of_postfix, expr_stack, expr_step, lemma_spans_forward, postfix_depth,
    well_formed_postfix, Expr,
};
use crate::thompson::{
    agree_below, concat_fragment, concat_states, lemma_low_grows, lemma_low_step,
    lemma_run_structured, lemma_step_structured, nfa_of_postfix, pair_fragment, placed,
    quantifier_states, single_states, union_states, Construction, Fragment,
};
use vstd::prelude::*;

verus! {

/// The runs from the start of the fragment to its out state are exactly the
/// parts of an input that the expression denotes.
pub open spec fn denotes_at(states: Seq<StateModel>, f: Fragment, e: Expr) -> bool {
    forall|input: Seq<char>, i: int, j: int|
        #![trigger reaches(states, input, (i, f.start), (j, f.out))]
        #![trigger e.spans(input, i, j)]
        reaches(states, input, (i, f.start), (j, f.out)) <==> e.spans(input, i, j)
}

/// The expression of a fragment for one character or for the wildcard.
pub open spec fn label_expr(label: TransitionLabel) -> Expr {
    match label {
        TransitionLabel::Letter(c) => Expr::Letter(c),
        _ => Expr::Any,
    }
}

/// The only transition from a state with one edge.
pub proof fn lemma_only_edge(
    states: Seq<StateModel>,
    input: Seq<char>,
    a: Config,
    b: Config,
)
    requires
        step(states, input, a, b),
        states[a.1].edges.len() == 1,
    ensures
        b.1 == states[a.1].edges[0].to,
        states[a.1].edges[0].moves(input, a.0, b.0),
{
    let k = choose|k: int| takes_edge(states, input, a, b, k);
    assert(takes_edge(states, input, a, b, k));
}

/// A run that ends in another state than it starts in begins with a
/// transition.
pub proof fn lemma_first_step(
    states: Seq<StateModel>,
    input: Seq<char>,
    a: Config,
    b: Config,
    n: nat,
) -> (mid: Config)
    requires
        walks(states, input, a, b, n),
        a.1 != b.1,
    ensures
        n >= 1,
        step(states, input, a, mid),
        walks(states, input, mid, b, (n - 1) as nat),
{
    choose|mid: Config| #[trigger]
        step(states, input, a, mid) && walks(states, input, mid, b, (n - 1) as nat)
}

/// A run from a state without edges ends where it begins.
pub proof fn lemma_stays_at(
    states: Seq<StateModel>,
    input: Seq<char>,
    a: Config,
    b: Config,
    n: nat,
)
    requires
        walks(states, input, a, b, n),
        0 <= a.1 < states.len(),
        states[a.1].edges.len() == 0,
    ensures
        a == b,
{
    lemma_no_edges_no_walk(states, input, a, b, n);
}

/// The fragment for one character or for the wildcard denotes what its
/// label consumes.
pub proof fn lemma_single_denotes(states: Seq<StateModel>, label: TransitionLabel)
    requires
        label != TransitionLabel::Epsilon,
    ensures
        denotes_at(single_states(states, label), pair_fragment(states), label_expr(label)),
{
    let new_states = single_states(states, label);
    let f = pair_fragment(states);
    let e = label_expr(label);
    assert forall|input: Seq<char>, i: int, j: int|
        reaches(new_states, input, (i, f.start), (j, f.out)) <==> e.spans(input, i, j) by {
        let a: Config = (i, f.start);
        let b: Config = (j, f.out);
        if reaches(new_states, input, a, b) {
            let n = choose|n: nat| walks(new_states, input, a, b, n);
            let mid = lemma_first_step(new_states, input, a, b, n);
            lemma_only_edge(new_states, input, a, mid);
            lemma_stays_at(new_states, input, mid, b, (n - 1) as nat);
        }
        if e.spans(input, i, j) {
            assert(takes_edge(new_states, input, a, b, 0));
            lemma_step_reaches(new_states, input, a, b);
        }
    }
}

/// A run through two fragments joined in a row splits into a run through
/// the first and a run through the second.
pub proof fn lemma_concat_sound(
    states: Seq<StateModel>,
    first: Fragment,
    second: Fragment,
    lo: int,
    e1: Expr,
    e2: Expr,
    input: Seq<char>,
    i: int,
    j: int,
)
    requires
        placed(states, first, lo),
        placed(states, second, first.out + 1),
        denotes_at(states, first, e1),
        denotes_at(states, second, e2),
        reaches(concat_states(states, first, second), input, (i, first.start), (j, second.out)),
    ensures
        Expr::Concat(Box::new(e1), Box::new(e2)).spans(input, i, j),
{
    let new_states = concat_states(states, first, second);
    let a: Config = (i, first.start);
    let b: Config = (j, second.out);
    let n = choose|n: nat| walks(new_states, input, a, b, n);
    let r = lemma_walk_leaves_through_out(states, new_states, input, lo, first.out, a, b, n);
    let k = r.1;
    let at_out: Config = (k, first.out);
    let mid = lemma_first_step(new_states, input, at_out, b, r.2);
    lemma_only_edge(new_states, input, at_out, mid);
    lemma_walks_in_kept_part(
        states,
        new_states,
        input,
        first.out + 1,
        second.out + 1,
        mid,
        b,
        (r.2 - 1) as nat,
    );
    lemma_spans_forward(e1, input, i, k);
    lemma_spans_forward(e2, input, k, j);
    assert(between(i, k, j) && e1.spans(input, i, k) && e2.spans(input, k, j));
}

/// A run through the first fragment and a run through the second make a
/// run through the two joined in a row.
pub proof fn lemma_concat_complete(
    states: Seq<StateModel>,
    first: Fragment,
    second: Fragment,
    lo: int,
    e1: Expr,
    e2: Expr,
    input: Seq<char>,
    i: int,
    j: int,
)
    requires
        placed(states, first, lo),
        placed(states, second, first.out + 1),
        denotes_at(states, first, e1),
        denotes_at(states, second, e2),
        Expr::Concat(Box::new(e1), Box::new(e2)).spans(input, i, j),
    ensures
        reaches(concat_states(states, first, second), input, (i, first.start), (j, second.out)),
{
    let new_states = concat_states(states, first, second);
    let k = choose|k: int| #[trigger]
        between(i, k, j) && e1.spans(input, i, k) && e2.spans(input, k, j);
    let a: Config = (i, first.start);
    let at_out: Config = (k, first.out);
    let at_start: Config = (k, second.start);
    let b: Config = (j, second.out);
    lemma_reaches_extends(states, new_states, input, a, at_out);
    lemma_reaches_extends(states, new_states, input, at_start, b);
    assert(takes_edge(new_states, input, at_out, at_start, 0));
    lemma_step_then_reaches(new_states, input, at_out, at_start, b);
    lemma_reaches_join(new_states, input, a, at_out, b);
}

/// Two fragments joined in a row denote the concatenation of what they
/// denote.
pub proof fn lemma_concat_denotes(
    states: Seq<StateModel>,
    first: Fragment,
    second: Fragment,
    lo: int,
    e1: Expr,
    e2: Expr,
)
    requires
        placed(states, first, lo),
        placed(states, second, first.out + 1),
        denotes_at(states, first, e1),
        denotes_at(states, second, e2),
    ensures
        denotes_at(
            concat_states(states, first, second),
            concat_fragment(first, second),
            Expr::Concat(Box::new(e1), Box::new(e2)),
        ),
{
    let new_states = concat_states(states, first, second);
    let e = Expr::Concat(Box::new(e1), Box::new(e2));
    assert forall|input: Seq<char>, i: int, j: int|
        reaches(new_states, input, (i, first.start), (j, second.out)) <==> e.spans(
            input,
            i,
            j,
        ) by {
        if reaches(new_states, input, (i, first.start), (j, second.out)) {
            lemma_concat_sound(states, first, second, lo, e1, e2, input, i, j);
        }
        if e.spans(input, i, j) {
            lemma_concat_complete(states, first, second, lo, e1, e2, input, i, j);
        }
    }
}

/// A run from the start of a fragment to a state outside its part comes to
/// the out state of the fragment by a run that the expression denotes, and
/// goes on from there.
pub proof fn lemma_run_through(
    states: Seq<StateModel>,
    new_states: Seq<StateModel>,
    f: Fragment,
    lo: int,
    e: Expr,
    input: Seq<char>,
    i: int,
    b: Config,
    n: nat,
) -> (r: (int, nat))
    requires
        placed(states, f, lo),
        denotes_at(states, f, e),
        f.out + 1 <= new_states.len(),
        forall|s: int| lo <= s < f.out ==> #[trigger] new_states[s] == states[s],
        walks(new_states, input, (i, f.start), b, n),
        !(lo <= b.1 < f.out),
    ensures
        r.1 <= n,
        between(i, r.0, b.0),
        e.spans(input, i, r.0),
        walks(new_states, input, (r.0, f.out), b, r.1),
{
    let a: Config = (i, f.start);
    let r = lemma_walk_leaves_through_out(states, new_states, input, lo, f.out, a, b, n);
    lemma_spans_forward(e, input, i, r.1);
    lemma_walks_forward(new_states, input, (r.1, f.out), b, r.2);
    (r.1, r.2)
}

/// A run through a choice is a run through one of the two fragments.
pub proof fn lemma_union_sound(
    states: Seq<StateModel>,
    a: Fragment,
    b: Fragment,
    lo: int,
    ea: Expr,
    eb: Expr,
    input: Seq<char>,
    i: int,
    j: int,
)
    requires
        placed(states, b, lo),
        placed(states, a, b.out + 1),
        states.len() == a.out + 1,
        denotes_at(states, a, ea),
        denotes_at(states, b, eb),
        reaches(
            union_states(states, a, b),
            input,
            (i, pair_fragment(states).start),
            (j, pair_fragment(states).out),
        ),
    ensures
        ea.spans(input, i, j) || eb.spans(input, i, j),
{
    let new_states = union_states(states, a, b);
    let n = states.len() as int;
    let from: Config = (i, n);
    let to: Config = (j, n + 1);
    let len = choose|len: nat| walks(new_states, input, from, to, len);
    let mid = lemma_first_step(new_states, input, from, to, len);
    let k = choose|k: int| takes_edge(new_states, input, from, mid, k);
    if k == 0 {
        let r = lemma_run_through(
            states,
            new_states,
            a,
            b.out + 1,
            ea,
            input,
            i,
            to,
            (len - 1) as nat,
        );
        let at_out: Config = (r.0, a.out);
        let next = lemma_first_step(new_states, input, at_out, to, r.1);
        lemma_only_edge(new_states, input, at_out, next);
        lemma_stays_at(new_states, input, next, to, (r.1 - 1) as nat);
    } else {
        let r = lemma_run_through(
            states,
            new_states,
            b,
            lo,
            eb,
            input,
            i,
            to,
            (len - 1) as nat,
        );
        let at_out: Config = (r.0, b.out);
        let next = lemma_first_step(new_states, input, at_out, to, r.1);
        lemma_only_edge(new_states, input, at_out, next);
        lemma_stays_at(new_states, input, next, to, (r.1 - 1) as nat);
    }
}

/// A run through either fragment makes a run through their choice.
pub proof fn lemma_union_complete(
    states: Seq<StateModel>,
    a: Fragment,
    b: Fragment,
    lo: int,
    ea: Expr,
    eb: Expr,
    input: Seq<char>,
    i: int,
    j: int,
)
    requires
        placed(states, b, lo),
        placed(states, a, b.out + 1),
        states.len() == a.out + 1,
        denotes_at(states, a, ea),
        denotes_at(states, b, eb),
        ea.spans(input, i, j) || eb.spans(input, i, j),
    ensures
        reaches(
            union_states(states, a, b),
            input,
            (i, pair_fragment(states).start),
            (j, pair_fragment(states).out),
        ),
{
    let new_states = union_states(states, a, b);
    let n = states.len() as int;
    let from: Config = (i, n);
    let to: Config = (j, n + 1);
    if ea.spans(input, i, j) {
        let enter: Config = (i, a.start);
        let leave: Config = (j, a.out);
        lemma_reaches_extends(states, new_states, input, enter, leave);
        assert(takes_edge(new_states, input, from, enter, 0));
        assert(takes_edge(new_states, input, leave, to, 0));
        lemma_step_reaches(new_states, input, leave, to);
        lemma_reaches_join(new_states, input, enter, leave, to);
        lemma_step_then_reaches(new_states, input, from, enter, to);
    } else {
        let enter: Config = (i, b.start);
        let leave: Config = (j, b.out);
        lemma_reaches_extends(states, new_states, input, enter, leave);
        assert(takes_edge(new_states, input, from, enter, 1));
        assert(takes_edge(new_states, input, leave, to, 0));
        lemma_step_reaches(new_states, input, leave, to);
        lemma_reaches_join(new_states, input, enter, leave, to);
        lemma_step_then_reaches(new_states, input, from, enter, to);
    }
}

/// Two fragments joined as a choice denote the union of what they denote.
/// `a` is the fragment on top of the stack, `b` the one below it.
pub proof fn lemma_union_denotes(
    states: Seq<StateModel>,
    a: Fragment,
    b: Fragment,
    lo: int,
    ea: Expr,
    eb: Expr,
)
    requires
        placed(states, b, lo),
        placed(states, a, b.out + 1),
        states.len() == a.out + 1,
        denotes_at(states, a, ea),
        denotes_at(states, b, eb),
    ensures
        denotes_at(
            union_states(states, a, b),
            pair_fragment(states),
            Expr::Union(Box::new(eb), Box::new(ea)),
        ),
{
    let new_states = union_states(states, a, b);
    let f = pair_fragment(states);
    let e = Expr::Union(Box::new(eb), Box::new(ea));
    assert forall|input: Seq<char>, i: int, j: int|
        reaches(new_states, input, (i, f.start), (j, f.out)) <==> e.spans(input, i, j) by {
        if reaches(new_states, input, (i, f.start), (j, f.out)) {
            lemma_union_sound(states, a, b, lo, ea, eb, input, i, j);
        }
        if e.spans(input, i, j) {
            lemma_union_complete(states, a, b, lo, ea, eb, input, i, j);
        }
    }
}

/// What is left of a part once the fragment inside a quantifier has been
/// gone through: with `repeat` any number of further parts, else nothing.
pub open spec fn rest_after(e: Expr, input: Seq<char>, k: int, j: int, repeat: bool) -> bool {
    if repeat {
        e.iterates(input, k, j)
    } else {
        k == j
    }
}

/// What a quantifier around an expression denotes: with `optional` the
/// empty part; and a part that the expression denotes, followed by what
/// `rest_after` allows.
pub open spec fn quantified(
    e: Expr,
    input: Seq<char>,
    i: int,
    j: int,
    repeat: bool,
    optional: bool,
) -> bool {
    ||| optional && i == j
    ||| exists|k: int| #[trigger]
        between(i, k, j) && e.spans(input, i, k) && rest_after(e, input, k, j, repeat)
}

/// A run from the out state of the fragment inside a quantifier to the new
/// out state goes through the fragment again as often as `rest_after` says.
pub proof fn lemma_wrap_rest_sound(
    states: Seq<StateModel>,
    inner: Fragment,
    lo: int,
    e: Expr,
    repeat: bool,
    optional: bool,
    input: Seq<char>,
    k: int,
    j: int,
    n: nat,
)
    requires
        placed(states, inner, lo),
        states.len() == inner.out + 1,
        denotes_at(states, inner, e),
        walks(
            quantifier_states(states, inner, repeat, optional),
            input,
            (k, inner.out),
            (j, pair_fragment(states).out),
            n,
        ),
    ensures
        rest_after(e, input, k, j, repeat),
    decreases n,
{
    let new_states = quantifier_states(states, inner, repeat, optional);
    let at_out: Config = (k, inner.out);
    let to: Config = (j, states.len() as int + 1);
    let mid = lemma_first_step(new_states, input, at_out, to, n);
    let x = choose|x: int| takes_edge(new_states, input, at_out, mid, x);
    if x == 0 {
        lemma_stays_at(new_states, input, mid, to, (n - 1) as nat);
    } else {
        let r = lemma_run_through(
            states,
            new_states,
            inner,
            lo,
            e,
            input,
            k,
            to,
            (n - 1) as nat,
        );
        lemma_wrap_rest_sound(states, inner, lo, e, repeat, optional, input, r.0, j, r.1);
        if r.0 != k {
            assert(between(k + 1, r.0, j) && e.spans(input, k, r.0) && e.iterates(
                input,
                r.0,
                j,
            ));
        }
    }
}

/// A run through a quantifier is a part that the quantifier denotes.
pub proof fn lemma_wrap_sound(
    states: Seq<StateModel>,
    inner: Fragment,
    lo: int,
    e: Expr,
    repeat: bool,
    optional: bool,
    input: Seq<char>,
    i: int,
    j: int,
)
    requires
        placed(states, inner, lo),
        states.len() == inner.out + 1,
        denotes_at(states, inner, e),
        reaches(
            quantifier_states(states, inner, repeat, optional),
            input,
            (i, pair_fragment(states).start),
            (j, pair_fragment(states).out),
        ),
    ensures
        quantified(e, input, i, j, repeat, optional),
{
    let new_states = quantifier_states(states, inner, repeat, optional);
    let from: Config = (i, states.len() as int);
    let to: Config = (j, states.len() as int + 1);
    let n = choose|n: nat| walks(new_states, input, from, to, n);
    let mid = lemma_first_step(new_states, input, from, to, n);
    let x = choose|x: int| takes_edge(new_states, input, from, mid, x);
    if x == 0 {
        let r = lemma_run_through(
            states,
            new_states,
            inner,
            lo,
            e,
            input,
            i,
            to,
            (n - 1) as nat,
        );
        lemma_wrap_rest_sound(states, inner, lo, e, repeat, optional, input, r.0, j, r.1);
    } else {
        lemma_stays_at(new_states, input, mid, to, (n - 1) as nat);
    }
}

/// From the out state of the fragment inside a quantifier a run leads to
/// the new out state over every part that `rest_after` allows.
pub proof fn lemma_wrap_rest_complete(
    states: Seq<StateModel>,
    inner: Fragment,
    lo: int,
    e: Expr,
    repeat: bool,
    optional: bool,
    input: Seq<char>,
    k: int,
    j: int,
)
    requires
        placed(states, inner, lo),
        states.len() == inner.out + 1,
        denotes_at(states, inner, e),
        rest_after(e, input, k, j, repeat),
    ensures
        reaches(
            quantifier_states(states, inner, repeat, optional),
            input,
            (k, inner.out),
            (j, pair_fragment(states).out),
        ),
    decreases j - k,
{
    let new_states = quantifier_states(states, inner, repeat, optional);
    let at_out: Config = (k, inner.out);
    let to: Config = (j, states.len() as int + 1);
    if k == j {
        assert(takes_edge(new_states, input, at_out, to, 0));
        lemma_step_reaches(new_states, input, at_out, to);
    } else {
        let m = choose|m: int| #[trigger]
            between(k + 1, m, j) && e.spans(input, k, m) && e.iterates(input, m, j);
        let enter: Config = (k, inner.start);
        let leave: Config = (m, inner.out);
        lemma_reaches_extends(states, new_states, input, enter, leave);
        assert(takes_edge(new_states, input, at_out, enter, 1));
        lemma_step_then_reaches(new_states, input, at_out, enter, leave);
        lemma_wrap_rest_complete(states, inner, lo, e, repeat, optional, input, m, j);
        lemma_reaches_join(new_states, input, at_out, leave, to);
    }
}

/// Over every part that a quantifier denotes a run leads through it.
pub proof fn lemma_wrap_complete(
    states: Seq<StateModel>,
    inner: Fragment,
    lo: int,
    e: Expr,
    repeat: bool,
    optional: bool,
    input: Seq<char>,
    i: int,
    j: int,
)
    requires
        placed(states, inner, lo),
        states.len() == inner.out + 1,
        denotes_at(states, inner, e),
        quantified(e, input, i, j, repeat, optional),
    ensures
        reaches(
            quantifier_states(states, inner, repeat, optional),
            input,
            (i, pair_fragment(states).start),
            (j, pair_fragment(states).out),
        ),
{
    let new_states = quantifier_states(states, inner, repeat, optional);
    let from: Config = (i, states.len() as int);
    let to: Config = (j, states.len() as int + 1);
    if exists|k: int| #[trigger]
        between(i, k, j) && e.spans(input, i, k) && rest_after(e, input, k, j, repeat) {
        let k = choose|k: int| #[trigger]
            between(i, k, j) && e.spans(input, i, k) && rest_after(e, input, k, j, repeat);
        let enter: Config = (i, inner.start);
        let leave: Config = (k, inner.out);
        lemma_reaches_extends(states, new_states, input, enter, leave);
        lemma_wrap_rest_complete(states, inner, lo, e, repeat, optional, input, k, j);
        lemma_reaches_join(new_states, input, enter, leave, to);
        assert(takes_edge(new_states, input, from, enter, 0));
        lemma_step_then_reaches(new_states, input, from, enter, to);
    } else {
        assert(takes_edge(new_states, input, from, to, 1));
        lemma_step_reaches(new_states, input, from, to);
    }
}

/// The expression of a quantifier around an expression.
pub open spec fn quantifier_expr(e: Expr, repeat: bool, optional: bool) -> Expr {
    if repeat {
        if optional {
            Expr::Star(Box::new(e))
        } else {
            Expr::Plus(Box::new(e))
        }
    } else {
        Expr::Optional(Box::new(e))
    }
}

/// A star, a plus and a question mark denote what `quantified` says of
/// them.
pub proof fn lemma_quantified(
    e: Expr,
    input: Seq<char>,
    i: int,
    j: int,
    repeat: bool,
    optional: bool,
)
    requires
        repeat || optional,
    ensures
        quantifier_expr(e, repeat, optional).spans(input, i, j) <==> quantified(
            e,
            input,
            i,
            j,
            repeat,
            optional,
        ),
{
    let q = quantifier_expr(e, repeat, optional);
    if repeat && optional {
        if e.iterates(input, i, j) && i != j {
            let k = choose|k: int| #[trigger]
                between(i + 1, k, j) && e.spans(input, i, k) && e.iterates(input, k, j);
            assert(between(i, k, j) && e.spans(input, i, k) && rest_after(
                e,
                input,
                k,
                j,
                repeat,
            ));
        }
        if quantified(e, input, i, j, repeat, optional) && i != j {
            let k = choose|k: int| #[trigger]
                between(i, k, j) && e.spans(input, i, k) && rest_after(e, input, k, j, repeat);
            if k != i {
                assert(between(i + 1, k, j) && e.spans(input, i, k) && e.iterates(input, k, j));
            }
        }
    } else if repeat {
        if q.spans(input, i, j) {
            let k = choose|k: int| #[trigger]
                between(i, k, j) && e.spans(input, i, k) && e.iterates(input, k, j);
            assert(between(i, k, j) && e.spans(input, i, k) && rest_after(
                e,
                input,
                k,
                j,
                repeat,
            ));
        }
        if quantified(e, input, i, j, repeat, optional) {
            let k = choose|k: int| #[trigger]
                between(i, k, j) && e.spans(input, i, k) && rest_after(e, input, k, j, repeat);
            assert(between(i, k, j) && e.spans(input, i, k) && e.iterates(input, k, j));
        }
    } else {
        if q.spans(input, i, j) && i != j {
            lemma_spans_forward(e, input, i, j);
            assert(between(i, j, j) && e.spans(input, i, j) && rest_after(
                e,
                input,
                j,
                j,
                repeat,
            ));
        }
    }
}

/// A quantifier around a fragment denotes the star, the plus or the option
/// of what the fragment denotes.
pub proof fn lemma_wrap_denotes(
    states: Seq<StateModel>,
    inner: Fragment,
    lo: int,
    e: Expr,
    repeat: bool,
    optional: bool,
)
    requires
        placed(states, inner, lo),
        states.len() == inner.out + 1,
        denotes_at(states, inner, e),
        repeat || optional,
    ensures
        denotes_at(
            quantifier_states(states, inner, repeat, optional),
            pair_fragment(states),
            quantifier_expr(e, repeat, optional),
        ),
{
    let new_states = quantifier_states(states, inner, repeat, optional);
    let f = pair_fragment(states);
    let q = quantifier_expr(e, repeat, optional);
    assert forall|input: Seq<char>, i: int, j: int|
        reaches(new_states, input, (i, f.start), (j, f.out)) <==> q.spans(input, i, j) by {
        lemma_quantified(e, input, i, j, repeat, optional);
        if reaches(new_states, input, (i, f.start), (j, f.out)) {
            lemma_wrap_sound(states, inner, lo, e, repeat, optional, input, i, j);
        }
        if q.spans(input, i, j) {
            lemma_wrap_complete(states, inner, lo, e, repeat, optional, input, i, j);
        }
    }
}

/// A fragment whose part of the arena is unchanged denotes what it denoted.
pub proof fn lemma_kept_denotes(
    states: Seq<StateModel>,
    new_states: Seq<StateModel>,
    f: Fragment,
    lo: int,
    e: Expr,
)
    requires
        placed(states, f, lo),
        denotes_at(states, f, e),
        f.out + 1 <= new_states.len(),
        forall|s: int| lo <= s <= f.out ==> #[trigger] new_states[s] == states[s],
    ensures
        denotes_at(new_states, f, e),
{
    assert forall|input: Seq<char>, i: int, j: int|
        reaches(new_states, input, (i, f.start), (j, f.out)) <==> e.spans(input, i, j) by {
        lemma_reaches_in_kept_part(
            states,
            new_states,
            input,
            lo,
            f.out + 1,
            (i, f.start),
            (j, f.out),
        );
    }
}

/// Every fragment of the stack denotes the expression at its place.
pub open spec fn stack_denotes(c: Construction, exprs: Seq<Expr>) -> bool {
    &&& exprs.len() == c.fragments.len()
    &&& forall|k: int|
        0 <= k < c.fragments.len() ==> denotes_at(c.states, #[trigger] c.fragments[k], exprs[k])
}

/// The fragments below the operands of a token denote what they denoted.
pub proof fn lemma_lower_fragments_denote(
    c: Construction,
    d: Construction,
    exprs: Seq<Expr>,
    m: int,
)
    requires
        c.structured(),
        stack_denotes(c, exprs),
        0 <= m <= c.fragments.len(),
        m <= d.fragments.len(),
        forall|k: int| 0 <= k < m ==> #[trigger] d.fragments[k] == c.fragments[k],
        agree_below(c.states, d.states, c.low(m)),
    ensures
        forall|k: int| 0 <= k < m ==> denotes_at(d.states, #[trigger] d.fragments[k], exprs[k]),
{
    assert forall|k: int| 0 <= k < m implies denotes_at(
        d.states,
        #[trigger] d.fragments[k],
        exprs[k],
    ) by {
        assert(c.fits(k));
        lemma_low_step(c, k, m);
        lemma_kept_denotes(c.states, d.states, c.fragments[k], c.low(k), exprs[k]);
    }
}

/// One token of a postfix sequence whose operands are on the stack leaves
/// fragments that denote the expressions that the token leaves.
pub proof fn lemma_step_denotes(c: Construction, exprs: Seq<Expr>, token: Token)
    requires
        c.structured(),
        stack_denotes(c, exprs),
        arity(token) is Some,
        c.fragments.len() >= arity(token)->Some_0,
    ensures
        stack_denotes(c.step(token), expr_step(exprs, token)),
{
    let d = c.step(token);
    let after = expr_step(exprs, token);
    let n = c.fragments.len() as int;
    let m = n - arity(token)->Some_0;
    lemma_step_structured(c, token);
    lemma_low_grows(c, m);
    assert(agree_below(c.states, d.states, c.low(m))) by {
        if m < n {
            lemma_low_step(c, m, n);
            assert(c.fits(m));
        }
    }
    lemma_lower_fragments_denote(c, d, exprs, m);
    assert(denotes_at(d.states, d.fragments[m], after[m])) by {
        match token {
            Token::Letter(x) => {
                lemma_single_denotes(c.states, TransitionLabel::Letter(x));
            },
            Token::Wildcard => {
                lemma_single_denotes(c.states, TransitionLabel::Wildcard);
            },
            Token::Concatenation => {
                assert(c.fits(m));
                assert(c.fits(m + 1));
                lemma_concat_denotes(
                    c.states,
                    c.fragments[m],
                    c.fragments[m + 1],
                    c.low(m),
                    exprs[m],
                    exprs[m + 1],
                );
            },
            Token::Union => {
                assert(c.fits(m));
                assert(c.fits(m + 1));
                lemma_union_denotes(
                    c.states,
                    c.fragments[m + 1],
                    c.fragments[m],
                    c.low(m),
                    exprs[m + 1],
                    exprs[m],
                );
            },
            Token::KleeneQuantifier => {
                assert(c.fits(m));
                lemma_wrap_denotes(c.states, c.fragments[m], c.low(m), exprs[m], true, true);
            },
            Token::PositiveQuantifier => {
                assert(c.fits(m));
                lemma_wrap_denotes(c.states, c.fragments[m], c.low(m), exprs[m], true, false);
            },
            Token::OptionalQuantifier => {
                assert(c.fits(m));
                lemma_wrap_denotes(c.states, c.fragments[m], c.low(m), exprs[m], false, true);
            },
            _ => {},
        }
    }
    assert forall|k: int| 0 <= k < d.fragments.len() implies denotes_at(
        d.states,
        #[trigger] d.fragments[k],
        after[k],
    ) by {
        if k < m {
            assert(after[k] == exprs[k]);
        }
    }
}

/// After a prefix of a postfix sequence that leaves a stack, every fragment
/// denotes the expression at its place of the stack of expressions.
pub proof fn lemma_run_denotes(postfix: Seq<Token>, n: int)
    requires
        0 <= n,
        postfix_depth(postfix, n) is Some,
    ensures
        stack_denotes(Construction::run(postfix, n), expr_stack(postfix, n)),
    decreases n,
{
    if n > 0 {
        lemma_run_denotes(postfix, n - 1);
        lemma_run_structured(postfix, n - 1);
        lemma_step_denotes(
            Construction::run(postfix, n - 1),
            expr_stack(postfix, n - 1),
            postfix[n - 1],
        );
    }
}

/// Thompson construction is right: the automaton of a well-formed postfix
/// sequence accepts exactly the inputs that the expression of the sequence
/// denotes.
pub proof fn lemma_automaton_denotes(postfix: Seq<Token>, input: Seq<char>)
    requires
        well_formed_postfix(postfix),
    ensures
        nfa_of_postfix(postfix).accepts(input) <==> expr_of_postfix(postfix).denotes(input),
{
    let c = Construction::run(postfix, postfix.len() as int);
    let nfa = nfa_of_postfix(postfix);
    let e = expr_of_postfix(postfix);
    let whole = c.fragments[0];
    lemma_run_structured(postfix, postfix.len() as int);
    lemma_run_denotes(postfix, postfix.len() as int);
    assert(c.fits(0));
    let from: Config = (0, whole.start);
    let to: Config = (input.len() as int, whole.out);
    if nfa.accepts(input) {
        let q = choose|q: int| nfa.accepts_in(input, q);
        assert(q == whole.out);
        lemma_reaches_extends(nfa.states, c.states, input, from, to);
    }
    if e.denotes(input) {
        lemma_reaches_extends(c.states, nfa.states, input, from, to);
        assert(nfa.accepts_in(input, whole.out));
    }
}

} // verus!
