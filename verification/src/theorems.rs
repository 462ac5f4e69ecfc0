//! What holds of compiling and matching as a whole.

use crate::automaton::NfaModel;
use crate::correctness::lemma_automaton_denotes;
use crate::nfa::{pattern_expr, spec_compile};
use crate::parse::{
    spec_postfix, spec_tokens, tokens_of_prefix, Conversion, PatternError, Token,
};
use crate::syntax::{
    expr_of_postfix, expr_stack, lemma_nullable, postfix_depth, well_formed_postfix, Expr,
};
use crate::validation::{
    escapes_keep_apart, lemma_separated_converts_well, lemma_tokens_separated,
};
use vstd::prelude::*;

verus! {

/// The automaton of a pattern accepts exactly the inputs that the expression
/// of the pattern denotes.
pub proof fn compiled_automaton_accepts_what_pattern_denotes(
    pattern: Seq<char>,
    input: Seq<char>,
)
    requires
        spec_compile(pattern) is Some,
    ensures
        spec_compile(pattern)->Some_0.accepts(input) <==> pattern_expr(pattern).denotes(input),
{
    lemma_automaton_denotes(spec_postfix(spec_tokens(pattern))->Ok_0, input);
}

/// Compiling the same pattern again gives an automaton with the same answer
/// on every input.
pub proof fn recompiling_gives_same_answers(
    pattern: Seq<char>,
    first: NfaModel,
    second: NfaModel,
    input: Seq<char>,
)
    requires
        spec_compile(pattern) == Some(first),
        spec_compile(pattern) == Some(second),
    ensures
        first.accepts(input) == second.accepts(input),
{
}

/// The automaton of a pattern accepts the empty input exactly where the
/// pattern denotes it, which is where the expression of the pattern is
/// nullable.
pub proof fn empty_input_is_accepted_where_pattern_is_nullable(pattern: Seq<char>)
    requires
        spec_compile(pattern) is Some,
    ensures
        spec_compile(pattern)->Some_0.accepts(Seq::empty()) <==> pattern_expr(pattern).denotes(
            Seq::empty(),
        ),
        spec_compile(pattern)->Some_0.accepts(Seq::empty()) <==> pattern_expr(pattern).nullable(),
{
    compiled_automaton_accepts_what_pattern_denotes(pattern, Seq::empty());
    lemma_nullable(pattern_expr(pattern), Seq::empty(), 0);
}

/// The pattern of the wildcard alone compiles, and its automaton accepts
/// every input of one character, whatever the character is.
pub proof fn wildcard_accepts_any_single_character(c: char)
    ensures
        spec_compile(seq!['.']) is Some,
        spec_compile(seq!['.'])->Some_0.accepts(seq![c]),
{
    let pattern = seq!['.'];
    let tokens = seq![Token::Wildcard];
    assert(spec_tokens(pattern) == tokens) by {
        reveal_with_fuel(tokens_of_prefix, 2);
    }
    assert(spec_postfix(tokens) == Ok::<Seq<Token>, PatternError>(tokens)) by {
        reveal_with_fuel(Conversion::scan, 2);
    }
    assert(well_formed_postfix(tokens)) by {
        reveal_with_fuel(postfix_depth, 2);
    }
    assert(expr_of_postfix(tokens) == Expr::Any) by {
        reveal_with_fuel(expr_stack, 2);
    }
    lemma_automaton_denotes(tokens, seq![c]);
}

/// A pattern in which no escaped character is a bar or an open parenthesis
/// compiles exactly where its tokens convert to postfix order: every
/// operator of the postfix sequence then finds its operands.
pub proof fn pattern_compiles_where_its_tokens_convert(pattern: Seq<char>)
    requires
        escapes_keep_apart(pattern),
    ensures
        spec_compile(pattern) is Some <==> spec_postfix(spec_tokens(pattern)) is Ok,
{
    if spec_postfix(spec_tokens(pattern)) is Ok {
        lemma_tokens_separated(pattern);
        lemma_separated_converts_well(spec_tokens(pattern));
    }
}

} // verus!
