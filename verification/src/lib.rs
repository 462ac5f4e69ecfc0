//! A small regular-expression engine: patterns are tokenized, validated and
//! reordered into postfix form, compiled into a nondeterministic finite
//! automaton by Thompson construction, and matched by simulating the automaton.
//!
//! The pattern syntax has literal characters, the wildcard `.`, union `|`,
//! the quantifiers `*`, `+` and `?`, grouping parentheses, and the backslash
//! that makes the next character a literal.
//!
//! - `parse`: tokens, the tokenizer, the conversion to postfix order.
//! - `syntax`: expressions, what they denote, the expression of a postfix
//!   sequence.
//! - `automaton`: the model of an automaton and of its runs.
//! - `thompson`: the construction on the model.
//! - `nfa`: the automaton as it is stored, built and matched.
//! - `search`: what holds during the search of the matcher.
//! - `runs`, `correctness`: the automaton accepts what the expression
//!   denotes.
//! - `validation`: what the count of the conversion guarantees.
//! - `theorems`: what holds of compiling and matching as a whole.

pub mod automaton;
pub mod correctness;
pub mod nfa;
pub mod parse;
pub mod runs;
pub mod search;
pub mod syntax;
pub mod theorems;
pub mod thompson;
pub mod validation;

use crate::automaton::NfaModel;
use crate::nfa::{pattern_expr, spec_compile, NFA};
use vstd::prelude::*;

verus! {

/// A compiled pattern.
pub struct Regex {
    nfa: NFA,
}

impl View for Regex {
    type V = NfaModel;

    closed spec fn view(&self) -> NfaModel {
        self.nfa@
    }
}

impl Regex {
    /// Compiles a pattern. The result is `None` where the pattern is not one
    /// well-formed expression; else it accepts exactly the inputs that the
    /// expression of the pattern denotes.
    pub fn new(pattern: String) -> (r: Option<Regex>)
        ensures
            match r {
                Some(regex) => {
                    &&& spec_compile(pattern@) == Some(regex@)
                    &&& regex@.wf()
                    &&& regex@.has_one_accepting_state()
                    &&& forall|input: Seq<char>|
                        #![trigger regex@.accepts(input)]
                        regex@.accepts(input) <==> pattern_expr(pattern@).denotes(input)
                },
                None => spec_compile(pattern@) is None,
            },
    {
        match NFA::from_regex(&pattern) {
            Some(nfa) => Some(Regex { nfa }),
            None => None,
        }
    }

    /// Whether the pattern matches the whole of `input`.
    #[allow(non_snake_case)]
    pub fn isMatch(&self, input: String) -> (r: bool)
        ensures
            r == self@.accepts(input@),
    {
        self.nfa.is_match(&input)
    }
}

} // verus!
