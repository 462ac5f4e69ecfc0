//! What the count of complete expressions guarantees: where no two operands
//! stand side by side without an operator between them, a token sequence
//! that converts to postfix order converts to a well-formed postfix sequence.

use crate::parse::{
    escaped_at, spec_postfix, spec_tokens, tokens_at, tokens_of_prefix, Conversion, Token,
};
use crate::syntax::{arity, postfix_depth, well_formed_postfix};
use vstd::prelude::*;

verus! {

/// The tokens after which an operand is complete.
pub open spec fn ends_operand(token: Token) -> bool {
    match token {
        Token::Letter(_) => true,
        Token::Wildcard => true,
        Token::CloseParenthesis => true,
        Token::KleeneQuantifier => true,
        Token::PositiveQuantifier => true,
        Token::OptionalQuantifier => true,
        _ => false,
    }
}

/// The tokens with which an operand begins.
pub open spec fn starts_operand(token: Token) -> bool {
    match token {
        Token::Letter(_) => true,
        Token::Wildcard => true,
        Token::OpenParenthesis => true,
        _ => false,
    }
}

/// No operand begins right after the end of another: an operator stands
/// between any two operands.
pub open spec fn separated(tokens: Seq<Token>) -> bool {
    forall|i: int|
        0 <= i < tokens.len() - 1 ==> !(ends_operand(#[trigger] tokens[i]) && starts_operand(
            tokens[i + 1],
        ))
}

/// The operators that stand between two operands.
pub open spec fn is_binary(token: Token) -> bool {
    token == Token::Concatenation || token == Token::Union
}

/// The operators that stand after their operand.
pub open spec fn is_quantifier(token: Token) -> bool {
    token == Token::KleeneQuantifier || token == Token::PositiveQuantifier || token
        == Token::OptionalQuantifier
}

/// The sum of the numbers of a sequence.
pub open spec fn sum(numbers: Seq<int>) -> int
    decreases numbers.len(),
{
    if numbers.len() == 0 {
        0
    } else {
        sum(numbers.drop_last()) + numbers.last()
    }
}

/// How the counts stand to the operators that wait on the stack. At every
/// nesting level, each waiting two-operand operator will take one expression
/// away; what is then left of the count of the level is compared with the
/// number of operands that the level may hold without an operator that
/// waits for them: `h` at the current level, 0 at the enclosing ones. With
/// `exactly` the two are equal, else the count is at most that number.
/// Every open parenthesis on the stack has its saved count.
pub open spec fn balanced(
    operators: Seq<Token>,
    saved: Seq<int>,
    count: int,
    h: int,
    exactly: bool,
) -> bool
    decreases operators.len(),
{
    if operators.len() == 0 {
        saved.len() == 0 && if exactly {
            count == h
        } else {
            count <= h
        }
    } else if operators.last() == Token::OpenParenthesis {
        &&& saved.len() > 0
        &&& if exactly {
            count == h
        } else {
            count <= h
        }
        &&& balanced(operators.drop_last(), saved.drop_last(), saved.last(), 0, exactly)
    } else if is_binary(operators.last()) {
        balanced(operators.drop_last(), saved, count - 1, h, exactly)
    } else {
        is_quantifier(operators.last()) && balanced(operators.drop_last(), saved, count, h, exactly)
    }
}

/// Adding the same number to the count and to what it is compared with
/// changes nothing.
pub proof fn lemma_balanced_shift(
    operators: Seq<Token>,
    saved: Seq<int>,
    count: int,
    h: int,
    d: int,
    exactly: bool,
)
    ensures
        balanced(operators, saved, count + d, h + d, exactly) == balanced(
            operators,
            saved,
            count,
            h,
            exactly,
        ),
    decreases operators.len(),
{
    if operators.len() > 0 && operators.last() != Token::OpenParenthesis {
        if is_binary(operators.last()) {
            lemma_balanced_shift(operators.drop_last(), saved, count - 1, h, d, exactly);
        } else {
            lemma_balanced_shift(operators.drop_last(), saved, count, h, d, exactly);
        }
    }
}

/// A count that is at most `h` is at most every larger number.
pub proof fn lemma_balanced_mono(
    operators: Seq<Token>,
    saved: Seq<int>,
    count: int,
    h: int,
    h2: int,
)
    requires
        balanced(operators, saved, count, h, false),
        h <= h2,
    ensures
        balanced(operators, saved, count, h2, false),
    decreases operators.len(),
{
    if operators.len() > 0 && operators.last() != Token::OpenParenthesis {
        if is_binary(operators.last()) {
            lemma_balanced_mono(operators.drop_last(), saved, count - 1, h, h2);
        } else {
            lemma_balanced_mono(operators.drop_last(), saved, count, h, h2);
        }
    }
}

/// Counts that are equal to what they are compared with are at most that.
pub proof fn lemma_exact_is_balanced(operators: Seq<Token>, saved: Seq<int>, count: int, h: int)
    requires
        balanced(operators, saved, count, h, true),
    ensures
        balanced(operators, saved, count, h, false),
    decreases operators.len(),
{
    if operators.len() > 0 {
        if operators.last() == Token::OpenParenthesis {
            lemma_exact_is_balanced(operators.drop_last(), saved.drop_last(), saved.last(), 0);
        } else if is_binary(operators.last()) {
            lemma_exact_is_balanced(operators.drop_last(), saved, count - 1, h);
        } else {
            lemma_exact_is_balanced(operators.drop_last(), saved, count, h);
        }
    }
}

/// A count of the current level that is at most `h` is not equal to a
/// larger number.
pub proof fn lemma_exact_within(
    operators: Seq<Token>,
    saved: Seq<int>,
    count: int,
    h: int,
    h2: int,
)
    requires
        balanced(operators, saved, count, h, false),
        balanced(operators, saved, count, h2, true),
    ensures
        h2 <= h,
    decreases operators.len(),
{
    if operators.len() > 0 && operators.last() != Token::OpenParenthesis {
        if is_binary(operators.last()) {
            lemma_exact_within(operators.drop_last(), saved, count - 1, h, h2);
        } else {
            lemma_exact_within(operators.drop_last(), saved, count, h, h2);
        }
    }
}

/// Where the counts are equal to what they are compared with, none of them
/// is negative.
pub proof fn lemma_exact_counts(operators: Seq<Token>, saved: Seq<int>, count: int, h: int)
    requires
        balanced(operators, saved, count, h, true),
        h >= 0,
    ensures
        count >= h,
        sum(saved) >= 0,
    decreases operators.len(),
{
    if operators.len() == 0 {
        assert(sum(saved) == 0);
    } else if operators.last() == Token::OpenParenthesis {
        lemma_exact_counts(operators.drop_last(), saved.drop_last(), saved.last(), 0);
    } else if is_binary(operators.last()) {
        lemma_exact_counts(operators.drop_last(), saved, count - 1, h);
    } else {
        lemma_exact_counts(operators.drop_last(), saved, count, h);
    }
}

/// How many expressions a postfix sequence leaves, if every operator in it
/// finds its operands.
pub open spec fn whole_depth(postfix: Seq<Token>) -> Option<int> {
    postfix_depth(postfix, postfix.len() as int)
}

/// A prefix leaves what it leaves, whatever follows it.
pub proof fn lemma_depth_ignores_rest(postfix: Seq<Token>, token: Token, n: int)
    requires
        0 <= n <= postfix.len(),
    ensures
        postfix_depth(postfix.push(token), n) == postfix_depth(postfix, n),
    decreases n,
{
    if n > 0 {
        lemma_depth_ignores_rest(postfix, token, n - 1);
    }
}

/// What a postfix sequence leaves after one more token.
pub proof fn lemma_depth_of_push(postfix: Seq<Token>, token: Token)
    ensures
        whole_depth(postfix.push(token)) == match (whole_depth(postfix), arity(token)) {
            (Some(depth), Some(taken)) => if depth >= taken {
                Some(depth - taken + 1)
            } else {
                None
            },
            _ => None,
        },
{
    lemma_depth_ignores_rest(postfix, token, postfix.len() as int);
}

/// What holds between two tokens of a separated sequence. `h` is 1 after a
/// token that ends an operand, else 0. The counts are at most what the
/// waiting operators allow; and where they are equal to it, the postfix
/// output so far is in order and leaves as many expressions as the counts
/// of all levels say.
pub open spec fn counted(state: Conversion, h: int) -> bool {
    &&& h == 0 || h == 1
    &&& balanced(state.operators, state.saved, state.count, h, false)
    &&& balanced(state.operators, state.saved, state.count, h, true) ==> whole_depth(
        state.postfix,
    ) == Some(state.count + sum(state.saved))
}

/// What holds while operators are emitted: as `counted`, but the postfix
/// output is known to be in order only after a token that ends an operand.
pub open spec fn emitting(state: Conversion, h: int) -> bool {
    &&& h == 0 || h == 1
    &&& balanced(state.operators, state.saved, state.count, h, false)
    &&& h == 1 && balanced(state.operators, state.saved, state.count, h, true) ==> whole_depth(
        state.postfix,
    ) == Some(state.count + sum(state.saved))
}

/// Emitting the operator on top of the stack keeps the counts as they
/// stand to the stack, and the output in order.
pub proof fn lemma_emit_top(state: Conversion, h: int)
    requires
        emitting(state, h),
        state.operators.len() > 0,
        state.operators.last() != Token::OpenParenthesis,
    ensures
        emitting(state.emit_top(), h),
        balanced(state.emit_top().operators, state.saved, state.emit_top().count, h, true)
            == balanced(state.operators, state.saved, state.count, h, true),
        state.emit_top().saved == state.saved,
{
    let next = state.emit_top();
    let top = state.operators.last();
    if h == 1 && balanced(next.operators, next.saved, next.count, h, true) {
        lemma_exact_counts(next.operators, next.saved, next.count, h);
        lemma_depth_of_push(state.postfix, top);
    }
}

/// Emitting the operators that leave the stack before a token is pushed
/// keeps the counts as they stand to the stack, and the output in order.
pub proof fn lemma_emit_before(state: Conversion, h: int, incoming: Token)
    requires
        emitting(state, h),
    ensures
        emitting(state.emit_before(incoming), h),
        balanced(
            state.emit_before(incoming).operators,
            state.saved,
            state.emit_before(incoming).count,
            h,
            true,
        ) == balanced(state.operators, state.saved, state.count, h, true),
        state.emit_before(incoming).saved == state.saved,
    decreases state.operators.len(),
{
    if state.operators.len() > 0 && state.operators.last() != Token::OpenParenthesis
        && state.operators.last().binds_before(incoming) {
        lemma_emit_top(state, h);
        lemma_emit_before(state.emit_top(), h, incoming);
    }
}

/// Emitting the operators of the innermost group keeps the counts as they
/// stand to the stack, and the output in order; an open parenthesis is then
/// on top of the stack, or the stack is empty.
pub proof fn lemma_emit_group(state: Conversion, h: int)
    requires
        emitting(state, h),
    ensures
        emitting(state.emit_group(), h),
        balanced(
            state.emit_group().operators,
            state.saved,
            state.emit_group().count,
            h,
            true,
        ) == balanced(state.operators, state.saved, state.count, h, true),
        state.emit_group().saved == state.saved,
        state.emit_group().operators.len() == 0 || state.emit_group().operators.last()
            == Token::OpenParenthesis,
    decreases state.operators.len(),
{
    if state.operators.len() > 0 && state.operators.last() != Token::OpenParenthesis {
        lemma_emit_top(state, h);
        lemma_emit_group(state.emit_top(), h);
    }
}

/// Emitting operators leaves the saved counts alone.
pub proof fn lemma_emit_all_keeps_saved(state: Conversion)
    ensures
        state.emit_all().saved == state.saved,
    decreases state.operators.len(),
{
    if state.operators.len() > 0 {
        lemma_emit_all_keeps_saved(state.emit_top());
    }
}

/// Where no group is open, emitting all operators is emitting the
/// operators of the innermost group, and empties the stack.
pub proof fn lemma_emit_all(state: Conversion, h: int)
    requires
        balanced(state.operators, state.saved, state.count, h, false),
        state.saved.len() == 0,
    ensures
        state.emit_all() == state.emit_group(),
        state.emit_all().operators.len() == 0,
    decreases state.operators.len(),
{
    if state.operators.len() > 0 {
        lemma_emit_all(state.emit_top(), h);
    }
}

/// 1 after a token that ends an operand, else 0.
pub open spec fn after(token: Token) -> int {
    if ends_operand(token) {
        1
    } else {
        0
    }
}

/// One token that does not begin an operand right after the end of another
/// keeps what holds between two tokens.
pub proof fn lemma_step_counted(state: Conversion, h: int, token: Token)
    requires
        counted(state, h),
        !(h == 1 && starts_operand(token)),
        state.step(token) is Ok,
    ensures
        counted(state.step(token)->Ok_0, after(token)),
{
    let next = state.step(token)->Ok_0;
    let h2 = after(token);
    match token {
        Token::Letter(_) | Token::Wildcard => {
            lemma_balanced_shift(state.operators, state.saved, state.count, 0, 1, false);
            lemma_balanced_shift(state.operators, state.saved, state.count, 0, 1, true);
            lemma_depth_of_push(state.postfix, token);
        },
        Token::OpenParenthesis => {
            assert(next.operators.drop_last() =~= state.operators);
            assert(next.saved.drop_last() =~= state.saved);
        },
        Token::CloseParenthesis => {
            let group = state.emit_group();
            lemma_emit_group(state, h);
            let below = group.operators.drop_last();
            let outer = group.saved.drop_last();
            let restored = group.saved.last();
            lemma_balanced_shift(below, outer, restored, 0, 1, false);
            lemma_balanced_shift(below, outer, restored, 0, 1, true);
        },
        _ => {
            let lower = state.emit_before(token);
            lemma_emit_before(state, h, token);
            lemma_balanced_mono(lower.operators, lower.saved, lower.count, h, 1);
            assert(next.operators.drop_last() =~= lower.operators);
            if is_binary(token) {
                lemma_balanced_shift(lower.operators, lower.saved, lower.count - 1, 0, 1, false);
                lemma_balanced_shift(lower.operators, lower.saved, lower.count - 1, 0, 1, true);
            }
            if balanced(next.operators, next.saved, next.count, h2, true) {
                lemma_exact_within(lower.operators, lower.saved, lower.count, h, 1);
            }
        },
    }
}

/// Between any two tokens of a separated sequence that converts so far, the
/// counts stand to the stack as `counted` says.
pub proof fn lemma_scan_counted(tokens: Seq<Token>, n: int)
    requires
        separated(tokens),
        0 <= n <= tokens.len(),
        Conversion::scan(tokens, n) is Ok,
    ensures
        counted(
            Conversion::scan(tokens, n)->Ok_0,
            if n > 0 {
                after(tokens[n - 1])
            } else {
                0
            },
        ),
    decreases n,
{
    if n > 0 {
        lemma_scan_counted(tokens, n - 1);
        let before = Conversion::scan(tokens, n - 1)->Ok_0;
        let h = if n > 1 {
            after(tokens[n - 2])
        } else {
            0
        };
        lemma_step_counted(before, h, tokens[n - 1]);
    }
}

/// A separated token sequence that converts to postfix order converts to a
/// well-formed postfix sequence: the count of complete expressions is then
/// enough to know that every operator finds its operands.
pub proof fn lemma_separated_converts_well(tokens: Seq<Token>)
    requires
        separated(tokens),
        spec_postfix(tokens) is Ok,
    ensures
        well_formed_postfix(spec_postfix(tokens)->Ok_0),
{
    let n = tokens.len() as int;
    lemma_scan_counted(tokens, n);
    let state = Conversion::scan(tokens, n)->Ok_0;
    let h = if n > 0 {
        after(tokens[n - 1])
    } else {
        0
    };
    lemma_emit_all_keeps_saved(state);
    lemma_emit_all(state, h);
    lemma_emit_group(state, h);
}

/// Two separated sequences in a row are separated where the second does
/// not begin an operand right after the first has ended one.
pub proof fn lemma_separated_join(first: Seq<Token>, second: Seq<Token>)
    requires
        separated(first),
        separated(second),
        first.len() > 0 && second.len() > 0 ==> !(ends_operand(first.last()) && starts_operand(
            second[0],
        )),
    ensures
        separated(first + second),
{
    let both = first + second;
    assert forall|i: int| 0 <= i < both.len() - 1 implies !(ends_operand(#[trigger] both[i])
        && starts_operand(both[i + 1])) by {}
}

/// No escaped character of the pattern is a bar or an open parenthesis.
/// After such a character the tokenizer puts no concatenation, so that two
/// operands can come to stand side by side.
pub open spec fn escapes_keep_apart(pattern: Seq<char>) -> bool {
    forall|i: int|
        0 <= i < pattern.len() && #[trigger] escaped_at(pattern, i) ==> pattern[i] != '|'
            && pattern[i] != '('
}

/// What holds of the tokens of a prefix of a pattern: they are separated,
/// and where the last of them ends an operand, the next character is read
/// unescaped, after a character that is neither a bar nor an open
/// parenthesis.
pub open spec fn prefix_separated(pattern: Seq<char>, n: int) -> bool {
    let tokens = tokens_of_prefix(pattern, n);
    &&& separated(tokens)
    &&& tokens.len() > 0 && ends_operand(tokens.last()) ==> n > 0 && !escaped_at(pattern, n)
        && pattern[n - 1] != '|' && pattern[n - 1] != '('
}

/// The tokens of every prefix of a pattern are separated, where no escaped
/// character of the pattern is a bar or an open parenthesis.
pub proof fn lemma_prefix_separated(pattern: Seq<char>, n: int)
    requires
        escapes_keep_apart(pattern),
        0 <= n <= pattern.len(),
    ensures
        prefix_separated(pattern, n),
    decreases n,
{
    if n > 0 {
        let i = n - 1;
        lemma_prefix_separated(pattern, i);
        let before = tokens_of_prefix(pattern, i);
        let here = tokens_at(pattern, i);
        let escaped = escaped_at(pattern, i);
        assert(escaped ==> pattern[i] != '|' && pattern[i] != '(');
        lemma_separated_join(before, here);
    }
}

/// The tokens of a pattern are separated, where no escaped character of
/// the pattern is a bar or an open parenthesis.
pub proof fn lemma_tokens_separated(pattern: Seq<char>)
    requires
        escapes_keep_apart(pattern),
    ensures
        separated(spec_tokens(pattern)),
{
    lemma_prefix_separated(pattern, pattern.len() as int);
}

} // verus!
