//! What a pattern means: the expression that a postfix token sequence
//! describes, and the set of inputs that an expression denotes.

use crate::parse::Token;
use vstd::prelude::*;

verus! {

/// A regular expression as a tree.
pub enum Expr {
    /// Exactly the given character.
    Letter(char),
    /// Any one character.
    Any,
    /// The first, then the second.
    Concat(Box<Expr>, Box<Expr>),
    /// The first or the second.
    Union(Box<Expr>, Box<Expr>),
    /// Zero or more repetitions.
    Star(Box<Expr>),
    /// One or more repetitions.
    Plus(Box<Expr>),
    /// Zero or one occurrence.
    Optional(Box<Expr>),
}

/// `k` lies between `i` and `j`.
pub open spec fn between(i: int, k: int, j: int) -> bool {
    i <= k <= j
}

impl Expr {
    /// Whether the expression denotes the part of `input` from position `i`
    /// up to position `j`.
    pub open spec fn spans(self, input: Seq<char>, i: int, j: int) -> bool
        decreases self, 0int, 0int,
    {
        match self {
            Expr::Letter(c) => 0 <= i < input.len() && input[i] == c && j == i + 1,
            Expr::Any => 0 <= i < input.len() && j == i + 1,
            Expr::Concat(a, b) => exists|k: int| #[trigger]
                between(i, k, j) && a.spans(input, i, k) && b.spans(input, k, j),
            Expr::Union(a, b) => a.spans(input, i, j) || b.spans(input, i, j),
            Expr::Star(a) => a.iterates(input, i, j),
            Expr::Plus(a) => exists|k: int| #[trigger]
                between(i, k, j) && a.spans(input, i, k) && a.iterates(input, k, j),
            Expr::Optional(a) => i == j || a.spans(input, i, j),
        }
    }

    /// Whether the part of `input` from `i` up to `j` is any number of parts
    /// in a row that the expression denotes: it is empty, or a first part
    /// that is not empty is followed by such parts.
    pub open spec fn iterates(self, input: Seq<char>, i: int, j: int) -> bool
        decreases self, 1int, j - i,
    {
        i == j || exists|k: int| #[trigger]
            between(i + 1, k, j) && self.spans(input, i, k) && self.iterates(input, k, j)
    }

    /// Whether the expression denotes the whole of `input`.
    pub open spec fn denotes(self, input: Seq<char>) -> bool {
        self.spans(input, 0, input.len() as int)
    }

    /// Whether the expression denotes the empty input, decided by the shape
    /// of the expression alone.
    pub open spec fn nullable(self) -> bool
        decreases self,
    {
        match self {
            Expr::Letter(_) => false,
            Expr::Any => false,
            Expr::Concat(a, b) => a.nullable() && b.nullable(),
            Expr::Union(a, b) => a.nullable() || b.nullable(),
            Expr::Star(_) => true,
            Expr::Plus(a) => a.nullable(),
            Expr::Optional(_) => true,
        }
    }
}

/// What an expression denotes does not end before it begins.
pub proof fn lemma_spans_forward(e: Expr, input: Seq<char>, i: int, j: int)
    requires
        e.spans(input, i, j),
    ensures
        i <= j,
    decreases e,
{
    match e {
        Expr::Union(a, b) => {
            if a.spans(input, i, j) {
                lemma_spans_forward(*a, input, i, j);
            } else {
                lemma_spans_forward(*b, input, i, j);
            }
        },
        Expr::Star(a) => {
            assert(a.iterates(input, i, j));
        },
        Expr::Optional(a) => {
            if i != j {
                lemma_spans_forward(*a, input, i, j);
            }
        },
        _ => {},
    }
}

/// An expression denotes the empty part at a position exactly where it is
/// nullable.
pub proof fn lemma_nullable(e: Expr, input: Seq<char>, i: int)
    ensures
        e.spans(input, i, i) == e.nullable(),
    decreases e,
{
    match e {
        Expr::Concat(a, b) => {
            lemma_nullable(*a, input, i);
            lemma_nullable(*b, input, i);
            if a.nullable() && b.nullable() {
                assert(between(i, i, i) && a.spans(input, i, i) && b.spans(input, i, i));
            }
        },
        Expr::Union(a, b) => {
            lemma_nullable(*a, input, i);
            lemma_nullable(*b, input, i);
        },
        Expr::Plus(a) => {
            lemma_nullable(*a, input, i);
            if a.nullable() {
                assert(between(i, i, i) && a.spans(input, i, i) && a.iterates(input, i, i));
            }
        },
        Expr::Star(a) => {
            assert(a.iterates(input, i, i));
        },
        _ => {},
    }
}

/// How many operands a token of a postfix sequence takes from the stack.
/// Parentheses have no place in a postfix sequence.
pub open spec fn arity(token: Token) -> Option<int> {
    match token {
        Token::Letter(_) => Some(0),
        Token::Wildcard => Some(0),
        Token::Concatenation => Some(2),
        Token::Union => Some(2),
        Token::KleeneQuantifier => Some(1),
        Token::PositiveQuantifier => Some(1),
        Token::OptionalQuantifier => Some(1),
        Token::OpenParenthesis => None,
        Token::CloseParenthesis => None,
    }
}

/// How many expressions are on the stack after the first `n` tokens of a
/// postfix sequence, or `None` where one of them is a parenthesis or finds
/// too few operands.
pub open spec fn postfix_depth(postfix: Seq<Token>, n: int) -> Option<int>
    decreases n,
{
    if n <= 0 {
        Some(0)
    } else {
        match (postfix_depth(postfix, n - 1), arity(postfix[n - 1])) {
            (Some(depth), Some(taken)) => if depth >= taken {
                Some(depth - taken + 1)
            } else {
                None
            },
            _ => None,
        }
    }
}

/// A postfix sequence is well formed where every operator finds its operands
/// and exactly one expression is left at the end.
pub open spec fn well_formed_postfix(postfix: Seq<Token>) -> bool {
    postfix_depth(postfix, postfix.len() as int) == Some(1int)
}

/// The stack of expressions after one more token.
pub open spec fn expr_step(stack: Seq<Expr>, token: Token) -> Seq<Expr> {
    let n = stack.len() as int;
    match token {
        Token::Letter(c) => stack.push(Expr::Letter(c)),
        Token::Wildcard => stack.push(Expr::Any),
        Token::Concatenation => stack.take(n - 2).push(
            Expr::Concat(Box::new(stack[n - 2]), Box::new(stack[n - 1])),
        ),
        Token::Union => stack.take(n - 2).push(
            Expr::Union(Box::new(stack[n - 2]), Box::new(stack[n - 1])),
        ),
        Token::KleeneQuantifier => stack.take(n - 1).push(Expr::Star(Box::new(stack[n - 1]))),
        Token::PositiveQuantifier => stack.take(n - 1).push(Expr::Plus(Box::new(stack[n - 1]))),
        Token::OptionalQuantifier => stack.take(n - 1).push(
            Expr::Optional(Box::new(stack[n - 1])),
        ),
        Token::OpenParenthesis => stack,
        Token::CloseParenthesis => stack,
    }
}

/// The stack of expressions after the first `n` tokens of a postfix sequence.
pub open spec fn expr_stack(postfix: Seq<Token>, n: int) -> Seq<Expr>
    decreases n,
{
    if n <= 0 {
        Seq::empty()
    } else {
        expr_step(expr_stack(postfix, n - 1), postfix[n - 1])
    }
}

/// The expression that a well-formed postfix sequence describes.
pub open spec fn expr_of_postfix(postfix: Seq<Token>) -> Expr {
    expr_stack(postfix, postfix.len() as int)[0]
}

/// Where the first `n` tokens leave a stack, so does every shorter prefix.
pub proof fn lemma_depth_of_prefix(postfix: Seq<Token>, m: int, n: int)
    requires
        0 <= m <= n,
        postfix_depth(postfix, n) is Some,
    ensures
        postfix_depth(postfix, m) is Some,
    decreases n - m,
{
    if m < n {
        lemma_depth_of_prefix(postfix, m, n - 1);
    }
}

/// Decides whether a postfix sequence is well formed.
pub fn postfix_is_well_formed(postfix: &Vec<Token>) -> (r: bool)
    ensures
        r == well_formed_postfix(postfix@),
{
    let mut depth: usize = 0;
    let mut i: usize = 0;
    while i < postfix.len()
        invariant
            i <= postfix.len(),
            depth <= i,
            postfix_depth(postfix@, i as int) == Some(depth as int),
        decreases postfix.len() - i,
    {
        let taken: usize = match postfix[i] {
            Token::Letter(_) | Token::Wildcard => 0,
            Token::Concatenation | Token::Union => 2,
            Token::KleeneQuantifier | Token::PositiveQuantifier | Token::OptionalQuantifier => 1,
            Token::OpenParenthesis | Token::CloseParenthesis => {
                proof {
                    if postfix_depth(postfix@, postfix@.len() as int) is Some {
                        lemma_depth_of_prefix(postfix@, i + 1, postfix@.len() as int);
                    }
                }
                return false;
            },
        };
        if depth < taken {
            proof {
                if postfix_depth(postfix@, postfix@.len() as int) is Some {
                    lemma_depth_of_prefix(postfix@, i + 1, postfix@.len() as int);
                }
            }
            return false;
        }
        depth = depth - taken + 1;
        i += 1;
    }
    depth == 1
}

} // verus!
