//! Tokens of the pattern syntax, the tokenizer, and the conversion of a token
//! sequence into postfix order with its structural validation.

use vstd::prelude::*;

verus! {

/// One lexical unit of a pattern.
#[derive(Debug, Clone, Copy, PartialEq, Eq, Structural)]
pub enum Token {
    Letter(char),
    Wildcard,
    OpenParenthesis,
    CloseParenthesis,
    Concatenation,
    Union,
    KleeneQuantifier,
    PositiveQuantifier,
    OptionalQuantifier,
}

/// How operators of equal rank group.
#[derive(Debug, Clone, Copy, PartialEq, Eq, Structural)]
pub enum Associativity {
    Left,
    Right,
}

impl Token {
    /// Rank and associativity of a token in the operator table. A token that
    /// the table does not list has the highest rank, so that it never keeps
    /// an operator below it from being popped.
    pub open spec fn spec_precedence(self) -> (u8, Associativity) {
        match self {
            Token::KleeneQuantifier => (3u8, Associativity::Left),
            Token::PositiveQuantifier => (3u8, Associativity::Left),
            Token::OptionalQuantifier => (3u8, Associativity::Left),
            Token::Wildcard => (3u8, Associativity::Left),
            Token::Concatenation => (2u8, Associativity::Left),
            Token::Union => (1u8, Associativity::Left),
            _ => (4u8, Associativity::Left),
        }
    }

    /// Whether `self`, on top of the operator stack, leaves the stack before
    /// `other` is pushed: its rank is higher, or equal with `other` grouping
    /// to the left.
    pub open spec fn binds_before(self, other: Token) -> bool {
        let (rank, _) = self.spec_precedence();
        let (other_rank, other_associativity) = other.spec_precedence();
        rank > other_rank || (rank == other_rank && other_associativity == Associativity::Left)
    }

    /// What a token adds to the count of complete expressions once it stands
    /// in the postfix output: an operand adds one, a two-operand operator
    /// takes one away, a quantifier changes nothing, and a closed group
    /// counts as one operand of the enclosing level.
    pub open spec fn spec_count_diff(self) -> int {
        match self {
            Token::Letter(_) => 1,
            Token::Wildcard => 1,
            Token::CloseParenthesis => 1,
            Token::Concatenation => -1,
            Token::Union => -1,
            Token::KleeneQuantifier => 0,
            Token::PositiveQuantifier => 0,
            Token::OptionalQuantifier => 0,
            Token::OpenParenthesis => 0,
        }
    }

    /// Rank and associativity of the token in the operator table.
    pub fn precedence(&self) -> (r: (u8, Associativity))
        ensures
            r == self.spec_precedence(),
    {
        match self {
            Token::KleeneQuantifier => (3, Associativity::Left),
            Token::PositiveQuantifier => (3, Associativity::Left),
            Token::OptionalQuantifier => (3, Associativity::Left),
            Token::Wildcard => (3, Associativity::Left),
            Token::Concatenation => (2, Associativity::Left),
            Token::Union => (1, Associativity::Left),
            _ => (4, Associativity::Left),
        }
    }

    /// Whether the token, on top of the operator stack, is emitted before
    /// `other` is pushed.
    pub fn has_greater_precedence(&self, other: Token) -> (r: bool)
        ensures
            r == self.binds_before(other),
    {
        let (rank, _) = self.precedence();
        let (other_rank, other_associativity) = other.precedence();
        rank > other_rank || (rank == other_rank && other_associativity == Associativity::Left)
    }
}

/// The operators that stand after or between their operands, as opposed to
/// the grouping parentheses.
pub open spec fn spec_is_nongrouping_operator(c: char) -> bool {
    c == '|' || c == '*' || c == '?' || c == '+'
}

/// The operators that stand between two operands.
pub open spec fn spec_is_two_operand_operator(c: char) -> bool {
    c == '|'
}

/// Whether the character at `i` is read with the escape flag raised: the
/// character before it is a backslash that was itself read with the flag
/// down.
pub open spec fn escaped_at(pattern: Seq<char>, i: int) -> bool
    decreases i,
{
    if i <= 0 {
        false
    } else {
        pattern[i - 1] == '\\' && !escaped_at(pattern, i - 1)
    }
}

/// Whether an implicit concatenation is put in front of what the character
/// at `i` produces. The test looks at the raw characters on both sides, also
/// where one of them was escaped.
pub open spec fn concatenates_at(pattern: Seq<char>, i: int) -> bool {
    &&& i > 0
    &&& !escaped_at(pattern, i)
    &&& !spec_is_two_operand_operator(pattern[i - 1])
    &&& !spec_is_nongrouping_operator(pattern[i])
    &&& pattern[i - 1] != '('
    &&& pattern[i] != ')'
}

/// The token that one character stands for, if any. An unescaped backslash
/// stands for none: it only raises the escape flag for the next character.
pub open spec fn char_token(c: char, escaped: bool) -> Option<Token> {
    if escaped {
        Some(Token::Letter(c))
    } else if c == '\\' {
        None
    } else if c == '(' {
        Some(Token::OpenParenthesis)
    } else if c == ')' {
        Some(Token::CloseParenthesis)
    } else if c == '|' {
        Some(Token::Union)
    } else if c == '*' {
        Some(Token::KleeneQuantifier)
    } else if c == '?' {
        Some(Token::OptionalQuantifier)
    } else if c == '+' {
        Some(Token::PositiveQuantifier)
    } else if c == '.' {
        Some(Token::Wildcard)
    } else {
        Some(Token::Letter(c))
    }
}

/// The tokens that reading the character at `i` appends.
pub open spec fn tokens_at(pattern: Seq<char>, i: int) -> Seq<Token> {
    let joint = if concatenates_at(pattern, i) {
        seq![Token::Concatenation]
    } else {
        Seq::empty()
    };
    match char_token(pattern[i], escaped_at(pattern, i)) {
        Some(token) => joint.push(token),
        None => joint,
    }
}

/// The tokens of the first `n` characters of a pattern.
pub open spec fn tokens_of_prefix(pattern: Seq<char>, n: int) -> Seq<Token>
    decreases n,
{
    if n <= 0 {
        Seq::empty()
    } else {
        tokens_of_prefix(pattern, n - 1) + tokens_at(pattern, n - 1)
    }
}

/// The token sequence of a pattern. A backslash at the very end escapes
/// nothing and leaves no token.
pub open spec fn spec_tokens(pattern: Seq<char>) -> Seq<Token> {
    tokens_of_prefix(pattern, pattern.len() as int)
}

/// The characters of a string, in order.
pub fn string_chars(s: &String) -> (chars: Vec<char>)
    ensures
        chars@ == s@,
{
    broadcast use vstd::string::axiom_spec_iter;

    let mut chars: Vec<char> = Vec::new();
    for c in it: s.as_str().chars()
        invariant
            it.seq() == s@,
            chars@ == it.seq().take(it.index()),
    {
        chars.push(c);
    }
    chars
}

fn is_nongrouping_operator(c: char) -> (r: bool)
    ensures
        r == spec_is_nongrouping_operator(c),
{
    c == '|' || c == '*' || c == '?' || c == '+'
}

fn is_two_operand_operator(c: char) -> (r: bool)
    ensures
        r == spec_is_two_operand_operator(c),
{
    c == '|'
}

/// Splits a pattern into tokens and puts a concatenation token wherever two
/// operands stand side by side. It never fails: whether the tokens form an
/// expression is decided by `to_postfix`.
pub fn parse_re_to_tokens(re: &String) -> (tokens: Vec<Token>)
    ensures
        tokens@ == spec_tokens(re@),
{
    let mut tokens: Vec<Token> = Vec::new();
    let mut escaped = false;
    let chars = string_chars(re);
    let mut i: usize = 0;
    while i < chars.len()
        invariant
            i <= chars.len(),
            chars@ == re@,
            escaped == escaped_at(re@, i as int),
            tokens@ == tokens_of_prefix(re@, i as int),
        decreases chars.len() - i,
    {
        let ghost before = tokens@;
        if i > 0 && !escaped && !is_two_operand_operator(chars[i - 1]) && !is_nongrouping_operator(
            chars[i],
        ) && chars[i - 1] != '(' && chars[i] != ')' {
            tokens.push(Token::Concatenation);
        }
        let c = chars[i];
        if escaped {
            tokens.push(Token::Letter(c));
            escaped = false;
        } else if c == '\\' {
            escaped = true;
        } else if c == '(' {
            tokens.push(Token::OpenParenthesis);
        } else if c == ')' {
            tokens.push(Token::CloseParenthesis);
        } else if c == '|' {
            tokens.push(Token::Union);
        } else if c == '*' {
            tokens.push(Token::KleeneQuantifier);
        } else if c == '?' {
            tokens.push(Token::OptionalQuantifier);
        } else if c == '+' {
            tokens.push(Token::PositiveQuantifier);
        } else if c == '.' {
            tokens.push(Token::Wildcard);
        } else {
            tokens.push(Token::Letter(c));
        }
        i += 1;
    }
    tokens
}

/// Why a token sequence is not one well-formed expression.
#[derive(Debug, Clone, Copy, PartialEq, Eq, Structural)]
pub enum PatternError {
    /// A closing parenthesis stands where no group is open.
    UnmatchedCloseParenthesis,
    /// A group does not reduce to exactly one expression.
    GroupNotSingleExpression,
    /// A group is still open where the tokens end.
    UnmatchedOpenParenthesis,
    /// An operator stands where no operand precedes it at its level.
    OperatorMissingOperand,
    /// The tokens as a whole do not reduce to exactly one expression.
    PatternNotSingleExpression,
}

/// The state of the conversion between two tokens.
#[verifier::ext_equal]
pub struct Conversion {
    /// Open parentheses and the operators that wait for their operands.
    pub operators: Seq<Token>,
    /// The postfix output so far.
    pub postfix: Seq<Token>,
    /// How many complete expressions the current nesting level holds.
    pub count: int,
    /// The counts of the enclosing levels, innermost last.
    pub saved: Seq<int>,
}

impl Conversion {
    /// The state before the first token.
    pub open spec fn initial() -> Conversion {
        Conversion { operators: Seq::empty(), postfix: Seq::empty(), count: 0, saved: Seq::empty() }
    }

    /// Moves the operator on top of the stack to the output.
    pub open spec fn emit_top(self) -> Conversion {
        Conversion {
            operators: self.operators.drop_last(),
            postfix: self.postfix.push(self.operators.last()),
            count: self.count + self.operators.last().spec_count_diff(),
            saved: self.saved,
        }
    }

    /// Emits operators until the stack is empty or an open parenthesis is on
    /// top.
    pub open spec fn emit_group(self) -> Conversion
        decreases self.operators.len(),
    {
        if self.operators.len() > 0 && self.operators.last() != Token::OpenParenthesis {
            self.emit_top().emit_group()
        } else {
            self
        }
    }

    /// Emits the operators that leave the stack before `incoming` is pushed.
    pub open spec fn emit_before(self, incoming: Token) -> Conversion
        decreases self.operators.len(),
    {
        if self.operators.len() > 0 && self.operators.last() != Token::OpenParenthesis
            && self.operators.last().binds_before(incoming) {
            self.emit_top().emit_before(incoming)
        } else {
            self
        }
    }

    /// Emits every operator that is left.
    pub open spec fn emit_all(self) -> Conversion
        decreases self.operators.len(),
    {
        if self.operators.len() > 0 {
            self.emit_top().emit_all()
        } else {
            self
        }
    }

    /// The state after one more token, or the reason why the token cannot
    /// stand there.
    pub open spec fn step(self, token: Token) -> Result<Conversion, PatternError> {
        match token {
            Token::OpenParenthesis => Ok(
                Conversion {
                    operators: self.operators.push(Token::OpenParenthesis),
                    postfix: self.postfix,
                    count: 0,
                    saved: self.saved.push(self.count),
                },
            ),
            Token::CloseParenthesis => {
                let group = self.emit_group();
                if self.saved.len() == 0 {
                    Err(PatternError::UnmatchedCloseParenthesis)
                } else if group.count != 1 {
                    Err(PatternError::GroupNotSingleExpression)
                } else {
                    Ok(
                        Conversion {
                            operators: if group.operators.len() > 0 {
                                group.operators.drop_last()
                            } else {
                                group.operators
                            },
                            postfix: group.postfix,
                            count: group.saved.last() + 1,
                            saved: group.saved.drop_last(),
                        },
                    )
                }
            },
            Token::Letter(_) | Token::Wildcard => Ok(
                Conversion {
                    operators: self.operators,
                    postfix: self.postfix.push(token),
                    count: self.count + 1,
                    saved: self.saved,
                },
            ),
            _ => {
                let lower = self.emit_before(token);
                if self.count <= 0 {
                    Err(PatternError::OperatorMissingOperand)
                } else {
                    Ok(
                        Conversion {
                            operators: lower.operators.push(token),
                            postfix: lower.postfix,
                            count: lower.count,
                            saved: lower.saved,
                        },
                    )
                }
            },
        }
    }

    /// The postfix sequence once no token is left, or the reason why the
    /// tokens are not one expression.
    pub open spec fn finish(self) -> Result<Seq<Token>, PatternError> {
        let rest = self.emit_all();
        if rest.saved.len() > 0 {
            Err(PatternError::UnmatchedOpenParenthesis)
        } else if rest.count != 1 {
            Err(PatternError::PatternNotSingleExpression)
        } else {
            Ok(rest.postfix)
        }
    }

    /// The state after the first `n` tokens, or the first failure among them.
    pub open spec fn scan(tokens: Seq<Token>, n: int) -> Result<Conversion, PatternError>
        decreases n,
    {
        if n <= 0 {
            Ok(Conversion::initial())
        } else {
            match Conversion::scan(tokens, n - 1) {
                Ok(state) => state.step(tokens[n - 1]),
                Err(e) => Err(e),
            }
        }
    }
}

/// A failure is final: once the scan has failed, reading further tokens
/// reports the same failure.
pub proof fn lemma_scan_keeps_error(tokens: Seq<Token>, n: int, m: int)
    requires
        0 <= n <= m,
        Conversion::scan(tokens, n) is Err,
    ensures
        Conversion::scan(tokens, m) == Conversion::scan(tokens, n),
    decreases m - n,
{
    if n < m {
        lemma_scan_keeps_error(tokens, n, m - 1);
    }
}

/// The postfix form of a token sequence by operator precedence: an operand
/// goes to the output at once, an operator waits on the stack until one that
/// binds no tighter, or the end of its group, sends it there. Alongside, the
/// complete expressions of each nesting level are counted. It is an error
/// where an operator finds none before it, where a group or the whole
/// sequence does not count exactly one, or where a parenthesis has no
/// partner; the first failure met from the left is reported.
pub open spec fn spec_postfix(tokens: Seq<Token>) -> Result<Seq<Token>, PatternError> {
    match Conversion::scan(tokens, tokens.len() as int) {
        Ok(state) => state.finish(),
        Err(e) => Err(e),
    }
}

/// What a token adds to the count of complete expressions.
pub fn str_count_diff(op: &Token) -> (d: i32)
    ensures
        d == op.spec_count_diff(),
{
    match op {
        Token::Letter(_) => 1,
        Token::Wildcard => 1,
        Token::CloseParenthesis => 1,
        Token::Concatenation => -1,
        Token::Union => -1,
        Token::KleeneQuantifier => 0,
        Token::PositiveQuantifier => 0,
        Token::OptionalQuantifier => 0,
        Token::OpenParenthesis => 0,
    }
}

/// What the executable conversion holds, seen as a `Conversion`.
pub open spec fn conversion_of(
    operators: Seq<Token>,
    postfix: Seq<Token>,
    count: i128,
    saved: Seq<i128>,
) -> Conversion {
    Conversion {
        operators,
        postfix,
        count: count as int,
        saved: saved.map_values(|c: i128| c as int),
    }
}

/// The counters stay within the number of tokens that were read, so that
/// they fit their machine type: only operators and open parentheses wait on
/// the stack, and each token is counted once.
pub open spec fn counters_bounded(
    operators: Seq<Token>,
    postfix: Seq<Token>,
    count: i128,
    saved: Seq<i128>,
    read: int,
) -> bool {
    &&& postfix.len() + operators.len() <= read
    &&& forall|k: int|
        0 <= k < operators.len() ==> (#[trigger] operators[k]).spec_count_diff() <= 0
    &&& -postfix.len() <= count <= read
    &&& forall|k: int| 0 <= k < saved.len() ==> -postfix.len() <= #[trigger] saved[k] <= read
}

/// Converts a token sequence to postfix order by operator precedence, and
/// counts on the way whether it is exactly one expression.
pub fn to_postfix(tokens: &Vec<Token>) -> (r: Result<Vec<Token>, PatternError>)
    ensures
        match r {
            Ok(postfix) => spec_postfix(tokens@) == Ok::<Seq<Token>, PatternError>(postfix@),
            Err(e) => spec_postfix(tokens@) == Err::<Seq<Token>, PatternError>(e),
        },
{
    let mut operators: Vec<Token> = Vec::new();
    let mut postfix: Vec<Token> = Vec::new();
    let mut num_strs: i128 = 0;
    let mut preservation_stack: Vec<i128> = Vec::new();

    assert(conversion_of(operators@, postfix@, num_strs, preservation_stack@)
        =~= Conversion::initial());
    let mut i: usize = 0;
    while i < tokens.len()
        invariant
            i <= tokens.len(),
            Conversion::scan(tokens@, i as int) == Ok::<Conversion, PatternError>(
                conversion_of(operators@, postfix@, num_strs, preservation_stack@),
            ),
            counters_bounded(operators@, postfix@, num_strs, preservation_stack@, i as int),
        decreases tokens.len() - i,
    {
        let token = tokens[i];
        let ghost before = conversion_of(operators@, postfix@, num_strs, preservation_stack@);
        match token {
            Token::OpenParenthesis => {
                preservation_stack.push(num_strs);
                num_strs = 0;
                operators.push(Token::OpenParenthesis);
                assert(conversion_of(operators@, postfix@, num_strs, preservation_stack@)
                    =~= before.step(token)->Ok_0);
            },
            Token::CloseParenthesis => {
                if preservation_stack.len() == 0 {
                    proof {
                        lemma_scan_keeps_error(tokens@, i + 1, tokens@.len() as int);
                    }
                    return Err(PatternError::UnmatchedCloseParenthesis);
                }
                while operators.len() > 0 && operators[operators.len() - 1]
                    != Token::OpenParenthesis
                    invariant
                        conversion_of(
                            operators@,
                            postfix@,
                            num_strs,
                            preservation_stack@,
                        ).emit_group() == before.emit_group(),
                        counters_bounded(
                            operators@,
                            postfix@,
                            num_strs,
                            preservation_stack@,
                            i as int,
                        ),
                        preservation_stack@.len() > 0,
                    decreases operators.len(),
                {
                    let op = operators.pop().unwrap();
                    postfix.push(op);
                    num_strs = num_strs + str_count_diff(&op) as i128;
                }
                if num_strs != 1 {
                    proof {
                        lemma_scan_keeps_error(tokens@, i + 1, tokens@.len() as int);
                    }
                    return Err(PatternError::GroupNotSingleExpression);
                }
                operators.pop();
                if let Some(s) = preservation_stack.pop() {
                    num_strs = s;
                }
                num_strs = num_strs + str_count_diff(&token) as i128;
                assert(conversion_of(operators@, postfix@, num_strs, preservation_stack@)
                    =~= before.step(token)->Ok_0);
            },
            Token::Letter(_) | Token::Wildcard => {
                num_strs = num_strs + str_count_diff(&token) as i128;
                postfix.push(token);
            },
            _ => {
                if num_strs <= 0 {
                    proof {
                        lemma_scan_keeps_error(tokens@, i + 1, tokens@.len() as int);
                    }
                    return Err(PatternError::OperatorMissingOperand);
                }
                while operators.len() > 0 && operators[operators.len() - 1]
                    != Token::OpenParenthesis && operators[operators.len()
                    - 1].has_greater_precedence(token)
                    invariant
                        conversion_of(
                            operators@,
                            postfix@,
                            num_strs,
                            preservation_stack@,
                        ).emit_before(token) == before.emit_before(token),
                        counters_bounded(
                            operators@,
                            postfix@,
                            num_strs,
                            preservation_stack@,
                            i as int,
                        ),
                    decreases operators.len(),
                {
                    let op = operators.pop().unwrap();
                    postfix.push(op);
                    num_strs = num_strs + str_count_diff(&op) as i128;
                }
                operators.push(token);
            },
        }
        i += 1;
    }

    let ghost scanned = conversion_of(operators@, postfix@, num_strs, preservation_stack@);
    while operators.len() > 0
        invariant
            conversion_of(operators@, postfix@, num_strs, preservation_stack@).emit_all()
                == scanned.emit_all(),
            counters_bounded(
                operators@,
                postfix@,
                num_strs,
                preservation_stack@,
                tokens.len() as int,
            ),
        decreases operators.len(),
    {
        let op = operators.pop().unwrap();
        postfix.push(op);
        num_strs = num_strs + str_count_diff(&op) as i128;
    }

    if preservation_stack.len() > 0 {
        return Err(PatternError::UnmatchedOpenParenthesis);
    }
    if num_strs != 1 {
        return Err(PatternError::PatternNotSingleExpression);
    }
    Ok(postfix)
}

/// The postfix form of a token sequence, or `None` where the sequence does
/// not count as one expression.
pub fn calc_postfix(tokens: Vec<Token>) -> (r: Option<Vec<Token>>)
    ensures
        match r {
            Some(postfix) => spec_postfix(tokens@) == Ok::<Seq<Token>, PatternError>(postfix@),
            None => spec_postfix(tokens@) is Err,
        },
{
    match to_postfix(&tokens) {
        Ok(postfix) => Some(postfix),
        Err(_) => None,
    }
}

} // verus!
