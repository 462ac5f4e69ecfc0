use regex_nfa::nfa::{State, Transition, TransitionLabel, NFA};
use regex_nfa::parse::{
    calc_postfix, parse_re_to_tokens, str_count_diff, to_postfix, Associativity, PatternError,
    Token,
};
use regex_nfa::syntax::postfix_is_well_formed;
use regex_nfa::Regex;

fn tokens_of(re: &str) -> Vec<Token> {
    parse_re_to_tokens(&re.to_string())
}

fn compile(re: &str) -> NFA {
    match NFA::from_regex(&re.to_string()) {
        Some(nfa) => nfa,
        None => panic!("re {re} expected to be valid, but no NFA returned"),
    }
}

fn accepts(nfa: &NFA, input: &str) -> bool {
    nfa.is_match(&input.to_string())
}

#[test]
fn valid_regex_test() {
    let valid_cases = [
        (
            "pens?",
            vec![
                ("", false),
                ("hey", false),
                ("p", false),
                ("pe", false),
                ("pen", true),
                ("pens", true),
                ("pens?", false),
                ("spens", false),
                ("pencil", false),
            ],
        ),
        (
            ".*",
            vec![("", true), ("a", true), ("sdads", true), ("+__Sd*sd", true)],
        ),
        (
            "a|b",
            vec![
                ("", false),
                ("a", true),
                ("sdads", false),
                ("+__Sd*sd", false),
                ("b", true),
            ],
        ),
        (
            "ab",
            vec![
                ("", false),
                ("a", false),
                ("sdads", false),
                ("+__Sd*sd", false),
                ("b", false),
                ("ab", true),
            ],
        ),
        (
            "a+b",
            vec![
                ("", false),
                ("a", false),
                ("sdads", false),
                ("aaab", true),
                ("aaabb", false),
                ("b", false),
                ("ab", true),
            ],
        ),
        (
            "a.*|b",
            vec![
                ("", false),
                ("a", true),
                ("b", true),
                ("sdads", false),
                ("+__Sd*sd", false),
                ("absd", true),
                ("bsd", false),
                ("afeoriobsdsada", true),
                ("ab", true),
                ("bafeoriobsdsada", false),
                ("ba", false),
            ],
        ),
        (
            "a(bb)*|b",
            vec![
                ("", false),
                ("a", true),
                ("b", true),
                ("sdads", false),
                ("+__Sd*sd", false),
                ("abbsd", false),
                ("bsd", false),
                ("afeoriobsdsada", false),
                ("ab", false),
                ("abb", true),
                ("abbb", false),
                ("abbbbbbbb", true),
                ("bafeoriobsdsada", false),
                ("ba", false),
            ],
        ),
        (
            "a(bb)+|b",
            vec![
                ("", false),
                ("a", false),
                ("b", true),
                ("sdads", false),
                ("+__Sd*sd", false),
                ("abbsd", false),
                ("bsd", false),
                ("afeoriobsdsada", false),
                ("ab", false),
                ("abb", true),
                ("abbb", false),
                ("abbbbbbbb", true),
                ("bafeoriobsdsada", false),
                ("ba", false),
            ],
        ),
        (
            "a(bb)?|b",
            vec![
                ("", false),
                ("a", true),
                ("b", true),
                ("sdads", false),
                ("+__Sd*sd", false),
                ("abbsd", false),
                ("bsd", false),
                ("afeoriobsdsada", false),
                ("ab", false),
                ("abb", true),
                ("abbb", false),
                ("abbbbbbbb", false),
                ("bafeoriobsdsada", false),
                ("ba", false),
            ],
        ),
        (
            ".*a.*",
            vec![
                ("", false),
                ("a", true),
                ("b", false),
                ("sdads", true),
                ("+__Sd*sd", false),
                ("abbsd", true),
                ("bsd", false),
                ("afeoriobsdsada", true),
                ("ab", true),
                ("abb", true),
                ("abbb", true),
                ("abbbbbbbb", true),
                ("bafeoriobsdsada", true),
                ("ba", true),
            ],
        ),
        (
            ".+@.+\\.com?", // emails ending with com or co
            vec![
                ("", false),
                ("a", false),
                ("b", false),
                ("@.com", false),
                ("hi@gmail.com", true),
                ("@gmail.com", false),
                ("hi@.com", false),
                ("sd@gmail.co", true),
                ("asdjk@sd.c", false),
                ("abb", false),
                ("sd@hotmail.co", true),
                ("abbbbbb.co", false),
                ("ooof", false),
                ("hmm", false),
            ],
        ),
    ];
    for (re, cases) in valid_cases {
        println!("re: {}", re);
        if let Some(nfa) = NFA::from_regex(&re.to_string()) {
            for (input, expected) in cases {
                let result = nfa.is_match(&input.to_string());
                if result != expected {
                    println!("re {re}, case: {input}, result: {result}, expected: {expected}");
                }
                assert_eq!(result, expected);
            }
        } else {
            panic!("re {re} expected to be valid, but no NFA returned");
        }
    }
}

#[test]
fn invalid_regex_test() {
    let invalid_cases = [
        // empty languages are not accepted
        "",
        "()()((()))",
        // malformed parentheses
        "(",
        "())",
        "()()(",
        "a+(a",
        "(a|)b",
        // using operators without char matchers
        "+",
        "*",
        "?",
        "+",
        "|",
        // only one string for 2 string operator
        "a|",
        "|a",
        "a||",
        "a||b",
        "a|(b|x|)",
    ];
    for re in invalid_cases {
        println!("re: {}", re);
        if let Some(_) = NFA::from_regex(&re.to_string()) {
            panic!("re {re} expected to be invalid, but NFA returned");
        }
    }
}

#[test]
fn tokens_of_plain_letters_are_joined() {
    assert_eq!(
        tokens_of("ab"),
        vec![Token::Letter('a'), Token::Concatenation, Token::Letter('b')]
    );
    assert_eq!(tokens_of("a"), vec![Token::Letter('a')]);
    assert_eq!(tokens_of(""), Vec::<Token>::new());
}

#[test]
fn tokens_of_operators_and_groups() {
    assert_eq!(
        tokens_of("a(bb)*|b"),
        vec![
            Token::Letter('a'),
            Token::Concatenation,
            Token::OpenParenthesis,
            Token::Letter('b'),
            Token::Concatenation,
            Token::Letter('b'),
            Token::CloseParenthesis,
            Token::KleeneQuantifier,
            Token::Union,
            Token::Letter('b'),
        ]
    );
    assert_eq!(
        tokens_of("pens?"),
        vec![
            Token::Letter('p'),
            Token::Concatenation,
            Token::Letter('e'),
            Token::Concatenation,
            Token::Letter('n'),
            Token::Concatenation,
            Token::Letter('s'),
            Token::OptionalQuantifier,
        ]
    );
    assert_eq!(
        tokens_of(".+"),
        vec![Token::Wildcard, Token::PositiveQuantifier]
    );
}

#[test]
fn tokens_of_escaped_characters() {
    assert_eq!(tokens_of("\\*"), vec![Token::Letter('*')]);
    assert_eq!(tokens_of("\\\\"), vec![Token::Letter('\\')]);
    assert_eq!(
        tokens_of("a\\.b"),
        vec![
            Token::Letter('a'),
            Token::Concatenation,
            Token::Letter('.'),
            Token::Concatenation,
            Token::Letter('b'),
        ]
    );
    assert_eq!(
        tokens_of(".+@.+\\.com?"),
        vec![
            Token::Wildcard,
            Token::PositiveQuantifier,
            Token::Concatenation,
            Token::Letter('@'),
            Token::Concatenation,
            Token::Wildcard,
            Token::PositiveQuantifier,
            Token::Concatenation,
            Token::Letter('.'),
            Token::Concatenation,
            Token::Letter('c'),
            Token::Concatenation,
            Token::Letter('o'),
            Token::Concatenation,
            Token::Letter('m'),
            Token::OptionalQuantifier,
        ]
    );
}

#[test]
fn trailing_backslash_leaves_no_letter() {
    assert_eq!(tokens_of("\\"), Vec::<Token>::new());
    assert_eq!(
        tokens_of("a\\"),
        vec![Token::Letter('a'), Token::Concatenation]
    );
    assert!(NFA::from_regex(&"a\\".to_string()).is_none());
    assert!(NFA::from_regex(&"\\".to_string()).is_none());
}

#[test]
fn no_concatenation_after_an_escaped_bar_or_parenthesis() {
    // the test for an implicit concatenation reads the raw character before
    assert_eq!(
        tokens_of("\\|a"),
        vec![Token::Letter('|'), Token::Letter('a')]
    );
    assert_eq!(
        tokens_of("\\(a"),
        vec![Token::Letter('('), Token::Letter('a')]
    );
    assert!(NFA::from_regex(&"\\|a".to_string()).is_none());
}

#[test]
fn precedence_table() {
    assert_eq!(Token::KleeneQuantifier.precedence(), (3, Associativity::Left));
    assert_eq!(Token::PositiveQuantifier.precedence(), (3, Associativity::Left));
    assert_eq!(Token::OptionalQuantifier.precedence(), (3, Associativity::Left));
    assert_eq!(Token::Wildcard.precedence(), (3, Associativity::Left));
    assert_eq!(Token::Concatenation.precedence(), (2, Associativity::Left));
    assert_eq!(Token::Union.precedence(), (1, Associativity::Left));
    assert_eq!(Token::Letter('x').precedence(), (4, Associativity::Left));
    assert_eq!(Token::OpenParenthesis.precedence(), (4, Associativity::Left));
    assert_eq!(Token::CloseParenthesis.precedence(), (4, Associativity::Left));
}

#[test]
fn greater_precedence_is_higher_rank_or_equal_rank() {
    assert!(Token::KleeneQuantifier.has_greater_precedence(Token::Concatenation));
    assert!(Token::Concatenation.has_greater_precedence(Token::Union));
    assert!(Token::Union.has_greater_precedence(Token::Union));
    assert!(Token::Concatenation.has_greater_precedence(Token::Concatenation));
    assert!(!Token::Union.has_greater_precedence(Token::Concatenation));
    assert!(!Token::Concatenation.has_greater_precedence(Token::KleeneQuantifier));
    assert!(Token::Letter('a').has_greater_precedence(Token::KleeneQuantifier));
}

#[test]
fn count_diff_of_each_token() {
    assert_eq!(str_count_diff(&Token::Letter('a')), 1);
    assert_eq!(str_count_diff(&Token::Wildcard), 1);
    assert_eq!(str_count_diff(&Token::CloseParenthesis), 1);
    assert_eq!(str_count_diff(&Token::Concatenation), -1);
    assert_eq!(str_count_diff(&Token::Union), -1);
    assert_eq!(str_count_diff(&Token::KleeneQuantifier), 0);
    assert_eq!(str_count_diff(&Token::PositiveQuantifier), 0);
    assert_eq!(str_count_diff(&Token::OptionalQuantifier), 0);
    assert_eq!(str_count_diff(&Token::OpenParenthesis), 0);
}

#[test]
fn postfix_of_a_concatenation() {
    assert_eq!(
        calc_postfix(tokens_of("ab")),
        Some(vec![
            Token::Letter('a'),
            Token::Letter('b'),
            Token::Concatenation
        ])
    );
}

#[test]
fn postfix_follows_precedence_and_groups() {
    assert_eq!(
        calc_postfix(tokens_of("a(bb)*|b")),
        Some(vec![
            Token::Letter('a'),
            Token::Letter('b'),
            Token::Letter('b'),
            Token::Concatenation,
            Token::KleeneQuantifier,
            Token::Concatenation,
            Token::Letter('b'),
            Token::Union,
        ])
    );
    assert_eq!(
        calc_postfix(tokens_of("a|bc")),
        Some(vec![
            Token::Letter('a'),
            Token::Letter('b'),
            Token::Letter('c'),
            Token::Concatenation,
            Token::Union,
        ])
    );
    assert_eq!(
        calc_postfix(tokens_of("a|b|c")),
        Some(vec![
            Token::Letter('a'),
            Token::Letter('b'),
            Token::Union,
            Token::Letter('c'),
            Token::Union,
        ])
    );
    assert_eq!(
        calc_postfix(tokens_of("(a|b)c")),
        Some(vec![
            Token::Letter('a'),
            Token::Letter('b'),
            Token::Union,
            Token::Letter('c'),
            Token::Concatenation,
        ])
    );
}

#[test]
fn to_postfix_agrees_with_calc_postfix() {
    for re in ["ab", "a(bb)*|b", ".+@.+\\.com?", "", "(", "a||b", "(a|)b"] {
        let tokens = tokens_of(re);
        assert_eq!(to_postfix(&tokens).ok(), calc_postfix(tokens));
    }
}

#[test]
fn error_unmatched_close_parenthesis() {
    assert_eq!(
        to_postfix(&tokens_of(")")),
        Err(PatternError::UnmatchedCloseParenthesis)
    );
    assert_eq!(
        to_postfix(&tokens_of("(a))")),
        Err(PatternError::UnmatchedCloseParenthesis)
    );
}

#[test]
fn error_group_not_single_expression() {
    assert_eq!(
        to_postfix(&tokens_of("()")),
        Err(PatternError::GroupNotSingleExpression)
    );
    assert_eq!(
        to_postfix(&tokens_of("(a|)b")),
        Err(PatternError::GroupNotSingleExpression)
    );
    assert_eq!(
        to_postfix(&tokens_of("()()((()))")),
        Err(PatternError::GroupNotSingleExpression)
    );
}

#[test]
fn error_unmatched_open_parenthesis() {
    assert_eq!(
        to_postfix(&tokens_of("(")),
        Err(PatternError::UnmatchedOpenParenthesis)
    );
    assert_eq!(
        to_postfix(&tokens_of("a+(a")),
        Err(PatternError::UnmatchedOpenParenthesis)
    );
}

#[test]
fn error_operator_missing_operand() {
    for re in ["+", "*", "?", "|", "|a", "(*a)"] {
        assert_eq!(
            to_postfix(&tokens_of(re)),
            Err(PatternError::OperatorMissingOperand)
        );
    }
}

#[test]
fn error_pattern_not_single_expression() {
    for re in ["", "a|", "a||", "a||b"] {
        assert_eq!(
            to_postfix(&tokens_of(re)),
            Err(PatternError::PatternNotSingleExpression)
        );
    }
}

#[test]
fn first_failure_from_the_left_is_reported() {
    // the operator fails before the unmatched parenthesis is seen
    assert_eq!(
        to_postfix(&tokens_of("*)")),
        Err(PatternError::OperatorMissingOperand)
    );
    assert_eq!(
        to_postfix(&tokens_of(")*")),
        Err(PatternError::UnmatchedCloseParenthesis)
    );
}

#[test]
fn well_formed_postfix_is_recognised() {
    assert!(postfix_is_well_formed(&vec![
        Token::Letter('a'),
        Token::Letter('b'),
        Token::Concatenation
    ]));
    assert!(postfix_is_well_formed(&vec![Token::Wildcard, Token::KleeneQuantifier]));
    assert!(!postfix_is_well_formed(&vec![]));
    assert!(!postfix_is_well_formed(&vec![Token::Letter('a'), Token::Letter('b')]));
    assert!(!postfix_is_well_formed(&vec![Token::Letter('a'), Token::Union]));
    assert!(!postfix_is_well_formed(&vec![Token::KleeneQuantifier]));
    assert!(!postfix_is_well_formed(&vec![
        Token::Letter('a'),
        Token::OpenParenthesis
    ]));
    assert!(!postfix_is_well_formed(&vec![
        Token::Letter('a'),
        Token::Union,
        Token::Letter('b')
    ]));
}

#[test]
fn tokens_that_pass_the_count_but_are_no_expression_do_not_compile() {
    // the count of expressions ends at one, but the first bar finds one operand only
    let tokens = tokens_of("a||\\|b");
    assert_eq!(
        tokens,
        vec![
            Token::Letter('a'),
            Token::Union,
            Token::Union,
            Token::Letter('|'),
            Token::Letter('b'),
        ]
    );
    let postfix = to_postfix(&tokens);
    assert_eq!(
        postfix,
        Ok(vec![
            Token::Letter('a'),
            Token::Union,
            Token::Letter('|'),
            Token::Letter('b'),
            Token::Union,
        ])
    );
    assert!(!postfix_is_well_formed(&postfix.unwrap()));
    assert!(NFA::from_regex(&"a||\\|b".to_string()).is_none());
}

#[test]
fn state_builders() {
    let blank = State::new();
    assert!(!blank.is_accepting());
    assert_eq!(blank.transitions().len(), 0);

    let to_three = Transition { label: TransitionLabel::Letter('x'), to: 3 };
    let to_five = Transition { label: TransitionLabel::Epsilon, to: 5 };
    let state = State::new().with_transition(to_three).with_accepting(true);
    assert!(state.is_accepting());
    assert_eq!(state.transitions().len(), 1);
    assert_eq!(state.transitions()[0].label, TransitionLabel::Letter('x'));
    assert_eq!(state.transitions()[0].to, 3);

    let mut state = state.with_accepting(false);
    assert!(!state.is_accepting());
    state.add_transition(to_five);
    assert_eq!(state.transitions().len(), 2);
    assert_eq!(state.transitions()[0].to, 3);
    assert_eq!(state.transitions()[1].label, TransitionLabel::Epsilon);
    assert_eq!(state.transitions()[1].to, 5);
    state.set_accepting(true);
    assert!(state.is_accepting());
    assert_eq!(state.transitions().len(), 2);
}

fn edges(state: &State) -> Vec<(TransitionLabel, usize)> {
    let mut out = Vec::new();
    for t in state.transitions() {
        out.push((t.label, t.to));
    }
    out
}

#[test]
fn single_transition_fragment_layout() {
    let mut states: Vec<State> = Vec::new();
    let f = NFA::add_single_transition_fragment(&mut states, TransitionLabel::Letter('a'));
    assert_eq!((f.start_id, f.out_id), (0, 1));
    assert_eq!(states.len(), 2);
    assert_eq!(edges(&states[0]), vec![(TransitionLabel::Letter('a'), 1)]);
    assert_eq!(edges(&states[1]), vec![]);
    let g = NFA::add_single_transition_fragment(&mut states, TransitionLabel::Wildcard);
    assert_eq!((g.start_id, g.out_id), (2, 3));
    assert_eq!(edges(&states[2]), vec![(TransitionLabel::Wildcard, 3)]);
    assert_eq!(edges(&states[0]), vec![(TransitionLabel::Letter('a'), 1)]);
}

#[test]
fn concat_fragment_layout() {
    let mut states: Vec<State> = Vec::new();
    let a = NFA::add_single_transition_fragment(&mut states, TransitionLabel::Letter('a'));
    let b = NFA::add_single_transition_fragment(&mut states, TransitionLabel::Letter('b'));
    let f = NFA::add_concat_fragment(&mut states, a, b);
    assert_eq!((f.start_id, f.out_id), (0, 3));
    assert_eq!(states.len(), 4);
    assert_eq!(edges(&states[1]), vec![(TransitionLabel::Epsilon, 2)]);
    assert_eq!(edges(&states[3]), vec![]);
}

#[test]
fn union_fragment_layout() {
    let mut states: Vec<State> = Vec::new();
    let b = NFA::add_single_transition_fragment(&mut states, TransitionLabel::Letter('b'));
    let a = NFA::add_single_transition_fragment(&mut states, TransitionLabel::Letter('a'));
    let f = NFA::add_union_fragment(&mut states, a, b);
    assert_eq!((f.start_id, f.out_id), (4, 5));
    assert_eq!(states.len(), 6);
    assert_eq!(
        edges(&states[4]),
        vec![(TransitionLabel::Epsilon, 2), (TransitionLabel::Epsilon, 0)]
    );
    assert_eq!(edges(&states[1]), vec![(TransitionLabel::Epsilon, 5)]);
    assert_eq!(edges(&states[3]), vec![(TransitionLabel::Epsilon, 5)]);
    assert_eq!(edges(&states[5]), vec![]);
}

#[test]
fn quantifier_fragment_layout() {
    // star: may pass by, may repeat
    let mut states: Vec<State> = Vec::new();
    let a = NFA::add_single_transition_fragment(&mut states, TransitionLabel::Letter('a'));
    let f = NFA::add_quantifier_fragment(&mut states, a, true, true);
    assert_eq!((f.start_id, f.out_id), (2, 3));
    assert_eq!(
        edges(&states[2]),
        vec![(TransitionLabel::Epsilon, 0), (TransitionLabel::Epsilon, 3)]
    );
    assert_eq!(
        edges(&states[1]),
        vec![(TransitionLabel::Epsilon, 3), (TransitionLabel::Epsilon, 0)]
    );

    // plus: must go through once, may repeat
    let mut states: Vec<State> = Vec::new();
    let a = NFA::add_single_transition_fragment(&mut states, TransitionLabel::Letter('a'));
    NFA::add_quantifier_fragment(&mut states, a, true, false);
    assert_eq!(edges(&states[2]), vec![(TransitionLabel::Epsilon, 0)]);
    assert_eq!(
        edges(&states[1]),
        vec![(TransitionLabel::Epsilon, 3), (TransitionLabel::Epsilon, 0)]
    );

    // optional: may pass by, no repeat
    let mut states: Vec<State> = Vec::new();
    let a = NFA::add_single_transition_fragment(&mut states, TransitionLabel::Letter('a'));
    NFA::add_quantifier_fragment(&mut states, a, false, true);
    assert_eq!(
        edges(&states[2]),
        vec![(TransitionLabel::Epsilon, 0), (TransitionLabel::Epsilon, 3)]
    );
    assert_eq!(edges(&states[1]), vec![(TransitionLabel::Epsilon, 3)]);
}

#[test]
fn automaton_of_a_concatenation() {
    let nfa = compile("ab");
    assert_eq!(nfa.start_id(), 0);
    let states = nfa.states();
    assert_eq!(states.len(), 4);
    assert_eq!(edges(&states[0]), vec![(TransitionLabel::Letter('a'), 1)]);
    assert_eq!(edges(&states[1]), vec![(TransitionLabel::Epsilon, 2)]);
    assert_eq!(edges(&states[2]), vec![(TransitionLabel::Letter('b'), 3)]);
    assert_eq!(edges(&states[3]), vec![]);
    let accepting: Vec<bool> = states.iter().map(|s| s.is_accepting()).collect();
    assert_eq!(accepting, vec![false, false, false, true]);
}

#[test]
fn exactly_one_state_accepts_and_targets_are_in_range() {
    for re in ["pens?", ".*", "a(bb)*|b", "a(bb)+|b", ".+@.+\\.com?", "((a|b)*c)+"] {
        let nfa = compile(re);
        let states = nfa.states();
        assert!(nfa.start_id() < states.len());
        let mut accepting = 0;
        for s in states.iter() {
            if s.is_accepting() {
                accepting += 1;
            }
            assert!(s.transitions().len() <= 2);
            for t in s.transitions() {
                assert!(t.to < states.len());
            }
        }
        assert_eq!(accepting, 1);
    }
}

#[test]
fn from_postfix_builds_what_from_regex_builds() {
    let postfix = calc_postfix(tokens_of("a(bb)*|b")).unwrap();
    assert!(postfix_is_well_formed(&postfix));
    let built = NFA::from_postfix(&postfix);
    let compiled = compile("a(bb)*|b");
    assert_eq!(built.start_id(), compiled.start_id());
    assert_eq!(built.states().len(), compiled.states().len());
    for i in 0..built.states().len() {
        assert_eq!(edges(&built.states()[i]), edges(&compiled.states()[i]));
        assert_eq!(
            built.states()[i].is_accepting(),
            compiled.states()[i].is_accepting()
        );
    }
    for input in ["", "a", "b", "abb", "abbb", "abbbb"] {
        assert_eq!(accepts(&built, input), accepts(&compiled, input));
    }
}

#[test]
fn empty_language_accepts_nothing() {
    let nfa = NFA::empty_language();
    assert_eq!(nfa.start_id(), 0);
    assert_eq!(nfa.states().len(), 2);
    assert!(!nfa.states()[0].is_accepting());
    assert!(nfa.states()[1].is_accepting());
    for input in ["", "a", "ab", "."] {
        assert!(!accepts(&nfa, input));
    }
}

#[test]
fn compiling_twice_gives_the_same_answers() {
    for re in ["pens?", ".*", "a(bb)*|b", "a(bb)+|b", ".+@.+\\.com?", "(a|b)*abb"] {
        let first = compile(re);
        let second = compile(re);
        for input in ["", "a", "b", "pen", "pens", "abb", "aabb", "babb", "hi@gmail.com", "x"] {
            assert_eq!(accepts(&first, input), accepts(&second, input));
        }
    }
}

#[test]
fn empty_input_is_matched_by_nullable_patterns_only() {
    for re in ["a*", ".*", "a?", "(ab)?", "(a|b)*", "a*b*", "a?|b", "(a+)?", "(a*)+"] {
        assert!(accepts(&compile(re), ""), "{re}");
    }
    for re in ["a", ".", "a+", "ab", "a|b", "a*b", "(a?)b", "pens?", ".+"] {
        assert!(!accepts(&compile(re), ""), "{re}");
    }
}

#[test]
fn wildcard_matches_any_single_character() {
    let nfa = compile(".");
    for input in [
        "a", "Z", "0", " ", "+", "*", ".", "?", "|", "(", ")", "\\", "@", "_", "é", "√",
    ] {
        assert!(accepts(&nfa, input), "{input}");
    }
    assert!(!accepts(&nfa, ""));
    assert!(!accepts(&nfa, "ab"));
}

#[test]
fn escaped_operators_match_themselves() {
    let nfa = compile("a\\+b");
    assert!(accepts(&nfa, "a+b"));
    assert!(!accepts(&nfa, "aab"));
    assert!(!accepts(&nfa, "ab"));
    let nfa = compile("pens\\?");
    assert!(accepts(&nfa, "pens?"));
    assert!(!accepts(&nfa, "pen"));
}

#[test]
fn repetition_of_a_nullable_group_ends() {
    // epsilon cycles: each pair of position and state is expanded once
    let nfa = compile("(a*)*b");
    assert!(accepts(&nfa, "b"));
    assert!(accepts(&nfa, "aaab"));
    assert!(!accepts(&nfa, "aaa"));
    let nfa = compile("((a?)+)*");
    assert!(accepts(&nfa, ""));
    assert!(accepts(&nfa, "aaaa"));
    assert!(!accepts(&nfa, "ab"));
}

#[test]
fn input_is_read_by_characters_not_bytes() {
    let nfa = compile("é.");
    assert!(accepts(&nfa, "éé"));
    assert!(accepts(&nfa, "éa"));
    assert!(!accepts(&nfa, "é"));
}

#[test]
fn regex_wrapper_compiles_and_matches() {
    let regex = Regex::new("a(bb)+|b".to_string()).unwrap();
    assert!(regex.isMatch("abb".to_string()));
    assert!(regex.isMatch("b".to_string()));
    assert!(!regex.isMatch("a".to_string()));
    assert!(Regex::new("a|".to_string()).is_none());
    assert!(Regex::new("".to_string()).is_none());
}

fn all_patterns(alphabet: &[char], max_len: usize) -> Vec<String> {
    let mut all = vec![String::new()];
    let mut last = vec![String::new()];
    for _ in 0..max_len {
        let mut next = Vec::new();
        for p in &last {
            for c in alphabet {
                let mut q = p.clone();
                q.push(*c);
                next.push(q);
            }
        }
        all.extend(next.iter().cloned());
        last = next;
    }
    all
}

#[test]
fn patterns_without_escapes_compile_where_their_tokens_convert() {
    for pattern in all_patterns(&['a', '.', '|', '*', '+', '(', ')'], 5) {
        let converted = calc_postfix(parse_re_to_tokens(&pattern));
        let compiled = NFA::from_regex(&pattern);
        assert_eq!(compiled.is_some(), converted.is_some(), "{pattern}");
        if let Some(postfix) = converted {
            assert!(postfix_is_well_formed(&postfix), "{pattern}");
        }
    }
}

#[test]
fn patterns_with_escapes_never_compile_without_converting() {
    let mut odd = 0;
    for pattern in all_patterns(&['a', '|', '(', ')', '*', '\\'], 6) {
        let converted = calc_postfix(parse_re_to_tokens(&pattern));
        let compiled = NFA::from_regex(&pattern);
        if compiled.is_some() {
            assert!(converted.is_some(), "{pattern}");
        }
        if converted.is_some() && compiled.is_none() {
            // only an escaped bar or open parenthesis leaves operands side by side
            assert!(pattern.contains("\\|") || pattern.contains("\\("), "{pattern}");
            odd += 1;
        }
    }
    assert!(odd > 0);
}
