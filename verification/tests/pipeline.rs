use lexer::nfa::state::{State, StatePtr};
use lexer::nfa::{states_needed, NFA};
use lexer::regex::regex_lexer::{Lexer, Token};
use lexer::regex::regex_parser::Parser;
use lexer::regex::Regex;

fn lit(c: char) -> Regex {
    Regex::Literal(Some(c))
}

fn parse(pattern: &str) -> Option<Regex> {
    let mut lexer = Lexer::new(pattern);
    let tokens = lexer.lex_tokens()?;
    let mut parser = Parser::new(tokens);
    parser.parse()
}

/// The leaf characters of a `Union` chain over literals.
fn union_leaves(r: &Regex, out: &mut Vec<char>) {
    match r {
        Regex::Union(a, b) => {
            union_leaves(a, out);
            union_leaves(b, out);
        }
        Regex::Literal(Some(c)) => out.push(*c),
        other => panic!("not a union chain over literals: {:?}", other),
    }
}

#[test]
fn implicit_and_explicit_concatenation_agree() {
    let implicit = parse("ab").unwrap();
    let explicit = parse("a.b").unwrap();
    assert_eq!(implicit, explicit);
    assert_eq!(
        implicit,
        Regex::Concat(Box::new(lit('a')), Box::new(lit('b')))
    );
}

#[test]
fn alternation_parses_to_union() {
    assert_eq!(
        parse("a|b").unwrap(),
        Regex::Union(Box::new(lit('a')), Box::new(lit('b')))
    );
}

#[test]
fn star_parses_to_star() {
    assert_eq!(parse("a*").unwrap(), Regex::Star(Box::new(lit('a'))));
}

#[test]
fn plus_parses_to_concat_of_copy_and_star() {
    let got = parse("a+").unwrap();
    assert_eq!(
        got,
        Regex::Concat(Box::new(lit('a')), Box::new(Regex::Star(Box::new(lit('a')))))
    );
    // the two occurrences are independently owned trees
    match got {
        Regex::Concat(one, rep) => {
            assert_eq!(*one, lit('a'));
            assert_eq!(*rep, Regex::Star(Box::new(lit('a'))));
        }
        other => panic!("unexpected tree: {:?}", other),
    }
}

#[test]
fn question_parses_to_union_with_epsilon() {
    assert_eq!(
        parse("a?").unwrap(),
        Regex::Union(Box::new(lit('a')), Box::new(Regex::Literal(None)))
    );
}

#[test]
fn bracket_range_parses_to_union_chain_over_members() {
    let got = parse("[a-c]").unwrap();
    let mut leaves = Vec::new();
    union_leaves(&got, &mut leaves);
    leaves.sort();
    assert_eq!(leaves, vec!['a', 'b', 'c']);
}

#[test]
fn unmatched_paren_fails_and_driver_falls_back_to_epsilon() {
    assert_eq!(parse("(a"), None);
    assert_eq!(Regex::from_pattern("(a"), Regex::Literal(None));
}

#[test]
fn driver_parses_good_patterns() {
    assert_eq!(
        Regex::from_pattern("a|b"),
        Regex::Union(Box::new(lit('a')), Box::new(lit('b')))
    );
    assert_eq!(
        Regex::from_pattern("(a)b"),
        Regex::Concat(Box::new(lit('a')), Box::new(lit('b')))
    );
}

#[test]
fn empty_pattern_falls_back_to_epsilon() {
    assert_eq!(parse(""), None);
    assert_eq!(Regex::from_pattern(""), Regex::Literal(None));
    assert_eq!(Regex::from_pattern("   "), Regex::Literal(None));
}

#[test]
fn constructors_build_the_variants() {
    assert_eq!(Regex::empty(), Regex::Empty);
    assert_eq!(Regex::char('x'), lit('x'));
    assert_eq!(Regex::epsilon(), Regex::Literal(None));
    assert_eq!(
        Regex::char('x').concatenate(Regex::char('y')),
        Regex::Concat(Box::new(lit('x')), Box::new(lit('y')))
    );
    assert_eq!(
        Regex::char('x').union(Regex::char('y')),
        Regex::Union(Box::new(lit('x')), Box::new(lit('y')))
    );
    assert_eq!(Regex::char('x').star(), Regex::Star(Box::new(lit('x'))));
    let tree = Regex::char('x').union(Regex::char('y')).star();
    assert_eq!(tree.duplicate(), tree);
}

#[test]
fn round_trip_star_pattern_compiles_with_one_labeled_accept() {
    let regex = Regex::from_pattern("c*");
    assert_eq!(regex, Regex::Star(Box::new(lit('c'))));
    let nfa: NFA<&str> = NFA::build_nfa(regex, Some("TOKEN"));

    // literal fragment: 0 --'c'--> 1; star wiring: 2 is the start, 3 the accept
    assert_eq!(nfa.states.len(), 4);
    assert_eq!(nfa.start.id, 2);
    assert_eq!(nfa.accept.id, 3);

    // the label landed on the accept state and nowhere else
    for (i, st) in nfa.states.iter().enumerate() {
        if i == nfa.accept.id {
            assert_eq!(st.token, Some("TOKEN"));
        } else {
            assert_eq!(st.token, None);
        }
    }

    // zero occurrences: an epsilon transition straight to the accept state
    let start_state = &nfa.states[nfa.start.id];
    assert!(start_state
        .transitions
        .iter()
        .any(|t| t.symbol == None && t.target.id == nfa.accept.id));
    // entering the loop
    assert!(start_state
        .transitions
        .iter()
        .any(|t| t.symbol == None && t.target.id == 0));
    // consuming a 'c', repeating, and exiting
    assert!(nfa.states[0]
        .transitions
        .iter()
        .any(|t| t.symbol == Some('c') && t.target.id == 1));
    assert!(nfa.states[1]
        .transitions
        .iter()
        .any(|t| t.symbol == None && t.target.id == 0));
    assert!(nfa.states[1]
        .transitions
        .iter()
        .any(|t| t.symbol == None && t.target.id == nfa.accept.id));
}

#[test]
fn tokens_of_the_operator_characters() {
    let mut lexer = Lexer::new("a|b*+?().c");
    let tokens = lexer.lex_tokens().unwrap();
    assert_eq!(
        tokens,
        vec![
            Token::Literal('a'),
            Token::Union,
            Token::Literal('b'),
            Token::Star,
            Token::Plus,
            Token::Question,
            Token::LeftParen,
            Token::RightParen,
            Token::Concatenate,
            Token::Literal('c'),
            Token::Eof,
        ]
    );
}

#[test]
fn whitespace_is_skipped_between_tokens() {
    let mut lexer = Lexer::new(" a \t b \r\n c ");
    let tokens = lexer.lex_tokens().unwrap();
    assert_eq!(
        tokens,
        vec![
            Token::Literal('a'),
            Token::Literal('b'),
            Token::Literal('c'),
            Token::Eof,
        ]
    );
}

#[test]
fn quoted_span_collects_distinct_characters_in_order() {
    let mut lexer = Lexer::new("\"aab\"");
    let tokens = lexer.lex_tokens().unwrap();
    assert_eq!(
        tokens,
        vec![Token::LiteralGroup(vec!['a', 'b']), Token::Eof]
    );
}

#[test]
fn malformed_quoted_spans_fail_tokenizing() {
    assert_eq!(Lexer::new("\"ab").lex_tokens(), None); // unterminated
    assert_eq!(Lexer::new("\"\"").lex_tokens(), None); // empty
}

#[test]
fn bracket_span_expands_ranges_in_code_point_order() {
    let mut lexer = Lexer::new("[a-cz]");
    let tokens = lexer.lex_tokens().unwrap();
    assert_eq!(
        tokens,
        vec![Token::LiteralGroup(vec!['a', 'b', 'c', 'z']), Token::Eof]
    );
}

#[test]
fn bracket_span_takes_stray_dashes_as_members() {
    let mut lexer = Lexer::new("[-a]");
    assert_eq!(
        lexer.lex_tokens().unwrap(),
        vec![Token::LiteralGroup(vec!['-', 'a']), Token::Eof]
    );
    let mut trailing = Lexer::new("[a-]");
    assert_eq!(
        trailing.lex_tokens().unwrap(),
        vec![Token::LiteralGroup(vec!['a', '-']), Token::Eof]
    );
}

#[test]
fn malformed_bracket_spans_fail_tokenizing() {
    assert_eq!(Lexer::new("[ab").lex_tokens(), None); // unterminated
    assert_eq!(Lexer::new("[]").lex_tokens(), None); // empty
    assert_eq!(Lexer::new("[c-a]").lex_tokens(), None); // reversed range collects nothing
}

#[test]
fn lexer_cursor_reports_its_end() {
    let mut lexer = Lexer::new("x");
    assert!(!lexer.is_at_end());
    assert!(lexer.lex_token().is_some());
    assert!(lexer.is_at_end());
}

#[test]
fn parser_refuses_an_empty_token_stream() {
    let mut parser = Parser::new(vec![Token::Eof]);
    assert_eq!(parser.parse(), None);
    let mut bare = Parser::new(Vec::new());
    assert_eq!(bare.parse(), None);
}

#[test]
fn parser_refuses_an_empty_group_token() {
    let mut parser = Parser::new(vec![Token::LiteralGroup(Vec::new()), Token::Eof]);
    assert_eq!(parser.parse(), None);
}

#[test]
fn parser_refuses_trailing_tokens() {
    let mut parser = Parser::new(vec![Token::Literal('a'), Token::RightParen, Token::Eof]);
    assert_eq!(parser.parse(), None);
}

#[test]
fn parser_peek_sees_the_current_token() {
    let parser = Parser::new(vec![Token::Literal('a'), Token::Eof]);
    assert_eq!(parser.peek(), Some(&Token::Literal('a')));
    assert!(!parser.is_at_end());
}

#[test]
fn precedence_binds_repetition_tighter_than_alternation() {
    // a|bc* parses as Union(a, Concat(b, Star(c)))
    assert_eq!(
        parse("a|bc*").unwrap(),
        Regex::Union(
            Box::new(lit('a')),
            Box::new(Regex::Concat(
                Box::new(lit('b')),
                Box::new(Regex::Star(Box::new(lit('c'))))
            ))
        )
    );
    // (a|b)c groups the alternation first
    assert_eq!(
        parse("(a|b)c").unwrap(),
        Regex::Concat(
            Box::new(Regex::Union(Box::new(lit('a')), Box::new(lit('b')))),
            Box::new(lit('c'))
        )
    );
}

#[test]
fn literal_fragment_has_one_transition_carrying_the_label() {
    let nfa: NFA<u32> = NFA::build_nfa(Regex::Literal(Some('x')), Some(7));
    assert_eq!(nfa.states.len(), 2);
    let start_state = &nfa.states[nfa.start.id];
    assert_eq!(start_state.transitions.len(), 1);
    assert_eq!(start_state.transitions[0].symbol, Some('x'));
    assert_eq!(start_state.transitions[0].target, nfa.accept);
    assert_eq!(start_state.token, None);
    assert_eq!(nfa.states[nfa.accept.id].token, Some(7));
    assert!(nfa.states[nfa.accept.id].transitions.is_empty());
}

#[test]
fn epsilon_literal_fragment_transitions_without_a_symbol() {
    let nfa: NFA<u32> = NFA::build_nfa(Regex::Literal(None), Some(1));
    assert_eq!(nfa.states.len(), 2);
    assert_eq!(nfa.states[nfa.start.id].transitions[0].symbol, None);
}

#[test]
fn concat_accept_is_second_operand_accept_one_epsilon_past_the_first() {
    let tree = Regex::Concat(
        Box::new(Regex::Literal(Some('a'))),
        Box::new(Regex::Literal(Some('b'))),
    );
    let nfa: NFA<&str> = NFA::build_nfa(tree, Some("L"));
    // a: states 0, 1; b: states 2, 3
    assert_eq!(nfa.states.len(), 4);
    assert_eq!(nfa.start.id, 0);
    assert_eq!(nfa.accept.id, 3);
    // a's accept gained exactly one epsilon transition, into b's start
    let joint = &nfa.states[1];
    assert_eq!(joint.transitions.len(), 1);
    assert_eq!(joint.transitions[0].symbol, None);
    assert_eq!(joint.transitions[0].target.id, 2);
    assert_eq!(nfa.states[3].token, Some("L"));
}

#[test]
fn union_label_comes_from_the_second_operand_path() {
    let tree = Regex::Union(
        Box::new(Regex::Literal(Some('a'))),
        Box::new(Regex::Literal(Some('b'))),
    );
    let nfa: NFA<&str> = NFA::build_nfa(tree, Some("L"));
    // a: 0, 1; b: 2, 3; fresh start 4, fresh accept 5
    assert_eq!(nfa.states.len(), 6);
    assert_eq!(nfa.start.id, 4);
    assert_eq!(nfa.accept.id, 5);
    // the label traveled down the second operand and onto the joint accept
    assert_eq!(nfa.states[5].token, Some("L"));
    for i in 0..5 {
        assert_eq!(nfa.states[i].token, None);
    }
    // entry branches into both operands
    let entry = &nfa.states[4];
    assert!(entry
        .transitions
        .iter()
        .any(|t| t.symbol == None && t.target.id == 0));
    assert!(entry
        .transitions
        .iter()
        .any(|t| t.symbol == None && t.target.id == 2));
    // both operand accepts exit into the joint accept
    assert!(nfa.states[1]
        .transitions
        .iter()
        .any(|t| t.symbol == None && t.target.id == 5));
    assert!(nfa.states[3]
        .transitions
        .iter()
        .any(|t| t.symbol == None && t.target.id == 5));
}

#[test]
fn adding_a_present_transition_leaves_the_state_unchanged() {
    // the transitions out of a state form a set keyed by (symbol, target)
    let mut state: State<u32> = State::new();
    state.add_transition(Some('a'), StatePtr { id: 1 });
    state.add_transition(Some('a'), StatePtr { id: 1 });
    assert_eq!(state.transitions.len(), 1);
    state.add_transition(None, StatePtr { id: 1 });
    state.add_transition(Some('a'), StatePtr { id: 2 });
    state.add_transition(None, StatePtr { id: 1 });
    assert_eq!(state.transitions.len(), 3);
}

#[test]
fn state_counts_follow_the_construction() {
    assert_eq!(states_needed(&lit('a')), Some(2));
    assert_eq!(states_needed(&Regex::Empty), Some(0));
    // a+ compiles two copies of the literal plus the star wiring
    assert_eq!(states_needed(&parse("a+").unwrap()), Some(6));
    assert_eq!(states_needed(&parse("a|b").unwrap()), Some(6));
    assert_eq!(states_needed(&parse("ab").unwrap()), Some(4));
}

#[test]
fn star_accepts_repetitions_through_the_loop_edges() {
    let nfa: NFA<u32> = NFA::build_nfa(Regex::Star(Box::new(Regex::Literal(Some('c')))), Some(9));
    // walk c three times: 2 -> 0 -c-> 1 -> 0 -c-> 1 -> 0 -c-> 1 -> 3
    let has = |from: usize, symbol: Option<char>, to: usize| {
        nfa.states[from]
            .transitions
            .iter()
            .any(|t| t.symbol == symbol && t.target.id == to)
    };
    assert!(has(2, None, 0));
    assert!(has(0, Some('c'), 1));
    assert!(has(1, None, 0));
    assert!(has(1, None, 3));
    assert!(has(2, None, 3));
}
