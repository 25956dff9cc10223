use slang_runtime::cst::Node;
use slang_runtime::kinds::{RuleKind, TokenKind};
use slang_runtime::parser_result::{IncompleteMatch, ParserResult, PrattElement, PrattOperatorMatch};
use slang_runtime::repetition_helper::RepetitionHelper;
use slang_runtime::sequence_helper::SequenceHelper;
use slang_runtime::stream::Stream;

fn token(kind: u16, text: &str) -> Node {
    Node::token(TokenKind(kind), text.chars().collect())
}

fn error_node(text: &str) -> Node {
    Node::error(text.chars().collect(), vec![])
}

#[test]
fn sequence_concatenates_full_matches() {
    let mut seq = SequenceHelper::new();
    let stop = seq.handle_next_result(ParserResult::matched(vec![token(1, "a")], vec![
        TokenKind(9),
    ]));
    assert!(!stop);
    let stop = seq.handle_next_result(ParserResult::matched(vec![token(2, "b")], vec![
        TokenKind(8),
    ]));
    assert!(!stop);
    match seq.result() {
        ParserResult::Match(m) => {
            assert_eq!(m.nodes.len(), 2);
            // only the most recent hint is kept across a successful boundary
            assert_eq!(m.expected_tokens, vec![TokenKind(8)]);
        }
        other => panic!("expected a full match, got {:?}", other),
    }
}

#[test]
fn sequence_degrades_to_incomplete_on_failure() {
    let mut seq = SequenceHelper::new();
    let stop = seq.handle_next_result(ParserResult::matched(vec![token(1, "a")], vec![
        TokenKind(9),
    ]));
    assert!(!stop);
    let stop = seq.handle_next_result(ParserResult::no_match(vec![TokenKind(7)]));
    assert!(stop);
    match seq.result() {
        ParserResult::IncompleteMatch(m) => {
            assert_eq!(m.nodes.len(), 1);
            // the accumulated and the failing hints are merged
            assert_eq!(m.expected_tokens, vec![TokenKind(9), TokenKind(7)]);
        }
        other => panic!("expected an incomplete match, got {:?}", other),
    }
}

#[test]
fn sequence_replaces_empty_running_match() {
    let mut seq = SequenceHelper::new();
    seq.handle_next_result(ParserResult::matched(vec![], vec![TokenKind(9)]));
    let stop = seq.handle_next_result(ParserResult::no_match(vec![TokenKind(7)]));
    assert!(stop);
    // an empty accumulated match is transparently replaced, so the whole
    // sequence is considered not to have started
    match seq.result() {
        ParserResult::NoMatch(m) => assert_eq!(m.expected_tokens, vec![TokenKind(7)]),
        other => panic!("expected no match, got {:?}", other),
    }
}

#[test]
fn choice_prefers_longer_incomplete_match() {
    let mut stream = Stream::new("abcdef".chars().collect());
    let mut choice = slang_runtime::choice_helper::ChoiceHelper::new(&mut stream);
    let done = choice.handle_next_result(
        &mut stream,
        ParserResult::incomplete_match(vec![token(1, "ab")], vec![TokenKind(1)]),
    );
    assert!(!done);
    let done = choice.handle_next_result(
        &mut stream,
        ParserResult::incomplete_match(vec![token(1, "abcd")], vec![TokenKind(2)]),
    );
    assert!(!done);
    // a shorter one afterwards does not displace the best so far
    let done = choice.handle_next_result(
        &mut stream,
        ParserResult::incomplete_match(vec![token(1, "a")], vec![TokenKind(3)]),
    );
    assert!(!done);
    match choice.result(&mut stream) {
        ParserResult::IncompleteMatch(m) => {
            let text: String = match &m.nodes[0] {
                Node::Token(t) => t.text.iter().collect(),
                _ => panic!("expected a token node"),
            };
            assert_eq!(text, "abcd");
        }
        other => panic!("expected an incomplete match, got {:?}", other),
    }
    // the winner's text is consumed from the choice's start
    assert_eq!(stream.position().chars, 4);
}

#[test]
fn choice_full_match_wins_immediately() {
    let mut stream = Stream::new("abc".chars().collect());
    let mut choice = slang_runtime::choice_helper::ChoiceHelper::new(&mut stream);
    choice.handle_next_result(
        &mut stream,
        ParserResult::incomplete_match(vec![token(1, "ab")], vec![]),
    );
    let done = choice.handle_next_result(
        &mut stream,
        ParserResult::matched(vec![token(1, "a")], vec![]),
    );
    assert!(done);
    assert!(matches!(choice.result(&mut stream), ParserResult::Match(_)));
}

#[test]
fn choice_merges_no_match_hints() {
    let mut stream = Stream::new("abc".chars().collect());
    let mut choice = slang_runtime::choice_helper::ChoiceHelper::new(&mut stream);
    choice.handle_next_result(&mut stream, ParserResult::no_match(vec![TokenKind(1)]));
    choice.handle_next_result(&mut stream, ParserResult::no_match(vec![TokenKind(2)]));
    match choice.result(&mut stream) {
        ParserResult::NoMatch(m) => {
            // a complete failure reports every alternative's expected tokens
            assert_eq!(m.expected_tokens, vec![TokenKind(1), TokenKind(2)]);
        }
        other => panic!("expected no match, got {:?}", other),
    }
    assert_eq!(stream.position().chars, 0);
}

#[test]
fn repetition_minimum_counts() {
    // zero-or-more over a failed first iteration: an empty match that still
    // carries the failing iteration's hint
    let (r, go) = RepetitionHelper::reduce_first(0, ParserResult::no_match(vec![TokenKind(5)]));
    assert!(!go);
    match r {
        ParserResult::Match(m) => {
            assert!(m.nodes.is_empty());
            assert_eq!(m.expected_tokens, vec![TokenKind(5)]);
        }
        other => panic!("expected an empty match, got {:?}", other),
    }
    // one-or-more propagates the failure unchanged
    let (r, go) = RepetitionHelper::reduce_first(1, ParserResult::no_match(vec![TokenKind(5)]));
    assert!(!go);
    assert!(matches!(r, ParserResult::NoMatch(_)));
}

#[test]
fn matching_byte_len_excludes_error_text() {
    let im = IncompleteMatch::new(vec![token(1, "abc"), error_node("zzzzz")], vec![]);
    assert_eq!(im.matching_byte_len(), 3);
}

#[test]
fn with_kind_wraps_nodes() {
    let r = ParserResult::matched(vec![token(1, "ab"), token(2, "cd")], vec![TokenKind(3)]);
    match r.with_kind(RuleKind(7)) {
        ParserResult::Match(m) => {
            assert_eq!(m.nodes.len(), 1);
            match &m.nodes[0] {
                Node::Rule(rn) => {
                    assert_eq!(rn.kind, RuleKind(7));
                    assert_eq!(rn.children.len(), 2);
                    assert_eq!(rn.text_len.chars, 4);
                    assert_eq!(rn.text_len.utf8, 4);
                }
                _ => panic!("expected a rule node"),
            }
            assert_eq!(m.expected_tokens, vec![TokenKind(3)]);
        }
        other => panic!("expected a full match, got {:?}", other),
    }
    // a no-match is left unchanged
    let r = ParserResult::no_match(vec![TokenKind(3)]);
    assert!(matches!(r.with_kind(RuleKind(7)), ParserResult::NoMatch(_)));
}

#[test]
fn sequence_splices_operator_match() {
    // a precedence element appearing after a plain match converts the
    // running result into an operator match whose first element wraps the
    // prior nodes as an operand
    let mut seq = SequenceHelper::new();
    seq.handle_next_result(ParserResult::matched(vec![token(1, "a")], vec![]));
    let pom = ParserResult::PrattOperatorMatch(PrattOperatorMatch::new(vec![
        PrattElement::Binary { kind: RuleKind(5), nodes: vec![token(2, "-")], left: 2, right: 3 },
    ]));
    let stop = seq.handle_next_result(pom);
    assert!(!stop);
    match seq.result() {
        ParserResult::PrattOperatorMatch(p) => {
            assert_eq!(p.elements.len(), 2);
            assert!(matches!(p.elements[0], PrattElement::Expression { .. }));
            assert!(matches!(p.elements[1], PrattElement::Binary { .. }));
        }
        other => panic!("expected an operator match, got {:?}", other),
    }
}
