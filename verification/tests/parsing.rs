use slang_runtime::cst::Node;
use slang_runtime::grammar::{
    eval, operator_powers, CompoundToken, DelimiterPair, GrammarNode, Language, LexContext,
    OperatorDef, PrecedenceDef, RuleDef,
};
use slang_runtime::kinds::{RuleKind, TokenKind};
use slang_runtime::model::OperatorModel;
use slang_runtime::parser_function::ParserFunction;
use slang_runtime::parser_result::{IncompleteMatch, ParserResult};
use slang_runtime::scanner::Scanner;
use slang_runtime::stream::Stream;
use slang_runtime::trie::{Trie, TriePayload};
use slang_runtime::version::{eval_opt_specifier, Version, VersionSpecifier};

const IDENT: TokenKind = TokenKind(1);
const MINUS: TokenKind = TokenKind(2);
const POW: TokenKind = TokenKind(3);
const LPAREN: TokenKind = TokenKind(4);
const RPAREN: TokenKind = TokenKind(5);
const COMMA: TokenKind = TokenKind(6);
const WS: TokenKind = TokenKind(7);
const KW_IN: TokenKind = TokenKind(8);

const EXPR: RuleKind = RuleKind(1);
const MINUS_EXPR: RuleKind = RuleKind(2);
const POW_EXPR: RuleKind = RuleKind(3);
const LIST: RuleKind = RuleKind(4);

fn ident_scanner() -> Scanner {
    Scanner::OneOrMore {
        scanner: Box::new(Scanner::Range { inclusive_start: 'a', inclusive_end: 'z' }),
    }
}

fn enabled(kind: TokenKind) -> TriePayload {
    TriePayload { kind, enabled: true, reserved: false }
}

fn test_context(keyword_in: Option<(bool, bool)>) -> LexContext {
    let mut non_alpha = Trie::new();
    non_alpha.insert(&"-".chars().collect(), enabled(MINUS));
    non_alpha.insert(&"**".chars().collect(), enabled(POW));
    non_alpha.insert(&"(".chars().collect(), enabled(LPAREN));
    non_alpha.insert(&")".chars().collect(), enabled(RPAREN));
    non_alpha.insert(&",".chars().collect(), enabled(COMMA));
    let mut alpha = Trie::new();
    if let Some((en, res)) = keyword_in {
        alpha.insert(
            &"in".chars().collect(),
            TriePayload { kind: KW_IN, enabled: en, reserved: res },
        );
    }
    LexContext {
        alpha_trie: alpha,
        non_alpha_trie: non_alpha,
        compound_tokens: vec![],
        identifier: Some(CompoundToken { kind: IDENT, scanner: ident_scanner() }),
        trivia: vec![CompoundToken {
            kind: WS,
            scanner: Scanner::OneOrMore { scanner: Box::new(Scanner::Atom { atom: vec![' '] }) },
        }],
        delimiters: vec![DelimiterPair { open: LPAREN, close: RPAREN }],
    }
}

fn expr_language() -> Language {
    let (minus_l, minus_r) = operator_powers(&OperatorModel::BinaryLeftAssociative, 0, 2);
    let (pow_l, pow_r) = operator_powers(&OperatorModel::BinaryRightAssociative, 1, 2);
    Language {
        rules: vec![
            RuleDef { kind: EXPR, ctx: 0, node: GrammarNode::Precedence(0) },
            RuleDef {
                kind: LIST,
                ctx: 0,
                node: GrammarNode::DelimitedBy(
                    LPAREN,
                    Box::new(GrammarNode::SeparatedBy(
                        Box::new(GrammarNode::Token(IDENT)),
                        COMMA,
                    )),
                    RPAREN,
                ),
            },
        ],
        precedences: vec![PrecedenceDef {
            primaries: vec![GrammarNode::Token(IDENT)],
            operators: vec![
                OperatorDef {
                    kind: MINUS_EXPR,
                    model: OperatorModel::BinaryLeftAssociative,
                    enabled: true,
                    left_power: minus_l,
                    right_power: minus_r,
                    operand: GrammarNode::Token(MINUS),
                },
                OperatorDef {
                    kind: POW_EXPR,
                    model: OperatorModel::BinaryRightAssociative,
                    enabled: true,
                    left_power: pow_l,
                    right_power: pow_r,
                    operand: GrammarNode::Token(POW),
                },
            ],
        }],
        contexts: vec![test_context(None)],
        fragments: vec![],
    }
}

fn unparse_into(node: &Node, out: &mut String) {
    match node {
        Node::Rule(r) => {
            for child in &r.children {
                unparse_into(child, out);
            }
        }
        Node::Token(t) => out.extend(t.text.iter()),
        Node::Error(e) => out.extend(e.text.iter()),
    }
}

fn unparse(node: &Node) -> String {
    let mut out = String::new();
    unparse_into(node, &mut out);
    out
}

fn count_tokens(node: &Node, kind: TokenKind) -> usize {
    match node {
        Node::Rule(r) => r.children.iter().map(|c| count_tokens(c, kind)).sum(),
        Node::Token(t) => {
            if t.kind == kind {
                1
            } else {
                0
            }
        }
        Node::Error(_) => 0,
    }
}

fn chars_of(s: &str) -> Vec<char> {
    s.chars().collect()
}

#[test]
fn lossless_on_clean_input() {
    let lang = expr_language();
    let out = lang.parse(0, &chars_of("a-b"));
    assert_eq!(unparse(&out.parse_tree), "a-b");
    assert!(out.errors.is_empty());
}

#[test]
fn lossless_on_malformed_input() {
    let lang = expr_language();
    for input in ["a-", "-", "a )x (", "((", "a ** ", " ", ""] {
        let out = lang.parse(0, &chars_of(input));
        assert_eq!(unparse(&out.parse_tree), input, "input {:?} must round-trip", input);
    }
    for input in ["( a , , b )", "( a , b", "(", "( , )"] {
        let out = lang.parse(1, &chars_of(input));
        assert_eq!(unparse(&out.parse_tree), input, "input {:?} must round-trip", input);
    }
}

#[test]
fn repeated_parses_are_identical() {
    let lang = expr_language();
    let input = chars_of("( a , , b )");
    let first = lang.parse(1, &input);
    let second = lang.parse(1, &input);
    assert_eq!(first.parse_tree, second.parse_tree);
    assert_eq!(first.errors, second.errors);
}

#[test]
fn no_match_consumes_nothing() {
    let lang = expr_language();
    let mut stream = Stream::new(chars_of("abc"));
    let r = eval(&lang, &GrammarNode::Token(MINUS), 0, &mut stream, 8);
    assert!(matches!(r, ParserResult::NoMatch(_)));
    assert_eq!(stream.position().chars, 0);
}

#[test]
fn repetition_over_failing_parser() {
    let lang = expr_language();
    // zero-or-more over an always-failing inner parser: an empty match
    // consuming nothing
    let mut stream = Stream::new(chars_of("abc"));
    let zero = GrammarNode::ZeroOrMore(Box::new(GrammarNode::Token(COMMA)));
    match eval(&lang, &zero, 0, &mut stream, 8) {
        ParserResult::Match(m) => assert!(m.nodes.is_empty()),
        other => panic!("expected an empty match, got {:?}", other),
    }
    assert_eq!(stream.position().chars, 0);
    // one-or-more over the same: no match
    let one = GrammarNode::OneOrMore(Box::new(GrammarNode::Token(COMMA)));
    let r = eval(&lang, &one, 0, &mut stream, 8);
    assert!(matches!(r, ParserResult::NoMatch(_)));
    assert_eq!(stream.position().chars, 0);
}

fn root_op(tree: &Node) -> &Node {
    match tree {
        Node::Rule(root) => {
            assert_eq!(root.kind, EXPR);
            assert_eq!(root.children.len(), 1);
            &root.children[0]
        }
        _ => panic!("expected a rule root"),
    }
}

#[test]
fn minus_is_left_associative() {
    let lang = expr_language();
    let out = lang.parse(0, &chars_of("a-b-c"));
    assert!(out.errors.is_empty());
    match root_op(&out.parse_tree) {
        Node::Rule(op) => {
            assert_eq!(op.kind, MINUS_EXPR);
            // (a - b) - c: the nested operator node is the left operand
            assert_eq!(unparse(&op.children[0]), "a-b");
            match &op.children[0] {
                Node::Rule(inner) => assert_eq!(inner.kind, MINUS_EXPR),
                _ => panic!("expected a nested minus"),
            }
        }
        _ => panic!("expected an operator node"),
    }
}

#[test]
fn exponentiation_is_right_associative() {
    let lang = expr_language();
    let out = lang.parse(0, &chars_of("a**b**c"));
    assert!(out.errors.is_empty());
    match root_op(&out.parse_tree) {
        Node::Rule(op) => {
            assert_eq!(op.kind, POW_EXPR);
            // a ** (b ** c): the nested operator node is the right operand
            let last = op.children.last().unwrap();
            assert_eq!(unparse(last), "b**c");
            match last {
                Node::Rule(inner) => assert_eq!(inner.kind, POW_EXPR),
                _ => panic!("expected a nested exponentiation"),
            }
        }
        _ => panic!("expected an operator node"),
    }
}

#[test]
fn recovery_keeps_both_elements_and_the_closer() {
    let lang = expr_language();
    let input = "( a , , b )";
    let out = lang.parse(1, &chars_of(input));
    // exactly one diagnostic for the empty slot
    assert_eq!(out.errors.len(), 1);
    assert_eq!(unparse(&out.parse_tree), input);
    // both list elements survive recovery
    assert_eq!(count_tokens(&out.parse_tree, IDENT), 2);
    // the closing parenthesis is matched as the list's terminator, not
    // swallowed: the root's last token is the closer
    assert_eq!(count_tokens(&out.parse_tree, RPAREN), 1);
    match &out.parse_tree {
        Node::Rule(root) => {
            let last = root.children.last().unwrap();
            match last {
                Node::Token(t) => assert_eq!(t.kind, RPAREN),
                other => panic!("expected the closer last, got {:?}", other),
            }
        }
        _ => panic!("expected a rule root"),
    }
}

#[test]
fn total_failure_yields_one_covering_error() {
    let lang = expr_language();
    let out = lang.parse(0, &chars_of("-"));
    assert!(matches!(out.parse_tree, Node::Error(_)));
    assert_eq!(out.errors.len(), 1);
    assert_eq!(out.errors[0].text_range.start.chars, 0);
    assert_eq!(out.errors[0].text_range.end.chars, 1);
    assert_eq!(unparse(&out.parse_tree), "-");
}

#[test]
fn leftover_input_becomes_a_trailing_error() {
    let lang = expr_language();
    let out = lang.parse(0, &chars_of("a )"));
    assert_eq!(unparse(&out.parse_tree), "a )");
    assert_eq!(out.errors.len(), 1);
    // the diagnostic covers the unconsumed suffix
    assert_eq!(out.errors[0].text_range.end.chars, 3);
}

fn keyword_language(version: &Version) -> Language {
    // the keyword "in" is reserved (and active) only from the second major
    // version onward
    let gate = Some(VersionSpecifier::From { from: Version::new(2, 0, 0) });
    let en = eval_opt_specifier(&gate, version);
    let res = eval_opt_specifier(&gate, version);
    Language {
        rules: vec![RuleDef { kind: EXPR, ctx: 0, node: GrammarNode::Token(KW_IN) }],
        precedences: vec![],
        contexts: vec![test_context(Some((en, res)))],
        fragments: vec![],
    }
}

#[test]
fn version_gates_keyword_scanning() {
    // under the first version the same text is a plain identifier
    let v1 = keyword_language(&Version::new(1, 0, 0));
    let mut stream = Stream::new(chars_of("in"));
    assert_eq!(v1.next_token(0, &mut stream), Some(IDENT));
    // from the second version onward it is the reserved keyword
    let v2 = keyword_language(&Version::new(2, 0, 0));
    let mut stream = Stream::new(chars_of("in"));
    assert_eq!(v2.next_token(0, &mut stream), Some(KW_IN));
}

#[test]
fn keyword_loses_to_longer_identifier() {
    let v2 = keyword_language(&Version::new(2, 0, 0));
    let mut stream = Stream::new(chars_of("inquire"));
    assert_eq!(v2.next_token(0, &mut stream), Some(IDENT));
    assert_eq!(stream.position().chars, 7);
}

#[test]
fn version_gate_disables_silently() {
    let lang = expr_language();
    let mut stream = Stream::new(chars_of("a"));
    // a gate compiled to false: silent, nothing consumed, empty hint
    let gated = GrammarNode::Gated(false, Box::new(GrammarNode::Token(IDENT)));
    match eval(&lang, &gated, 0, &mut stream, 8) {
        ParserResult::NoMatch(m) => assert!(m.expected_tokens.is_empty()),
        other => panic!("expected a silent no-match, got {:?}", other),
    }
    assert_eq!(stream.position().chars, 0);
    // the same gate compiled to true parses normally
    let open = GrammarNode::Gated(true, Box::new(GrammarNode::Token(IDENT)));
    assert!(matches!(eval(&lang, &open, 0, &mut stream, 8), ParserResult::Match(_)));
    assert_eq!(stream.position().chars, 1);
}

#[test]
fn optional_match_is_transparent() {
    let lang = expr_language();
    let mut stream = Stream::new(chars_of("-"));
    let node = GrammarNode::Sequence(vec![
        GrammarNode::Optional(Box::new(GrammarNode::Token(IDENT))),
        GrammarNode::Token(MINUS),
    ]);
    match eval(&lang, &node, 0, &mut stream, 8) {
        ParserResult::Match(m) => {
            // the empty optional leaves no spurious node behind
            assert_eq!(m.nodes.len(), 1);
        }
        other => panic!("expected a match, got {:?}", other),
    }
}

#[test]
fn unclosed_delimiter_stays_incomplete() {
    let lang = expr_language();
    // the closer is simply missing: the partial match is kept, the tree
    // still round-trips, and no closer token is invented
    let out = lang.parse(1, &chars_of("( a , b"));
    assert_eq!(unparse(&out.parse_tree), "( a , b");
    assert_eq!(count_tokens(&out.parse_tree, RPAREN), 0);
    // with extra text after the unclosed body, the leftover is surfaced as
    // one diagnostic covering the unconsumed suffix
    let out = lang.parse(1, &chars_of("( a , b ! "));
    assert_eq!(unparse(&out.parse_tree), "( a , b ! ");
    assert_eq!(out.errors.len(), 1);
}

#[test]
fn grammar_tables_pass_the_runtime_check() {
    let lang = expr_language();
    assert!(lang.check_wf());
    // a dangling rule reference is caught
    let broken = Language {
        rules: vec![RuleDef { kind: EXPR, ctx: 0, node: GrammarNode::Reference(7) }],
        precedences: vec![],
        contexts: vec![test_context(None)],
        fragments: vec![],
    };
    assert!(!broken.check_wf());
    // an out-of-range lexical context is caught
    let broken = Language {
        rules: vec![RuleDef { kind: EXPR, ctx: 3, node: GrammarNode::Token(IDENT) }],
        precedences: vec![],
        contexts: vec![test_context(None)],
        fragments: vec![],
    };
    assert!(!broken.check_wf());
}

#[test]
fn nested_delimiters_are_not_recovery_points() {
    // the skip must not stop at a nested pair's closer: the doubled comma
    // slot contains a parenthesized group that recovery steps across
    let lang = expr_language();
    let input = "( a , ( b ) x , c )";
    let out = lang.parse(1, &chars_of(input));
    assert_eq!(unparse(&out.parse_tree), input);
    // the last child is still the list's own closer
    match &out.parse_tree {
        Node::Rule(root) => match root.children.last().unwrap() {
            Node::Token(t) => assert_eq!(t.kind, RPAREN),
            other => panic!("expected the closer last, got {:?}", other),
        },
        _ => panic!("expected a rule root"),
    }
}

struct TokenCounter {
    tokens: usize,
    rules: usize,
    errors: usize,
    chars: usize,
}

impl slang_runtime::visitor::Visitor for TokenCounter {
    fn rule_enter(
        &mut self,
        _node: &slang_runtime::cst::RuleNode,
        _offset: &slang_runtime::text_index::TextIndex,
    ) -> slang_runtime::visitor::Step {
        self.rules += 1;
        slang_runtime::visitor::Step::In
    }

    fn rule_exit(
        &mut self,
        _node: &slang_runtime::cst::RuleNode,
        _offset: &slang_runtime::text_index::TextIndex,
    ) {
    }

    fn token(
        &mut self,
        node: &slang_runtime::cst::TokenNode,
        offset: &slang_runtime::text_index::TextIndex,
    ) {
        // offsets arrive in document order, measured in code points
        assert_eq!(offset.chars, self.tokens_seen_chars());
        self.chars += node.text.len();
        self.tokens += 1;
    }

    fn error(
        &mut self,
        _node: &slang_runtime::cst::ErrorNode,
        _range: &slang_runtime::text_index::TextRange,
    ) {
        self.errors += 1;
    }
}

impl TokenCounter {
    fn tokens_seen_chars(&self) -> usize {
        self.chars
    }
}

#[test]
fn visitor_walks_in_document_order() {
    let lang = expr_language();
    let out = lang.parse(0, &chars_of("a-b"));
    let mut counter = TokenCounter { tokens: 0, rules: 0, errors: 0, chars: 0 };
    let cursor = slang_runtime::visitor::Cursor::new(&out.parse_tree);
    cursor.drive_visitor(&mut counter);
    assert_eq!(counter.tokens, 3);
    assert!(counter.rules >= 2);
    assert_eq!(counter.errors, 0);
}

#[test]
fn recovery_error_node_carries_the_hint() {
    // delimiter-aware recovery: the skipped span lands in one trailing
    // error node that carries the recovery-triggering expected set
    let lang = expr_language();
    let mut stream = Stream::new(chars_of("zz)"));
    let incomplete = ParserResult::IncompleteMatch(IncompleteMatch::new(
        vec![],
        vec![MINUS],
    ));
    match incomplete.try_recover_with(&lang, 0, RPAREN, &mut stream) {
        ParserResult::Match(m) => {
            assert_eq!(m.nodes.len(), 1);
            match &m.nodes[0] {
                Node::Error(e) => {
                    let text: String = e.text.iter().collect();
                    assert_eq!(text, "zz");
                    assert_eq!(e.expected, vec![MINUS]);
                }
                other => panic!("expected an error node, got {:?}", other),
            }
            assert_eq!(m.expected_tokens, vec![MINUS]);
        }
        other => panic!("expected a match after recovery, got {:?}", other),
    }
    // the stopping closer is left for the caller to match
    assert_eq!(stream.position().chars, 2);
}
