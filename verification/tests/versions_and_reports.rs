use slang_runtime::debugger::{Debugger, TraceEvent};
use slang_runtime::diagnostic::Severity;
use slang_runtime::kinds::{RuleKind, TokenKind};
use slang_runtime::parse_error::ParseError;
use slang_runtime::schema::{
    ExpressionAssociativity, ExpressionConfig, ParserType, Production, ProductionKind,
    ProductionVersions, EBNF, Expression,
};
use slang_runtime::text_index::{text_len_of, TextIndex, TextRange};
use slang_runtime::version::{
    eval_ranges, Version, VersionQualityRange, VersionSpecifier,
};

#[test]
fn version_parsing_and_ordering() {
    let v = Version::parse("1.22.3").unwrap();
    assert_eq!(v, Version::new(1, 22, 3));
    assert!(Version::parse("not a version").is_none());
    assert!(Version::new(1, 9, 9).lt(&Version::new(2, 0, 0)));
    assert!(Version::new(2, 0, 0).ge(&Version::new(2, 0, 0)));
    assert!(!Version::new(2, 0, 1).lt(&Version::new(2, 0, 0)));
}

#[test]
fn version_range_conjunction() {
    let ranges = vec![
        VersionQualityRange::introduced(Version::new(1, 0, 0)),
        VersionQualityRange::removed(Version::new(3, 0, 0)),
    ];
    assert!(!eval_ranges(&ranges, &Version::new(0, 9, 0)));
    assert!(eval_ranges(&ranges, &Version::new(2, 0, 0)));
    assert!(!eval_ranges(&ranges, &Version::new(3, 0, 0)));
    // an empty conjunction is unconditionally applicable
    assert!(eval_ranges(&vec![], &Version::new(0, 0, 1)));
}

#[test]
fn version_specifiers() {
    let v = |a, b, c| Version::new(a, b, c);
    assert!(!VersionSpecifier::Never.applies(&v(1, 0, 0)));
    assert!(VersionSpecifier::From { from: v(2, 0, 0) }.applies(&v(2, 0, 0)));
    assert!(!VersionSpecifier::From { from: v(2, 0, 0) }.applies(&v(1, 9, 9)));
    assert!(VersionSpecifier::Till { till: v(2, 0, 0) }.applies(&v(1, 9, 9)));
    assert!(!VersionSpecifier::Till { till: v(2, 0, 0) }.applies(&v(2, 0, 0)));
    let range = VersionSpecifier::Range { from: v(1, 0, 0), till: v(2, 0, 0) };
    assert!(range.applies(&v(1, 5, 0)));
    assert!(!range.applies(&v(2, 0, 0)));
}

fn range_chars(start: usize, end: usize) -> TextRange {
    TextRange {
        start: TextIndex { utf8: start, utf16: start, chars: start },
        end: TextIndex { utf8: end, utf16: end, chars: end },
    }
}

#[test]
fn parse_error_to_diagnostic() {
    let err = ParseError::new(range_chars(2, 5), vec![TokenKind(4)]);
    let d = err.to_diagnostic();
    assert_eq!(d.severity, Severity::Error);
    assert_eq!(d.code, "ParseError");
    assert_eq!(d.range.start.chars, 2);
    assert_eq!(d.message, "Expected a different token here.");
    let eof = ParseError::new(range_chars(5, 5), vec![]);
    assert_eq!(eof.to_diagnostic().message, "Expected end of file.");
}

#[test]
fn error_report_survives_a_backwards_range() {
    // a hand-built error can carry a reversed range; there is no span to
    // annotate, so the report falls back to the message instead of faulting
    let err = ParseError::new(range_chars(3, 1), vec![TokenKind(4)]);
    let report = err.to_error_report("input", "abcd", false);
    assert_eq!(report, "Expected a different token here.");
}

#[test]
fn error_report_names_the_source() {
    let err = ParseError::new(range_chars(1, 2), vec![TokenKind(4)]);
    let report = err.to_error_report("lexicon", "abcd", false);
    assert!(report.contains("lexicon"));
}

#[test]
fn error_report_renders_source_context() {
    let err = ParseError::new(range_chars(2, 3), vec![TokenKind(4)]);
    let report = err.to_error_report("input", "ab!cd", false);
    // the rendered report must carry both the message and the source line;
    // handing back an input unchanged would satisfy neither
    assert!(report.contains("Expected a different token here."));
    assert!(report.contains("ab!cd"));
    // an empty source falls back to the bare message
    let report = err.to_error_report("input", "", false);
    assert_eq!(report, "Expected a different token here.");
}

#[test]
fn text_len_counts_three_units() {
    let t = text_len_of(&"aé€🙂".chars().collect());
    assert_eq!(t.chars, 4);
    assert_eq!(t.utf8, 1 + 2 + 3 + 4);
    assert_eq!(t.utf16, 1 + 1 + 1 + 2);
}

#[test]
fn debugger_records_structured_events() {
    let mut d = Debugger::with_color().ignore_trivia(true);
    assert_eq!(d.depth(), 0);
    d.enter_parser(RuleKind(1));
    d.enter_parser(RuleKind(2));
    assert_eq!(d.depth(), 2);
    d.exit_parser();
    d.log(TraceEvent { parser: RuleKind(9), depth: 1, enter: true });
    let events = d.events();
    assert_eq!(events.len(), 4);
    assert_eq!(events[1].parser, RuleKind(2));
    assert_eq!(events[1].depth, 1);
    assert!(events[1].enter);
    assert!(!events[2].enter);
    // a disabled tracer records nothing
    let mut quiet = Debugger::new();
    quiet.enter_parser(RuleKind(1));
    assert!(quiet.events().is_empty());
    assert_eq!(quiet.depth(), 1);
}

#[test]
fn schema_accessors() {
    let terminal = Expression {
        config: ExpressionConfig {
            name: None,
            parser_type: ParserType::Default,
            lookahead: None,
            associativity: None,
        },
        ebnf: EBNF::Terminal("x".into()),
    };
    assert_eq!(terminal.precedence(), 0);
    assert!(terminal.config.is_default());
    let choice = Expression {
        config: ExpressionConfig {
            name: Some("named".into()),
            parser_type: ParserType::Precedence,
            lookahead: None,
            associativity: Some(ExpressionAssociativity::Left),
        },
        ebnf: EBNF::Choice(vec![]),
    };
    assert_eq!(choice.precedence(), 4);
    assert!(!choice.config.is_default());
    assert_eq!(
        Expression { config: terminal.config, ebnf: EBNF::Not(Box::new(choice)) }.precedence(),
        1
    );

    let p = Production {
        name: "Identifier".into(),
        kind: ProductionKind::Token,
        versions: ProductionVersions::Unversioned(Box::new(Expression {
            config: ExpressionConfig {
                name: None,
                parser_type: ParserType::default(),
                lookahead: None,
                associativity: None,
            },
            ebnf: EBNF::Terminal("id".into()),
        })),
    };
    assert!(p.is_token());
    assert!(ParserType::default().is_default());
}
