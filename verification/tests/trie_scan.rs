use slang_runtime::kinds::TokenKind;
use slang_runtime::stream::Stream;
use slang_runtime::trie::{build_literal_tries, KeywordScan, LiteralEntry, Trie, TriePayload};
use slang_runtime::version::{Version, VersionSpecifier};

fn keyword_trie() -> Trie {
    let mut trie = Trie::new();
    let payload = |k: u16| TriePayload { kind: TokenKind(k), enabled: true, reserved: false };
    trie.insert(&"if".chars().collect(), payload(1));
    trie.insert(&"inside".chars().collect(), payload(2));
    trie.insert(&"in".chars().collect(), payload(3));
    trie
}

#[test]
fn longest_exact_match_wins_by_depth() {
    // "inside" must scan as the `inside` terminal, not `in` plus leftover
    // `side`, regardless of insertion order
    let trie = keyword_trie();
    let mut stream = Stream::new("inside".chars().collect());
    let payload = trie.scan(&mut stream);
    assert_eq!(payload.unwrap().kind, TokenKind(2));
    assert_eq!(stream.position().chars, 6);
}

#[test]
fn shorter_key_wins_when_input_stops_matching() {
    let trie = keyword_trie();
    let mut stream = Stream::new("in+x".chars().collect());
    let payload = trie.scan(&mut stream);
    assert_eq!(payload.unwrap().kind, TokenKind(3));
    assert_eq!(stream.position().chars, 2);
}

#[test]
fn partial_descent_is_not_retried() {
    // tries are exact-match only: "insi" descends past "in" and fails, and
    // the scan does not back up to the shorter branch
    let trie = keyword_trie();
    let mut stream = Stream::new("insi!".chars().collect());
    let payload = trie.scan(&mut stream);
    assert!(payload.is_none());
}

#[test]
fn insert_replaces_only_its_own_word() {
    let mut trie = keyword_trie();
    trie.insert(
        &"in".chars().collect(),
        TriePayload { kind: TokenKind(9), enabled: false, reserved: true },
    );
    let mut stream = Stream::new("in".chars().collect());
    let p = trie.scan(&mut stream).unwrap();
    assert_eq!(p.kind, TokenKind(9));
    assert!(p.reserved);
    let mut stream = Stream::new("if".chars().collect());
    assert_eq!(trie.scan(&mut stream).unwrap().kind, TokenKind(1));
}

#[test]
fn empty_trie_scans_nothing() {
    let trie = Trie::new();
    let mut stream = Stream::new("word".chars().collect());
    assert!(trie.scan(&mut stream).is_none());
    assert_eq!(stream.position().chars, 0);
}

#[test]
fn keyword_classification_trichotomy() {
    let kind = TokenKind(3);
    let p = |enabled, reserved| TriePayload { kind, enabled, reserved };
    // reserved outranks present, whether or not the keyword is active
    assert_eq!(p(true, true).classify(), KeywordScan::Reserved(kind));
    assert_eq!(p(false, true).classify(), KeywordScan::Reserved(kind));
    assert_eq!(p(true, false).classify(), KeywordScan::Present(kind));
    assert_eq!(p(false, false).classify(), KeywordScan::Absent);
}

#[test]
fn compiler_partitions_by_leading_character_class() {
    let entry = |text: &str, kind: u16, enabled: Option<VersionSpecifier>| LiteralEntry {
        text: text.chars().collect(),
        kind: TokenKind(kind),
        enabled,
        reserved: enabled,
    };
    let from_v2 = Some(VersionSpecifier::From { from: Version::new(2, 0, 0) });
    let entries = vec![
        entry("if", 1, None),
        entry("**", 2, None),
        entry("in", 3, from_v2),
        entry("", 9, None),
    ];
    let (alpha, non_alpha) = build_literal_tries(&entries, &Version::new(1, 0, 0));
    // alphabetic literals land in the identifier-competing trie, the others
    // in their own; the empty literal is ignored
    let mut stream = Stream::new("if".chars().collect());
    assert_eq!(alpha.scan(&mut stream).unwrap().kind, TokenKind(1));
    let mut stream = Stream::new("**".chars().collect());
    assert_eq!(non_alpha.scan(&mut stream).unwrap().kind, TokenKind(2));
    let mut stream = Stream::new("if".chars().collect());
    assert!(non_alpha.scan(&mut stream).is_none());
    // under the first version the gated keyword compiles to absent booleans
    let mut stream = Stream::new("in".chars().collect());
    let p = alpha.scan(&mut stream).unwrap();
    assert!(!p.enabled && !p.reserved);
    assert_eq!(p.classify(), KeywordScan::Absent);
    // from the second version onward it is reserved
    let (alpha, _) = build_literal_tries(&entries, &Version::new(2, 0, 0));
    let mut stream = Stream::new("in".chars().collect());
    let p = alpha.scan(&mut stream).unwrap();
    assert_eq!(p.classify(), KeywordScan::Reserved(TokenKind(3)));
}

#[test]
fn compiler_later_entry_replaces_earlier() {
    let entries = vec![
        LiteralEntry {
            text: "if".chars().collect(),
            kind: TokenKind(1),
            enabled: None,
            reserved: None,
        },
        LiteralEntry {
            text: "if".chars().collect(),
            kind: TokenKind(5),
            enabled: None,
            reserved: Some(VersionSpecifier::Never),
        },
    ];
    let (alpha, _) = build_literal_tries(&entries, &Version::new(1, 0, 0));
    let mut stream = Stream::new("if".chars().collect());
    let p = alpha.scan(&mut stream).unwrap();
    assert_eq!(p.kind, TokenKind(5));
    assert!(!p.reserved);
}
