use vstd::prelude::*;

use crate::cst::{lemma_nodes_text_push, lemma_nodes_wf_push, nodes_text, nodes_wf, Node};
use crate::kinds::{RuleKind, TokenKind};
use crate::model::OperatorModel;
use crate::parser_result::{result_text, result_wf, ParserResult};
use crate::scanner::{fragments_wf, scan, scanner_wf, Scanner};
use crate::stream::Stream;
use crate::text_index::TextIndex;
use crate::trie::{trie_wf, Trie};

verus! {

/// How many nested fragment references a scanner may chase before the
/// lookup is treated as a miss.
pub const SCANNER_FUEL: usize = 64;

/// One node of a compiled production: the closed set of combinator shapes a
/// rule body is built from. Version gates are already evaluated to booleans;
/// rule and precedence references go through index tables, which is how
/// cyclic references are broken.
#[derive(Debug)]
pub enum GrammarNode {
    /// One terminal, parsed with its leading trivia.
    Token(TokenKind),
    Sequence(Vec<GrammarNode>),
    Choice(Vec<GrammarNode>),
    Optional(Box<GrammarNode>),
    ZeroOrMore(Box<GrammarNode>),
    OneOrMore(Box<GrammarNode>),
    /// A named rule, by its index in the rule table.
    Reference(usize),
    /// Open token, body with recovery to the close token, close token.
    DelimitedBy(TokenKind, Box<GrammarNode>, TokenKind),
    /// Body with recovery to the terminator token, then the terminator.
    TerminatedBy(Box<GrammarNode>, TokenKind),
    /// One or more bodies separated by a token, with recovery to the
    /// separator.
    SeparatedBy(Box<GrammarNode>, TokenKind),
    /// A version gate, compiled to a boolean for the target version.
    Gated(bool, Box<GrammarNode>),
    /// A precedence (expression) rule, by its index in the precedence table.
    Precedence(usize),
}

pub open spec fn grammar_node_wf(n: GrammarNode, nrules: int, nprecs: int) -> bool
    decreases n,
{
    match n {
        GrammarNode::Token(_) => true,
        GrammarNode::Sequence(children) => forall|i: int|
            0 <= i < children@.len() ==> grammar_node_wf(#[trigger] children@[i], nrules, nprecs),
        GrammarNode::Choice(children) => forall|i: int|
            0 <= i < children@.len() ==> grammar_node_wf(#[trigger] children@[i], nrules, nprecs),
        GrammarNode::Optional(child) => grammar_node_wf(*child, nrules, nprecs),
        GrammarNode::ZeroOrMore(child) => grammar_node_wf(*child, nrules, nprecs),
        GrammarNode::OneOrMore(child) => grammar_node_wf(*child, nrules, nprecs),
        GrammarNode::Reference(i) => 0 <= i < nrules,
        GrammarNode::DelimitedBy(_, body, _) => grammar_node_wf(*body, nrules, nprecs),
        GrammarNode::TerminatedBy(body, _) => grammar_node_wf(*body, nrules, nprecs),
        GrammarNode::SeparatedBy(body, _) => grammar_node_wf(*body, nrules, nprecs),
        GrammarNode::Gated(_, body) => grammar_node_wf(*body, nrules, nprecs),
        GrammarNode::Precedence(i) => 0 <= i < nprecs,
    }
}

/// A token whose scanner is not a plain literal, tried by the lexer after
/// the literal tries.
#[derive(Debug)]
pub struct CompoundToken {
    pub kind: TokenKind,
    pub scanner: Scanner,
}

/// A registered pair of delimiters of a lexical context; recovery uses these
/// to keep a nested, unrelated pair from ending a skip early.
#[derive(Clone, Copy, Debug, PartialEq, Eq, Structural)]
pub struct DelimiterPair {
    pub open: TokenKind,
    pub close: TokenKind,
}

/// One lexical context: a named scanning mode with its own keyword tries,
/// token scanners and delimiter set.
#[derive(Debug)]
pub struct LexContext {
    /// Longest-match trie over literals that start alphabetically; competes
    /// with the identifier scanner.
    pub alpha_trie: Trie,
    /// Longest-match trie over the other literals.
    pub non_alpha_trie: Trie,
    /// Tokens with non-literal scanners.
    pub compound_tokens: Vec<CompoundToken>,
    /// The generic identifier scanner, if this context has one.
    pub identifier: Option<CompoundToken>,
    /// Trivia scanners: whitespace and comments, attached before tokens.
    pub trivia: Vec<CompoundToken>,
    /// The context's registered delimiter pairs.
    pub delimiters: Vec<DelimiterPair>,
}

/// One named rule of the compiled grammar.
#[derive(Debug)]
pub struct RuleDef {
    pub kind: RuleKind,
    pub ctx: usize,
    pub node: GrammarNode,
}

/// One operator of a precedence rule, with its binding powers derived from
/// declaration order (earlier-declared operators bind tighter).
#[derive(Debug)]
pub struct OperatorDef {
    pub kind: RuleKind,
    pub model: OperatorModel,
    pub enabled: bool,
    pub left_power: u8,
    pub right_power: u8,
    pub operand: GrammarNode,
}

/// A compiled precedence rule: primary-expression alternatives and the
/// operator set.
#[derive(Debug)]
pub struct PrecedenceDef {
    pub primaries: Vec<GrammarNode>,
    pub operators: Vec<OperatorDef>,
}

/// A compiled grammar: immutable tables that any number of independent
/// parses can share, each parse owning its own stream and building its own
/// tree.
#[derive(Debug)]
pub struct Language {
    pub rules: Vec<RuleDef>,
    pub precedences: Vec<PrecedenceDef>,
    pub contexts: Vec<LexContext>,
    pub fragments: Vec<Scanner>,
}

pub open spec fn compound_wf(c: CompoundToken, nfrags: int) -> bool {
    scanner_wf(c.scanner, nfrags)
}

pub open spec fn context_wf(c: LexContext, nfrags: int) -> bool {
    &&& trie_wf(c.alpha_trie)
    &&& trie_wf(c.non_alpha_trie)
    &&& forall|i: int|
        0 <= i < c.compound_tokens@.len() ==> compound_wf(#[trigger] c.compound_tokens@[i], nfrags)
    &&& match c.identifier {
        Option::Some(t) => compound_wf(t, nfrags),
        Option::None => true,
    }
    &&& forall|i: int| 0 <= i < c.trivia@.len() ==> compound_wf(#[trigger] c.trivia@[i], nfrags)
}

pub open spec fn precedence_def_wf(p: PrecedenceDef, nrules: int, nprecs: int) -> bool {
    &&& forall|i: int|
        0 <= i < p.primaries@.len() ==> grammar_node_wf(#[trigger] p.primaries@[i], nrules, nprecs)
    &&& forall|i: int|
        0 <= i < p.operators@.len() ==> grammar_node_wf(
            (#[trigger] p.operators@[i]).operand,
            nrules,
            nprecs,
        )
}

pub open spec fn language_wf(lang: Language) -> bool {
    &&& fragments_wf(lang.fragments@)
    &&& forall|i: int|
        0 <= i < lang.contexts@.len() ==> context_wf(
            #[trigger] lang.contexts@[i],
            lang.fragments@.len() as int,
        )
    &&& forall|i: int|
        0 <= i < lang.rules@.len() ==> (#[trigger] lang.rules@[i]).ctx < lang.contexts@.len()
            && grammar_node_wf(
            lang.rules@[i].node,
            lang.rules@.len() as int,
            lang.precedences@.len() as int,
        )
    &&& forall|i: int|
        0 <= i < lang.precedences@.len() ==> precedence_def_wf(
            #[trigger] lang.precedences@[i],
            lang.rules@.len() as int,
            lang.precedences@.len() as int,
        )
}

/// The position-and-text discipline every parsing step obeys: a `NoMatch`
/// leaves the stream exactly where it was; anything else advanced the stream
/// past exactly the text its nodes carry. A `PrattOperatorMatch` never
/// escapes the precedence combinator.
pub open spec fn step_ok(r: ParserResult, t: Seq<char>, p0: TextIndex, s1: Stream) -> bool {
    &&& result_wf(r)
    &&& !(r is PrattOperatorMatch)
    &&& s1.wf()
    &&& s1.text() == t
    &&& if r is NoMatch {
        s1.pos_index() == p0
    } else {
        &&& s1.pos() == p0.chars + result_text(r).len()
        &&& result_text(r) == t.subrange(p0.chars as int, s1.pos())
    }
}

/// A trie keyword candidate is visible at a position when the descent
/// consumes at least one character and the word survives its version gates
/// (it is enabled or reserved).
pub open spec fn keyword_candidate_visible(t: Trie, rem: Seq<char>) -> bool {
    &&& crate::trie::trie_scan_spec(t, rem).0 > 0
    &&& crate::trie::trie_scan_spec(t, rem).1 matches Some(p)
    &&& (p.enabled || p.reserved)
}

/// How many characters the visible candidate covers.
pub open spec fn keyword_candidate_depth(t: Trie, rem: Seq<char>) -> int {
    crate::trie::trie_scan_spec(t, rem).0
}

/// The visible candidate's terminal kind.
pub open spec fn keyword_candidate_kind(t: Trie, rem: Seq<char>) -> TokenKind {
    crate::trie::trie_scan_spec(t, rem).1.unwrap().kind
}

/// The shape a single-terminal parse yields: a full match ends in a token
/// of the requested kind, preceded only by trivia tokens, with no pending
/// hint; a failure consumes nothing and names the requested kind as the
/// only expectation.
pub open spec fn token_result_shape(kind: TokenKind, r: ParserResult) -> bool {
    &&& (r is Match || r is NoMatch)
    &&& (r matches ParserResult::NoMatch(nm) ==> nm.expected_tokens@ == seq![kind])
    &&& (r matches ParserResult::Match(m) ==> ({
        &&& m.nodes@.len() >= 1
        &&& m.nodes@.last() matches Node::Token(tk)
        &&& tk.kind == kind
        &&& (forall|j: int| 0 <= j < m.nodes@.len() - 1 ==> (#[trigger] m.nodes@[j]) is Token)
        &&& m.expected_tokens@ == Seq::<TokenKind>::empty()
    }))
}

impl Language {
    /// Scans the next token of a lexical context: all candidates are tried
    /// from the same position and the longest wins. A visible trie keyword
    /// (enabled or reserved for the target version) guarantees a token, and
    /// at least its own length is consumed; a keyword beats an identifier
    /// of the same length, an identifier beats a shorter keyword; with no
    /// identifier or compound scanners the verdict is exactly the deeper
    /// visible trie candidate. A `None` restores the position.
    #[verifier::loop_isolation(false)]
    pub fn next_token(&self, ctx: usize, stream: &mut Stream) -> (r: Option<TokenKind>)
        requires
            language_wf(*self),
            ctx < self.contexts@.len(),
            old(stream).wf(),
        ensures
            final(stream).wf(),
            final(stream).text() == old(stream).text(),
            r is Some ==> final(stream).pos() > old(stream).pos(),
            r is None ==> final(stream).pos_index() == old(stream).pos_index(),
            ({
                let rem = old(stream).text().skip(old(stream).pos());
                let lex = self.contexts@[ctx as int];
                let avis = keyword_candidate_visible(lex.alpha_trie, rem);
                let nvis = keyword_candidate_visible(lex.non_alpha_trie, rem);
                let ad = keyword_candidate_depth(lex.alpha_trie, rem);
                let nd = keyword_candidate_depth(lex.non_alpha_trie, rem);
                &&& (avis ==> r is Some && final(stream).pos() >= old(stream).pos() + ad)
                &&& (nvis ==> r is Some && final(stream).pos() >= old(stream).pos() + nd)
                &&& ((lex.identifier is None && lex.compound_tokens@.len() == 0) ==> ({
                    &&& (r is None <==> (!avis && !nvis))
                    &&& ((avis && (!nvis || nd <= ad)) ==> r == Some(
                        keyword_candidate_kind(lex.alpha_trie, rem),
                    ) && final(stream).pos() == old(stream).pos() + ad)
                    &&& ((nvis && (!avis || ad < nd)) ==> r == Some(
                        keyword_candidate_kind(lex.non_alpha_trie, rem),
                    ) && final(stream).pos() == old(stream).pos() + nd)
                }))
            }),
    {
        let ghost rem = old(stream).text().skip(old(stream).pos());
        let ghost lexv = self.contexts@[ctx as int];
        let ghost avis = keyword_candidate_visible(lexv.alpha_trie, rem);
        let ghost nvis = keyword_candidate_visible(lexv.non_alpha_trie, rem);
        let ghost ad = keyword_candidate_depth(lexv.alpha_trie, rem);
        let ghost nd = keyword_candidate_depth(lexv.non_alpha_trie, rem);
        let ghost trie_only = lexv.identifier is None && lexv.compound_tokens@.len() == 0;
        let start = stream.position();
        let lex = &self.contexts[ctx];
        let mut best: Option<TokenKind> = None;
        let mut best_end = start;

        // The identifier's reach decides whether a keyword candidate is
        // really a keyword or only the prefix of a longer identifier.
        let mut ident_end: Option<TextIndex> = None;
        match &lex.identifier {
            Some(tok) => {
                let m = scan(&tok.scanner, &self.fragments, stream, SCANNER_FUEL);
                if m {
                    let e = stream.position();
                    if e.chars > start.chars {
                        ident_end = Some(e);
                    }
                }
                stream.set_position(start);
            }
            None => {}
        }

        match lex.alpha_trie.scan(stream) {
            Some(p) => {
                let e = stream.position();
                stream.set_position(start);
                let beats_ident = match ident_end {
                    Some(ie) => e.chars >= ie.chars,
                    None => true,
                };
                let visible = match p.classify() {
                    crate::trie::KeywordScan::Reserved(_) => true,
                    crate::trie::KeywordScan::Present(_) => true,
                    crate::trie::KeywordScan::Absent => false,
                };
                if visible && beats_ident && e.chars > start.chars {
                    best = Some(p.kind);
                    best_end = e;
                }
            }
            None => {
                stream.set_position(start);
            }
        }
        proof {
            if avis {
                assert(({
                    ||| (best is Some && best_end.chars >= start.chars + ad)
                    ||| ({
                        &&& ident_end matches Some(ie)
                        &&& ie.chars > start.chars + ad
                    })
                }));
            }
        }

        match lex.non_alpha_trie.scan(stream) {
            Some(p) => {
                let e = stream.position();
                stream.set_position(start);
                if (p.enabled || p.reserved) && e.chars > start.chars && (match best {
                    Some(_) => e.chars > best_end.chars,
                    None => true,
                }) {
                    best = Some(p.kind);
                    best_end = e;
                }
            }
            None => {
                stream.set_position(start);
            }
        }
        proof {
            if trie_only {
                if avis && (!nvis || nd <= ad) {
                    assert(best == Some(keyword_candidate_kind(lexv.alpha_trie, rem))
                        && best_end.chars == start.chars + ad);
                }
                if nvis && (!avis || ad < nd) {
                    assert(best == Some(keyword_candidate_kind(lexv.non_alpha_trie, rem))
                        && best_end.chars == start.chars + nd);
                }
                if !avis && !nvis {
                    assert(best is None);
                }
            }
        }

        let mut i: usize = 0;
        while i < lex.compound_tokens.len()
            invariant
                stream.wf(),
                stream.text() == old(stream).text(),
                stream.pos_index() == start,
                old(stream).valid_position(start),
                stream.valid_position(best_end),
                best is Some ==> best_end.chars > start.chars,
                avis ==> ({
                    ||| (best is Some && best_end.chars >= start.chars + ad)
                    ||| ({
                        &&& ident_end matches Some(ie)
                        &&& ie.chars > start.chars + ad
                    })
                }),
                nvis ==> (best is Some && best_end.chars >= start.chars + nd),
                (trie_only && avis && (!nvis || nd <= ad)) ==> (best == Some(
                    keyword_candidate_kind(lexv.alpha_trie, rem),
                ) && best_end.chars == start.chars + ad),
                (trie_only && nvis && (!avis || ad < nd)) ==> (best == Some(
                    keyword_candidate_kind(lexv.non_alpha_trie, rem),
                ) && best_end.chars == start.chars + nd),
                (trie_only && !avis && !nvis) ==> best is None,
            decreases lex.compound_tokens@.len() - i,
        {
            let m = scan(&lex.compound_tokens[i].scanner, &self.fragments, stream, SCANNER_FUEL);
            if m {
                let e = stream.position();
                stream.set_position(start);
                if e.chars > start.chars && (match best {
                    Some(_) => e.chars > best_end.chars,
                    None => true,
                }) {
                    best = Some(lex.compound_tokens[i].kind);
                    best_end = e;
                }
            }
            i = i + 1;
        }

        // The identifier is the fallback: it loses ties against keywords.
        match (&lex.identifier, ident_end) {
            (Some(tok), Some(e)) => {
                if match best {
                    Some(_) => e.chars > best_end.chars,
                    None => true,
                } {
                    best = Some(tok.kind);
                    best_end = e;
                }
            }
            _ => {}
        }
        proof {
            if avis {
                assert(best is Some && best_end.chars >= start.chars + ad);
            }
            if nvis {
                assert(best is Some && best_end.chars >= start.chars + nd);
            }
            if trie_only {
                assert(lexv.identifier is None);
            }
        }

        match best {
            Some(k) => {
                stream.set_position(best_end);
                Some(k)
            }
            None => {
                stream.set_position(start);
                None
            }
        }
    }

    /// Parses one terminal of the given kind, preceded by any leading
    /// trivia. On failure nothing is consumed, not even trivia.
    #[verifier::loop_isolation(false)]
    pub fn parse_token_with_trivia(&self, ctx: usize, kind: TokenKind, stream: &mut Stream) -> (r:
        ParserResult)
        requires
            language_wf(*self),
            ctx < self.contexts@.len(),
            old(stream).wf(),
        ensures
            step_ok(r, old(stream).text(), old(stream).pos_index(), *final(stream)),
            token_result_shape(kind, r),
            r is Match ==> final(stream).pos() > old(stream).pos(),
            ({
                // with no trivia and a trie-only lexer, success is owed
                // whenever the requested kind is the dominant candidate
                let rem = old(stream).text().skip(old(stream).pos());
                let lex = self.contexts@[ctx as int];
                let avis = keyword_candidate_visible(lex.alpha_trie, rem);
                let nvis = keyword_candidate_visible(lex.non_alpha_trie, rem);
                let ad = keyword_candidate_depth(lex.alpha_trie, rem);
                let nd = keyword_candidate_depth(lex.non_alpha_trie, rem);
                (lex.trivia@.len() == 0 && lex.identifier is None && lex.compound_tokens@.len()
                    == 0) ==> ({
                    &&& ((avis && (!nvis || nd <= ad) && keyword_candidate_kind(
                        lex.alpha_trie,
                        rem,
                    ) == kind) ==> r is Match)
                    &&& ((nvis && (!avis || ad < nd) && keyword_candidate_kind(
                        lex.non_alpha_trie,
                        rem,
                    ) == kind) ==> r is Match)
                })
            }),
    {
        let ghost lexv = self.contexts@[ctx as int];
        let start = stream.position();
        let lex = &self.contexts[ctx];
        let mut nodes: Vec<Node> = Vec::new();
        proof {
            assert(nodes_text(nodes@) =~= stream.text().subrange(
                start.chars as int,
                stream.pos(),
            ));
        }
        loop
            invariant
                stream.wf(),
                stream.text() == old(stream).text(),
                old(stream).valid_position(start),
                stream.pos() >= start.chars,
                nodes_wf(nodes@),
                nodes_text(nodes@) == stream.text().subrange(start.chars as int, stream.pos()),
                forall|j: int| 0 <= j < nodes@.len() ==> (#[trigger] nodes@[j]) is Token,
                lexv.trivia@.len() == 0 ==> (stream.pos_index() == start && nodes@.len()
                    == 0),
            decreases stream.text().len() - stream.pos(),
        {
            let tstart = stream.position();
            let mut matched_trivia = false;
            let mut ti: usize = 0;
            while ti < lex.trivia.len() && !matched_trivia
                invariant
                    stream.wf(),
                    stream.text() == old(stream).text(),
                    stream.valid_position(tstart),
                    !matched_trivia ==> stream.pos_index() == tstart,
                    matched_trivia ==> stream.pos() > tstart.chars,
                    matched_trivia ==> lexv.trivia@.len() > 0,
                    matched_trivia ==> nodes_wf(nodes@) && nodes_text(nodes@)
                        == stream.text().subrange(start.chars as int, stream.pos()),
                    !matched_trivia ==> nodes_wf(nodes@) && nodes_text(nodes@)
                        == stream.text().subrange(start.chars as int, tstart.chars as int),
                    forall|j: int| 0 <= j < nodes@.len() ==> (#[trigger] nodes@[j]) is Token,
                    tstart.chars >= start.chars,
                decreases lex.trivia@.len() - ti,
            {
                let m = scan(&lex.trivia[ti].scanner, &self.fragments, stream, SCANNER_FUEL);
                if m {
                    let e = stream.position();
                    if e.chars > tstart.chars {
                        let text = stream.text_between(tstart.chars, e.chars);
                        let ghost nv = nodes@;
                        let node = Node::token(lex.trivia[ti].kind, text);
                        nodes.push(node);
                        proof {
                            lemma_nodes_text_push(nv, nodes@[nv.len() as int]);
                            lemma_nodes_wf_push(nv, nodes@[nv.len() as int]);
                            assert(stream.text().subrange(start.chars as int, tstart.chars as int)
                                + stream.text().subrange(tstart.chars as int, e.chars as int)
                                =~= stream.text().subrange(start.chars as int, e.chars as int));
                        }
                        matched_trivia = true;
                    } else {
                        stream.set_position(tstart);
                    }
                }
                ti = ti + 1;
            }
            if !matched_trivia {
                break ;
            }
        }
        let tok_start = stream.position();
        let found = self.next_token(ctx, stream);
        match found {
            Some(k) => {
                if k == kind {
                    let end = stream.position();
                    let text = stream.text_between(tok_start.chars, end.chars);
                    let ghost nv = nodes@;
                    let node = Node::token(kind, text);
                    nodes.push(node);
                    proof {
                        lemma_nodes_text_push(nv, nodes@[nv.len() as int]);
                        lemma_nodes_wf_push(nv, nodes@[nv.len() as int]);
                        assert(stream.text().subrange(start.chars as int, tok_start.chars as int)
                            + stream.text().subrange(tok_start.chars as int, end.chars as int)
                            =~= stream.text().subrange(start.chars as int, end.chars as int));
                        assert(nodes@.last() == nodes@[nv.len() as int]);
                    }
                    let r = ParserResult::matched(nodes, Vec::new());
                    proof {
                        assert(result_text(r) == nodes_text(nodes@));
                    }
                    r
                } else {
                    stream.set_position(start);
                    let mut expected: Vec<TokenKind> = Vec::new();
                    expected.push(kind);
                    proof {
                        assert(expected@ =~= seq![kind]);
                    }
                    ParserResult::no_match(expected)
                }
            }
            None => {
                stream.set_position(start);
                let mut expected: Vec<TokenKind> = Vec::new();
                expected.push(kind);
                proof {
                    assert(expected@ =~= seq![kind]);
                }
                ParserResult::no_match(expected)
            }
        }
    }
}


/// Two positions of the same text with equal code-point counts agree in all
/// three units.
pub proof fn lemma_index_agreement(t: Seq<char>, a: TextIndex, b: TextIndex)
    requires
        a.is_len_of(t.take(a.chars as int)),
        b.is_len_of(t.take(b.chars as int)),
        a.chars == b.chars,
    ensures
        a == b,
{
}

/// Binding powers implied by an operator's declaration order: the earlier
/// the declaration, the tighter the binding. A left-associative operator
/// asks strictly more of its right operand; a right-associative one asks
/// the same, so an equal operator to the right binds first.
pub fn operator_powers(model: &OperatorModel, index: usize, count: usize) -> (r: (u8, u8))
    requires
        index < count,
        count <= 100,
    ensures
        ({
            let base = (2 * (count - index)) as u8;
            match *model {
                OperatorModel::Prefix => r == (0u8, base),
                OperatorModel::Postfix => r == (base, 0u8),
                OperatorModel::BinaryLeftAssociative => r.0 == base && r.1 == base + 1,
                OperatorModel::BinaryRightAssociative => r == (base, base),
            }
        }),
{
    let base: u8 = (2 * (count - index)) as u8;
    match model {
        OperatorModel::Prefix => (0, base),
        OperatorModel::Postfix => (base, 0),
        OperatorModel::BinaryLeftAssociative => (base, base + 1),
        OperatorModel::BinaryRightAssociative => (base, base),
    }
}

/// A no-match consumes nothing: any step that reports `NoMatch` leaves the
/// stream's position, in all three units, exactly where it was before the
/// attempt; the result itself carries no nodes by construction.
pub proof fn lemma_no_match_consumes_nothing(
    r: ParserResult,
    t: Seq<char>,
    p0: TextIndex,
    s1: Stream,
)
    requires
        step_ok(r, t, p0, s1),
        r is NoMatch,
    ensures
        s1.pos_index() == p0,
        result_text(r) == Seq::<char>::empty(),
{
}

/// Evaluates one grammar node against the stream: the single recursive
/// engine behind every compiled rule. Recursion through rule and precedence
/// references is bounded by `depth`; at the cap the attempt reports no
/// match instead of overflowing the call stack.
pub fn eval(
    lang: &Language,
    node: &GrammarNode,
    ctx: usize,
    stream: &mut Stream,
    depth: usize,
) -> (r: ParserResult)
    requires
        language_wf(*lang),
        grammar_node_wf(*node, lang.rules@.len() as int, lang.precedences@.len() as int),
        ctx < lang.contexts@.len(),
        old(stream).wf(),
    ensures
        step_ok(r, old(stream).text(), old(stream).pos_index(), *final(stream)),
        (*node) matches GrammarNode::Token(k) ==> token_result_shape(k, r),
        (*node) matches GrammarNode::Gated(en, _) ==> ({
            &&& !en ==> (r matches ParserResult::NoMatch(nm) && nm.expected_tokens@.len()
                == 0)
        }),
        (*node) is Optional ==> !(r is NoMatch),
        (*node) is ZeroOrMore ==> r is Match,
        (*node) matches GrammarNode::Sequence(children) ==> (children@.len() == 0 ==> r
            is Match),
        (*node) matches GrammarNode::Reference(ri) ==> ({
            &&& (r matches ParserResult::Match(m) ==> ({
                &&& m.nodes@.len() == 1
                &&& m.nodes@[0] matches Node::Rule(rr)
                &&& rr.kind == lang.rules@[ri as int].kind
            }))
            &&& (r matches ParserResult::IncompleteMatch(m) ==> ({
                &&& m.nodes@.len() == 1
                &&& m.nodes@[0] matches Node::Rule(rr)
                &&& rr.kind == lang.rules@[ri as int].kind
            }))
        }),
    decreases depth, *node, 1int,
{
    let ghost t = old(stream).text();
    let ghost p0 = old(stream).pos_index();
    match node {
        GrammarNode::Token(kind) => lang.parse_token_with_trivia(ctx, *kind, stream),
        GrammarNode::Gated(enabled, body) => {
            if !*enabled {
                ParserResult::disabled()
            } else {
                eval(lang, body, ctx, stream, depth)
            }
        }
        GrammarNode::Optional(child) => {
            let r = eval(lang, child, ctx, stream, depth);
            match r {
                ParserResult::NoMatch(nm) => {
                    proof {
                        assert(t.subrange(p0.chars as int, p0.chars as int) =~= Seq::<
                            char,
                        >::empty());
                    }
                    ParserResult::matched(Vec::new(), nm.expected_tokens)
                }
                other => other,
            }
        }
        GrammarNode::Reference(i) => {
            if depth == 0 {
                return ParserResult::no_match(Vec::new());
            }
            let rd = &lang.rules[*i];
            let r = eval(lang, &rd.node, rd.ctx, stream, depth - 1);
            proof {
                if !(r is NoMatch) {
                    crate::text_index::lemma_slice_fits(t, p0.chars as int, stream.pos());
                }
            }
            r.with_kind(rd.kind)
        }
        GrammarNode::Sequence(children) => eval_sequence(lang, children, ctx, stream, depth),
        GrammarNode::Choice(children) => eval_choice(lang, children, ctx, stream, depth),
        GrammarNode::ZeroOrMore(child) => eval_repetition(lang, child, 0, ctx, stream, depth),
        GrammarNode::OneOrMore(child) => eval_repetition(lang, child, 1, ctx, stream, depth),
        GrammarNode::DelimitedBy(open, body, close) => eval_delimited(
            lang,
            *open,
            body,
            *close,
            ctx,
            stream,
            depth,
        ),
        GrammarNode::TerminatedBy(body, term) => eval_terminated(
            lang,
            body,
            *term,
            ctx,
            stream,
            depth,
        ),
        GrammarNode::SeparatedBy(body, sep) => eval_separated(
            lang,
            body,
            *sep,
            ctx,
            stream,
            depth,
        ),
        GrammarNode::Precedence(pi) => {
            if depth == 0 {
                return ParserResult::no_match(Vec::new());
            }
            eval_precedence(lang, *pi, ctx, stream, depth - 1)
        }
    }
}

/// Drives an ordered list of child parses through the sequence combinator,
/// short-circuiting on the first child that is not a full match.
#[verifier::loop_isolation(false)]
fn eval_sequence(
    lang: &Language,
    children: &Vec<GrammarNode>,
    ctx: usize,
    stream: &mut Stream,
    depth: usize,
) -> (r: ParserResult)
    requires
        language_wf(*lang),
        forall|i: int|
            0 <= i < children@.len() ==> grammar_node_wf(
                #[trigger] children@[i],
                lang.rules@.len() as int,
                lang.precedences@.len() as int,
            ),
        ctx < lang.contexts@.len(),
        old(stream).wf(),
    ensures
        step_ok(r, old(stream).text(), old(stream).pos_index(), *final(stream)),
        children@.len() == 0 ==> r is Match,
    decreases depth, *children, 2int,
{
    let ghost t = old(stream).text();
    let ghost p0 = old(stream).pos_index();
    if children.len() == 0 {
        proof {
            assert(t.subrange(p0.chars as int, p0.chars as int) =~= Seq::<char>::empty());
        }
        return ParserResult::matched(Vec::new(), Vec::new());
    }
    let mut helper = crate::sequence_helper::SequenceHelper::new();
    let mut i: usize = 0;
    let mut stop = false;
    while i < children.len() && !stop
        invariant
            stream.wf(),
            stream.text() == t,
            helper.state_wf(),
            i <= children@.len(),
            helper.state() is None ==> (!stop && stream.pos_index() == p0),
            helper.state() matches Some(st) ==> step_ok(st, t, p0, *stream),
            i > 0 ==> helper.state() is Some,
            stop == (helper.state() matches Some(sx) && (sx is IncompleteMatch
                || sx is NoMatch)),
        decreases children@.len() - i,
    {
        let ghost pre = *stream;
        let ghost st0 = helper.state();
        let child_r = eval(lang, &children[i], ctx, stream, depth);
        let ghost cr = child_r;
        stop = helper.handle_next_result(child_r);
        proof {
            let st1 = helper.state()->Some_0;
            if st1 is NoMatch {
                lemma_index_agreement(t, stream.pos_index(), p0);
            } else {
                let a = p0.chars as int;
                let b = pre.pos();
                let c = stream.pos();
                assert(t.subrange(a, b) + t.subrange(b, c) =~= t.subrange(a, c));
                if cr is NoMatch {
                    assert(result_text(cr) == Seq::<char>::empty());
                    assert(t.subrange(a, b) + Seq::<char>::empty() =~= t.subrange(a, b));
                }
                if st0 is None {
                    assert(t.subrange(a, a) =~= Seq::<char>::empty());
                    assert(Seq::<char>::empty() + result_text(cr) =~= result_text(cr));
                }
            }
        }
        i = i + 1;
    }
    helper.result()
}

/// Tries each alternative from the same start through the choice
/// combinator, keeping the best result.
#[verifier::loop_isolation(false)]
fn eval_choice(
    lang: &Language,
    children: &Vec<GrammarNode>,
    ctx: usize,
    stream: &mut Stream,
    depth: usize,
) -> (r: ParserResult)
    requires
        language_wf(*lang),
        forall|i: int|
            0 <= i < children@.len() ==> grammar_node_wf(
                #[trigger] children@[i],
                lang.rules@.len() as int,
                lang.precedences@.len() as int,
            ),
        ctx < lang.contexts@.len(),
        old(stream).wf(),
    ensures
        step_ok(r, old(stream).text(), old(stream).pos_index(), *final(stream)),
    decreases depth, *children, 2int,
{
    let ghost t = old(stream).text();
    let ghost p0 = old(stream).pos_index();
    let mut helper = crate::choice_helper::ChoiceHelper::new(stream);
    let mut i: usize = 0;
    let mut done = false;
    while i < children.len() && !done
        invariant
            stream.wf(),
            stream.text() == t,
            helper.valid_for(stream),
            helper.start() == p0,
            result_wf(helper.state()),
            !(helper.state() is PrattOperatorMatch),
            crate::text_index::utf8_len(result_text(helper.state())) <= usize::MAX,
            done == (helper.state() is Match || helper.state() is PrattOperatorMatch),
            !done ==> stream.pos_index() == p0,
            !(helper.state() is NoMatch) ==> ({
                &&& result_text(helper.state()) == t.subrange(
                    p0.chars as int,
                    p0.chars + result_text(helper.state()).len(),
                )
                &&& p0.chars + result_text(helper.state()).len() <= t.len()
            }),
            done ==> stream.pos() == p0.chars + result_text(helper.state()).len(),
        decreases children@.len() - i,
    {
        let ghost st0 = helper.state();
        let child_r = eval(lang, &children[i], ctx, stream, depth);
        let ghost cr = child_r;
        let ghost post = *stream;
        proof {
            if !(cr is NoMatch) {
                crate::text_index::lemma_slice_fits(t, p0.chars as int, post.pos());
            }
        }
        done = helper.handle_next_result(stream, child_r);
        i = i + 1;
    }
    let ghost st = helper.state();
    proof {
        if st is IncompleteMatch {
            assert(stream.pos() == p0.chars);
        }
    }
    let r = helper.result(stream);
    proof {
        if r is NoMatch {
            lemma_index_agreement(t, stream.pos_index(), p0);
        }
    }
    r
}

/// Greedy repetition over one child, with the zero-or-more / one-or-more
/// minimum-count policy, restoring the stream to the position before the
/// first failed iteration.
#[verifier::loop_isolation(false)]
fn eval_repetition(
    lang: &Language,
    child: &GrammarNode,
    min: usize,
    ctx: usize,
    stream: &mut Stream,
    depth: usize,
) -> (r: ParserResult)
    requires
        language_wf(*lang),
        grammar_node_wf(*child, lang.rules@.len() as int, lang.precedences@.len() as int),
        ctx < lang.contexts@.len(),
        old(stream).wf(),
        min <= 1,
    ensures
        step_ok(r, old(stream).text(), old(stream).pos_index(), *final(stream)),
        min == 0 ==> r is Match,
    decreases depth, *child, 2int,
{
    let ghost t = old(stream).text();
    let ghost p0 = old(stream).pos_index();
    let save = stream.position();
    let first = eval(lang, child, ctx, stream, depth);
    let first_full = first.is_match();
    let (mut accum, go) = crate::repetition_helper::RepetitionHelper::reduce_first(min, first);
    if !first_full && min == 0 {
        stream.set_position(save);
        proof {
            assert(t.subrange(p0.chars as int, p0.chars as int) =~= Seq::<char>::empty());
        }
    }
    if go {
        loop
            invariant
                stream.wf(),
                stream.text() == t,
                accum is Match,
                step_ok(accum, t, p0, *stream),
            decreases t.len() - stream.pos(),
        {
            let it_start = stream.position();
            let ghost pre_it = *stream;
            let next = eval(lang, child, ctx, stream, depth);
            let ghost nr = next;
            if !next.is_match() {
                match &next {
                    ParserResult::IncompleteMatch(_) => {
                        stream.set_position(it_start);
                    }
                    _ => {}
                }
                proof {
                    lemma_index_agreement(t, stream.pos_index(), it_start);
                }
                let (a2, _) = crate::repetition_helper::RepetitionHelper::accumulate(
                    accum,
                    next,
                );
                accum = a2;
                break ;
            }
            let progressed = stream.position().chars > it_start.chars;
            let (a2, _) = crate::repetition_helper::RepetitionHelper::accumulate(accum, next);
            accum = a2;
            proof {
                let a = p0.chars as int;
                let b = pre_it.pos();
                let c = stream.pos();
                assert(t.subrange(a, b) + t.subrange(b, c) =~= t.subrange(a, c));
            }
            if !progressed {
                break ;
            }
        }
    }
    accum
}

/// Open token, body with recovery to the close token, close token. The
/// body's partial match is accepted after recovery so that the closing
/// delimiter is still matched as the construct's terminator.
#[verifier::loop_isolation(false)]
fn eval_delimited(
    lang: &Language,
    open: TokenKind,
    body: &GrammarNode,
    close: TokenKind,
    ctx: usize,
    stream: &mut Stream,
    depth: usize,
) -> (r: ParserResult)
    requires
        language_wf(*lang),
        grammar_node_wf(*body, lang.rules@.len() as int, lang.precedences@.len() as int),
        ctx < lang.contexts@.len(),
        old(stream).wf(),
    ensures
        step_ok(r, old(stream).text(), old(stream).pos_index(), *final(stream)),
    decreases depth, *body, 2int,
{
    let ghost t = old(stream).text();
    let ghost p0 = old(stream).pos_index();
    let ghost a = p0.chars as int;
    let r_open = lang.parse_token_with_trivia(ctx, open, stream);
    let mut nodes: Vec<Node>;
    match r_open {
        ParserResult::NoMatch(nm) => {
            return ParserResult::NoMatch(nm);
        }
        ParserResult::Match(m) => {
            nodes = m.nodes;
        }
        _ => {
            return unreached();
        }
    }
    let ghost pre_body = *stream;
    let r_body = eval(lang, body, ctx, stream, depth);
    let ghost pre_rec = *stream;
    let ghost rb = r_body;
    let r_body = r_body.try_recover_with(lang, ctx, close, stream);
    proof {
        let b = pre_body.pos();
        let c = stream.pos();
        if rb is IncompleteMatch {
            assert(t.subrange(b, pre_rec.pos()) + t.subrange(pre_rec.pos(), c) =~= t.subrange(
                b,
                c,
            ));
        }
    }
    match r_body {
        ParserResult::Match(mut mb) => {
            proof {
                let b = pre_body.pos();
                let c = stream.pos();
                crate::cst::lemma_nodes_wf_concat(nodes@, mb.nodes@);
                crate::cst::lemma_nodes_text_concat(nodes@, mb.nodes@);
                assert(t.subrange(a, b) + t.subrange(b, c) =~= t.subrange(a, c));
            }
            nodes.append(&mut mb.nodes);
            let ghost pre_close = *stream;
            let r_close = lang.parse_token_with_trivia(ctx, close, stream);
            match r_close {
                ParserResult::Match(mut mc) => {
                    proof {
                        let b = pre_close.pos();
                        let c = stream.pos();
                        crate::cst::lemma_nodes_wf_concat(nodes@, mc.nodes@);
                        crate::cst::lemma_nodes_text_concat(nodes@, mc.nodes@);
                        assert(t.subrange(a, b) + t.subrange(b, c) =~= t.subrange(a, c));
                    }
                    nodes.append(&mut mc.nodes);
                    ParserResult::matched(nodes, mc.expected_tokens)
                }
                ParserResult::NoMatch(nm) => {
                    ParserResult::incomplete_match(nodes, nm.expected_tokens)
                }
                _ => unreached(),
            }
        }
        ParserResult::NoMatch(nm) => {
            // The body made no progress and recovery does not apply; the
            // construct ends as a partial match holding the opener.
            ParserResult::incomplete_match(nodes, nm.expected_tokens)
        }
        _ => unreached(),
    }
}

/// Body with recovery to the terminator token, then the terminator.
#[verifier::loop_isolation(false)]
fn eval_terminated(
    lang: &Language,
    body: &GrammarNode,
    term: TokenKind,
    ctx: usize,
    stream: &mut Stream,
    depth: usize,
) -> (r: ParserResult)
    requires
        language_wf(*lang),
        grammar_node_wf(*body, lang.rules@.len() as int, lang.precedences@.len() as int),
        ctx < lang.contexts@.len(),
        old(stream).wf(),
    ensures
        step_ok(r, old(stream).text(), old(stream).pos_index(), *final(stream)),
    decreases depth, *body, 2int,
{
    let ghost t = old(stream).text();
    let ghost p0 = old(stream).pos_index();
    let ghost a = p0.chars as int;
    let r_body = eval(lang, body, ctx, stream, depth);
    let ghost pre_rec = *stream;
    let ghost rb = r_body;
    let r_body = r_body.try_recover_with(lang, ctx, term, stream);
    proof {
        if rb is IncompleteMatch {
            assert(t.subrange(a, pre_rec.pos()) + t.subrange(pre_rec.pos(), stream.pos())
                =~= t.subrange(a, stream.pos()));
        }
    }
    match r_body {
        ParserResult::Match(mb) => {
            let mut nodes = mb.nodes;
            let ghost pre_term = *stream;
            let r_term = lang.parse_token_with_trivia(ctx, term, stream);
            match r_term {
                ParserResult::Match(mut mt) => {
                    proof {
                        let b = pre_term.pos();
                        let c = stream.pos();
                        crate::cst::lemma_nodes_wf_concat(nodes@, mt.nodes@);
                        crate::cst::lemma_nodes_text_concat(nodes@, mt.nodes@);
                        assert(t.subrange(a, b) + t.subrange(b, c) =~= t.subrange(a, c));
                    }
                    nodes.append(&mut mt.nodes);
                    ParserResult::matched(nodes, mt.expected_tokens)
                }
                ParserResult::NoMatch(nm) => {
                    ParserResult::incomplete_match(nodes, nm.expected_tokens)
                }
                _ => unreached(),
            }
        }
        ParserResult::NoMatch(nm) => ParserResult::NoMatch(nm),
        _ => unreached(),
    }
}

/// One or more bodies separated by a token; a failed body recovers by
/// skipping to the next separator, so one bad slot does not abort the list.
#[verifier::loop_isolation(false)]
fn eval_separated(
    lang: &Language,
    body: &GrammarNode,
    sep: TokenKind,
    ctx: usize,
    stream: &mut Stream,
    depth: usize,
) -> (r: ParserResult)
    requires
        language_wf(*lang),
        grammar_node_wf(*body, lang.rules@.len() as int, lang.precedences@.len() as int),
        ctx < lang.contexts@.len(),
        old(stream).wf(),
    ensures
        step_ok(r, old(stream).text(), old(stream).pos_index(), *final(stream)),
    decreases depth, *body, 2int,
{
    let ghost t = old(stream).text();
    let ghost p0 = old(stream).pos_index();
    let ghost a = p0.chars as int;
    let mut nodes: Vec<Node> = Vec::new();
    proof {
        assert(nodes_text(nodes@) =~= t.subrange(a, stream.pos()));
    }
    loop
        invariant
            stream.wf(),
            stream.text() == t,
            old(stream).valid_position(p0),
            stream.pos() >= p0.chars,
            nodes_wf(nodes@),
            nodes_text(nodes@) == t.subrange(a, stream.pos()),
        decreases t.len() - stream.pos(),
    {
        let ghost it0 = stream.pos();
        let ghost pre_body = *stream;
        let r_body = eval(lang, body, ctx, stream, depth);
        match r_body {
            ParserResult::Match(mut m) => {
                proof {
                    let b = pre_body.pos();
                    let c = stream.pos();
                    crate::cst::lemma_nodes_wf_concat(nodes@, m.nodes@);
                    crate::cst::lemma_nodes_text_concat(nodes@, m.nodes@);
                    assert(t.subrange(a, b) + t.subrange(b, c) =~= t.subrange(a, c));
                }
                nodes.append(&mut m.nodes);
                let ghost pre_sep = *stream;
                let r_sep = lang.parse_token_with_trivia(ctx, sep, stream);
                match r_sep {
                    ParserResult::Match(mut ms) => {
                        proof {
                            let b = pre_sep.pos();
                            let c = stream.pos();
                            crate::cst::lemma_nodes_wf_concat(nodes@, ms.nodes@);
                            crate::cst::lemma_nodes_text_concat(nodes@, ms.nodes@);
                            assert(t.subrange(a, b) + t.subrange(b, c) =~= t.subrange(a, c));
                        }
                        nodes.append(&mut ms.nodes);
                    }
                    ParserResult::NoMatch(nm) => {
                        return ParserResult::matched(nodes, nm.expected_tokens);
                    }
                    _ => {
                        return unreached();
                    }
                }
            }
            ParserResult::IncompleteMatch(mut im) => {
                proof {
                    let b = pre_body.pos();
                    let c = stream.pos();
                    crate::cst::lemma_nodes_wf_concat(nodes@, im.nodes@);
                    crate::cst::lemma_nodes_text_concat(nodes@, im.nodes@);
                    assert(t.subrange(a, b) + t.subrange(b, c) =~= t.subrange(a, c));
                }
                nodes.append(&mut im.nodes);
                let ghost pre_rec = *stream;
                let cont = separated_recover(
                    lang,
                    ctx,
                    sep,
                    stream,
                    &mut nodes,
                    im.expected_tokens,
                );
                proof {
                    let b = pre_rec.pos();
                    let c = stream.pos();
                    assert(t.subrange(a, b) + t.subrange(b, c) =~= t.subrange(a, c));
                }
                match cont {
                    Some(expected) => {
                        return ParserResult::incomplete_match(nodes, expected);
                    }
                    None => {}
                }
            }
            ParserResult::NoMatch(nm) => {
                if nodes.len() == 0 {
                    return ParserResult::NoMatch(nm);
                }
                let ghost pre_rec = *stream;
                let cont = separated_recover(lang, ctx, sep, stream, &mut nodes, nm.expected_tokens);
                proof {
                    let b = pre_rec.pos();
                    let c = stream.pos();
                    assert(t.subrange(a, b) + t.subrange(b, c) =~= t.subrange(a, c));
                }
                match cont {
                    Some(expected) => {
                        return ParserResult::incomplete_match(nodes, expected);
                    }
                    None => {}
                }
            }
            _ => {
                return unreached();
            }
        }
    }
}

/// The separated list's recovery move: skip to the separator (never across
/// a registered delimiter), capture the skipped span (possibly empty) into
/// an error node for the missing element, and consume the separator. A
/// `Some` result carries the expected tokens of a failure that recovery
/// could not mend, and ends the list as a partial match.
#[verifier::loop_isolation(false)]
fn separated_recover(
    lang: &Language,
    ctx: usize,
    sep: TokenKind,
    stream: &mut Stream,
    nodes: &mut Vec<Node>,
    expected: Vec<TokenKind>,
) -> (r: Option<Vec<TokenKind>>)
    requires
        language_wf(*lang),
        ctx < lang.contexts@.len(),
        old(stream).wf(),
        nodes_wf(old(nodes)@),
    ensures
        final(stream).wf(),
        final(stream).text() == old(stream).text(),
        final(stream).pos() >= old(stream).pos(),
        nodes_wf(final(nodes)@),
        nodes_text(final(nodes)@) == nodes_text(old(nodes)@) + old(stream).text().subrange(
            old(stream).pos(),
            final(stream).pos(),
        ),
        r is None ==> final(stream).pos() > old(stream).pos(),
{
    let ghost t = old(stream).text();
    let skip_start = stream.position();
    let found = crate::recovery::skip_until_recovery_point(lang, ctx, sep, stream);
    let end = stream.position();
    let text = stream.text_between(skip_start.chars, end.chars);
    let ghost nv = nodes@;
    let node = Node::error(text, expected);
    nodes.push(node);
    proof {
        lemma_nodes_text_push(nv, nodes@[nv.len() as int]);
        lemma_nodes_wf_push(nv, nodes@[nv.len() as int]);
    }
    if !found {
        let mut ex: Vec<TokenKind> = Vec::new();
        ex.push(sep);
        proof {
            assert(nodes_text(nodes@) == nodes_text(nv) + t.subrange(
                skip_start.chars as int,
                stream.pos(),
            ));
        }
        return Some(ex);
    }
    let ghost pre_sep = *stream;
    let r_sep = lang.parse_token_with_trivia(ctx, sep, stream);
    match r_sep {
        ParserResult::Match(mut ms) => {
            proof {
                let a = skip_start.chars as int;
                let b = pre_sep.pos();
                let c = stream.pos();
                crate::cst::lemma_nodes_wf_concat(nodes@, ms.nodes@);
                crate::cst::lemma_nodes_text_concat(nodes@, ms.nodes@);
                assert(t.subrange(a, b) + t.subrange(b, c) =~= t.subrange(a, c));
                assert((nodes_text(nv) + t.subrange(a, b)) + t.subrange(b, c) =~= nodes_text(
                    nv,
                ) + t.subrange(a, c));
            }
            nodes.append(&mut ms.nodes);
            None
        }
        ParserResult::NoMatch(nm) => Some(nm.expected_tokens),
        _ => unreached(),
    }
}

/// Drives one precedence (pratt) rule: collects a flat run of prefix
/// operators, primaries, postfix and binary operators as labelled elements,
/// then reduces them by precedence climbing into nested operator rule
/// nodes. Failure to find a qualifying operator is not an error; the
/// expression ends with what was accumulated.
#[verifier::loop_isolation(false)]
fn eval_precedence(lang: &Language, pi: usize, ctx: usize, stream: &mut Stream, depth: usize) -> (r:
    ParserResult)
    requires
        language_wf(*lang),
        pi < lang.precedences@.len(),
        ctx < lang.contexts@.len(),
        old(stream).wf(),
    ensures
        step_ok(r, old(stream).text(), old(stream).pos_index(), *final(stream)),
    decreases depth,
{
    let ghost t = old(stream).text();
    let ghost p0 = old(stream).pos_index();
    let ghost a = p0.chars as int;
    let pd = &lang.precedences[pi];
    let mut elements: Vec<crate::parser_result::PrattElement> = Vec::new();
    proof {
        assert(crate::parser_result::elements_text(elements@) =~= t.subrange(a, stream.pos()));
    }
    loop
        invariant
            stream.wf(),
            stream.text() == t,
            old(stream).valid_position(p0),
            stream.pos() >= p0.chars,
            crate::parser_result::elements_wf(elements@),
            crate::parser_result::elements_text(elements@) == t.subrange(a, stream.pos()),
        decreases t.len() - stream.pos(),
    {
        let ghost out0 = stream.pos();
        // prefix operator chain
        loop
            invariant
                stream.wf(),
                stream.text() == t,
                stream.pos() >= p0.chars,
                stream.pos() >= out0,
                crate::parser_result::elements_wf(elements@),
                crate::parser_result::elements_text(elements@) == t.subrange(a, stream.pos()),
            decreases t.len() - stream.pos(),
        {
            let ghost pfx0 = stream.pos();
            let mut matched_op = false;
            let mut oi: usize = 0;
            while oi < pd.operators.len() && !matched_op
                invariant
                    stream.wf(),
                    stream.text() == t,
                    stream.pos() >= p0.chars,
                    crate::parser_result::elements_wf(elements@),
                    crate::parser_result::elements_text(elements@) == t.subrange(
                        a,
                        stream.pos(),
                    ),
                    stream.pos() >= pfx0,
                    matched_op ==> stream.pos() > pfx0,
                decreases pd.operators@.len() - oi,
            {
                let op = &pd.operators[oi];
                let is_prefix = match op.model {
                    OperatorModel::Prefix => true,
                    _ => false,
                };
                if is_prefix && op.enabled {
                    let op_start = stream.position();
                    let ghost pre_op = *stream;
                    let r = eval(lang, &op.operand, ctx, stream, depth);
                    match r {
                        ParserResult::Match(m) => {
                            if stream.position().chars > op_start.chars {
                                let ghost ev = elements@;
                                let e = crate::parser_result::PrattElement::Prefix {
                                    kind: op.kind,
                                    nodes: m.nodes,
                                    right: op.right_power,
                                };
                                elements.push(e);
                                proof {
                                    crate::parser_result::lemma_elements_text_push(
                                        ev,
                                        elements@[ev.len() as int],
                                    );
                                    crate::parser_result::lemma_elements_wf_push(
                                        ev,
                                        elements@[ev.len() as int],
                                    );
                                    let b = pre_op.pos();
                                    let c = stream.pos();
                                    assert(t.subrange(a, b) + t.subrange(b, c) =~= t.subrange(
                                        a,
                                        c,
                                    ));
                                }
                                matched_op = true;
                            } else {
                                stream.set_position(op_start);
                            }
                        }
                        ParserResult::IncompleteMatch(_) => {
                            stream.set_position(op_start);
                        }
                        _ => {}
                    }
                }
                oi = oi + 1;
            }
            if !matched_op {
                break ;
            }
        }
        // primary expression: an ordinary choice over the alternatives
        let ghost pre_prim = *stream;
        let mut helper = crate::choice_helper::ChoiceHelper::new(stream);
        let mut ci: usize = 0;
        let mut done = false;
        let ghost pp = pre_prim.pos_index();
        while ci < pd.primaries.len() && !done
            invariant
                stream.wf(),
                stream.text() == t,
                helper.valid_for(stream),
                helper.start() == pp,
                result_wf(helper.state()),
                !(helper.state() is PrattOperatorMatch),
                crate::text_index::utf8_len(result_text(helper.state())) <= usize::MAX,
                done == (helper.state() is Match || helper.state() is PrattOperatorMatch),
                !done ==> stream.pos_index() == pp,
                !(helper.state() is NoMatch) ==> ({
                    &&& result_text(helper.state()) == t.subrange(
                        pp.chars as int,
                        pp.chars + result_text(helper.state()).len(),
                    )
                    &&& pp.chars + result_text(helper.state()).len() <= t.len()
                }),
                done ==> stream.pos() == pp.chars + result_text(helper.state()).len(),
            decreases pd.primaries@.len() - ci,
        {
            let child_r = eval(lang, &pd.primaries[ci], ctx, stream, depth);
            let ghost cr = child_r;
            let ghost post = *stream;
            proof {
                if !(cr is NoMatch) {
                    crate::text_index::lemma_slice_fits(t, pp.chars as int, post.pos());
                }
            }
            done = helper.handle_next_result(stream, child_r);
            ci = ci + 1;
        }
        let ghost st = helper.state();
        proof {
            if st is IncompleteMatch {
                assert(stream.pos() == pp.chars);
            }
        }
        let r_prim = helper.result(stream);
        match r_prim {
            ParserResult::Match(m) => {
                let ghost ev = elements@;
                let e = crate::parser_result::PrattElement::Expression { nodes: m.nodes };
                elements.push(e);
                proof {
                    crate::parser_result::lemma_elements_text_push(
                        ev,
                        elements@[ev.len() as int],
                    );
                    crate::parser_result::lemma_elements_wf_push(
                        ev,
                        elements@[ev.len() as int],
                    );
                    let b = pp.chars as int;
                    let c = stream.pos();
                    assert(t.subrange(a, b) + t.subrange(b, c) =~= t.subrange(a, c));
                }
            }
            ParserResult::NoMatch(nm) => {
                proof {
                    lemma_index_agreement(t, stream.pos_index(), pp);
                }
                if elements.len() == 0 {
                    proof {
                        lemma_index_agreement(t, stream.pos_index(), p0);
                    }
                    return ParserResult::NoMatch(nm);
                }
                proof {
                    crate::sequence_helper::lemma_flat_nodes_text(elements@);
                    crate::sequence_helper::lemma_flat_nodes_wf(elements@);
                }
                let flat = crate::sequence_helper::flatten_elements(elements);
                return ParserResult::incomplete_match(flat, nm.expected_tokens);
            }
            ParserResult::IncompleteMatch(mut im) => {
                proof {
                    crate::sequence_helper::lemma_flat_nodes_text(elements@);
                    crate::sequence_helper::lemma_flat_nodes_wf(elements@);
                    crate::cst::lemma_nodes_wf_concat(
                        crate::sequence_helper::flat_nodes(elements@),
                        im.nodes@,
                    );
                    crate::cst::lemma_nodes_text_concat(
                        crate::sequence_helper::flat_nodes(elements@),
                        im.nodes@,
                    );
                    let b = pp.chars as int;
                    let c = stream.pos();
                    assert(t.subrange(a, b) + t.subrange(b, c) =~= t.subrange(a, c));
                }
                let mut flat = crate::sequence_helper::flatten_elements(elements);
                flat.append(&mut im.nodes);
                return ParserResult::incomplete_match(flat, im.expected_tokens);
            }
            _ => {
                return unreached();
            }
        }
        // postfix and binary operators
        let mut continue_outer = false;
        loop
            invariant
                stream.wf(),
                stream.text() == t,
                stream.pos() >= p0.chars,
                stream.pos() >= out0,
                crate::parser_result::elements_wf(elements@),
                crate::parser_result::elements_text(elements@) == t.subrange(a, stream.pos()),
                continue_outer ==> stream.pos() > out0,
            decreases t.len() - stream.pos(),
        {
            let ghost pb0 = stream.pos();
            let mut matched_op = false;
            let mut is_binary = false;
            let mut oi: usize = 0;
            while oi < pd.operators.len() && !matched_op
                invariant
                    stream.wf(),
                    stream.text() == t,
                    stream.pos() >= p0.chars,
                    crate::parser_result::elements_wf(elements@),
                    crate::parser_result::elements_text(elements@) == t.subrange(
                        a,
                        stream.pos(),
                    ),
                    stream.pos() >= pb0,
                    matched_op ==> stream.pos() > pb0,
                decreases pd.operators@.len() - oi,
            {
                let op = &pd.operators[oi];
                let kind_of_op: u8 = match op.model {
                    OperatorModel::Prefix => 0,
                    OperatorModel::Postfix => 1,
                    OperatorModel::BinaryLeftAssociative => 2,
                    OperatorModel::BinaryRightAssociative => 2,
                };
                if kind_of_op > 0 && op.enabled {
                    let op_start = stream.position();
                    let ghost pre_op = *stream;
                    let r = eval(lang, &op.operand, ctx, stream, depth);
                    match r {
                        ParserResult::Match(m) => {
                            if stream.position().chars > op_start.chars {
                                let ghost ev = elements@;
                                let e = if kind_of_op == 1 {
                                    crate::parser_result::PrattElement::Postfix {
                                        kind: op.kind,
                                        nodes: m.nodes,
                                        left: op.left_power,
                                    }
                                } else {
                                    crate::parser_result::PrattElement::Binary {
                                        kind: op.kind,
                                        nodes: m.nodes,
                                        left: op.left_power,
                                        right: op.right_power,
                                    }
                                };
                                elements.push(e);
                                proof {
                                    crate::parser_result::lemma_elements_text_push(
                                        ev,
                                        elements@[ev.len() as int],
                                    );
                                    crate::parser_result::lemma_elements_wf_push(
                                        ev,
                                        elements@[ev.len() as int],
                                    );
                                    let b = pre_op.pos();
                                    let c = stream.pos();
                                    assert(t.subrange(a, b) + t.subrange(b, c) =~= t.subrange(
                                        a,
                                        c,
                                    ));
                                }
                                matched_op = true;
                                is_binary = kind_of_op == 2;
                            } else {
                                stream.set_position(op_start);
                            }
                        }
                        ParserResult::IncompleteMatch(_) => {
                            stream.set_position(op_start);
                        }
                        _ => {}
                    }
                }
                oi = oi + 1;
            }
            if !matched_op {
                break ;
            }
            if is_binary {
                continue_outer = true;
                break ;
            }
        }
        if !continue_outer {
            break ;
        }
    }
    proof {
        crate::text_index::lemma_slice_fits(t, a, stream.pos());
    }
    let nodes = crate::precedence::PrecedenceHelper::reduce_precedence_result(elements);
    ParserResult::matched(nodes, Vec::new())
}

/// Decides one grammar node's well-formedness at run time: every rule and
/// precedence reference stays inside its table.
#[verifier::loop_isolation(false)]
pub fn check_node(n: &GrammarNode, nrules: usize, nprecs: usize) -> (r: bool)
    ensures
        r == grammar_node_wf(*n, nrules as int, nprecs as int),
    decreases *n,
{
    match n {
        GrammarNode::Token(_) => true,
        GrammarNode::Sequence(children) | GrammarNode::Choice(children) => {
            let mut i: usize = 0;
            while i < children.len()
                invariant
                    i <= children@.len(),
                    forall|k: int|
                        0 <= k < i ==> grammar_node_wf(
                            #[trigger] children@[k],
                            nrules as int,
                            nprecs as int,
                        ),
                decreases children@.len() - i,
            {
                if !check_node(&children[i], nrules, nprecs) {
                    proof {
                        assert(!grammar_node_wf(children@[i as int], nrules as int, nprecs as int));
                    }
                    return false;
                }
                i = i + 1;
            }
            true
        }
        GrammarNode::Optional(child) => check_node(child, nrules, nprecs),
        GrammarNode::ZeroOrMore(child) => check_node(child, nrules, nprecs),
        GrammarNode::OneOrMore(child) => check_node(child, nrules, nprecs),
        GrammarNode::Reference(i) => *i < nrules,
        GrammarNode::DelimitedBy(_, body, _) => check_node(body, nrules, nprecs),
        GrammarNode::TerminatedBy(body, _) => check_node(body, nrules, nprecs),
        GrammarNode::SeparatedBy(body, _) => check_node(body, nrules, nprecs),
        GrammarNode::Gated(_, body) => check_node(body, nrules, nprecs),
        GrammarNode::Precedence(i) => *i < nprecs,
    }
}

/// Decides one lexical context's well-formedness at run time.
#[verifier::loop_isolation(false)]
fn check_context(c: &LexContext, nfrags: usize) -> (r: bool)
    ensures
        r == context_wf(*c, nfrags as int),
{
    if !c.alpha_trie.is_well_formed() {
        return false;
    }
    if !c.non_alpha_trie.is_well_formed() {
        return false;
    }
    let mut i: usize = 0;
    while i < c.compound_tokens.len()
        invariant
            i <= c.compound_tokens@.len(),
            forall|k: int|
                0 <= k < i ==> compound_wf(#[trigger] c.compound_tokens@[k], nfrags as int),
        decreases c.compound_tokens@.len() - i,
    {
        if !crate::scanner::check_scanner(&c.compound_tokens[i].scanner, nfrags) {
            proof {
                assert(!compound_wf(c.compound_tokens@[i as int], nfrags as int));
            }
            return false;
        }
        i = i + 1;
    }
    match &c.identifier {
        Some(t) => {
            if !crate::scanner::check_scanner(&t.scanner, nfrags) {
                return false;
            }
        }
        None => {}
    }
    let mut i: usize = 0;
    while i < c.trivia.len()
        invariant
            i <= c.trivia@.len(),
            forall|k: int| 0 <= k < i ==> compound_wf(#[trigger] c.trivia@[k], nfrags as int),
        decreases c.trivia@.len() - i,
    {
        if !crate::scanner::check_scanner(&c.trivia[i].scanner, nfrags) {
            proof {
                assert(!compound_wf(c.trivia@[i as int], nfrags as int));
            }
            return false;
        }
        i = i + 1;
    }
    true
}

/// Decides one precedence rule's well-formedness at run time.
#[verifier::loop_isolation(false)]
fn check_precedence_def(p: &PrecedenceDef, nrules: usize, nprecs: usize) -> (r: bool)
    ensures
        r == precedence_def_wf(*p, nrules as int, nprecs as int),
{
    let mut i: usize = 0;
    while i < p.primaries.len()
        invariant
            i <= p.primaries@.len(),
            forall|k: int|
                0 <= k < i ==> grammar_node_wf(
                    #[trigger] p.primaries@[k],
                    nrules as int,
                    nprecs as int,
                ),
        decreases p.primaries@.len() - i,
    {
        if !check_node(&p.primaries[i], nrules, nprecs) {
            proof {
                assert(!grammar_node_wf(p.primaries@[i as int], nrules as int, nprecs as int));
            }
            return false;
        }
        i = i + 1;
    }
    let mut i: usize = 0;
    while i < p.operators.len()
        invariant
            i <= p.operators@.len(),
            forall|k: int|
                0 <= k < i ==> grammar_node_wf(
                    (#[trigger] p.operators@[k]).operand,
                    nrules as int,
                    nprecs as int,
                ),
        decreases p.operators@.len() - i,
    {
        if !check_node(&p.operators[i].operand, nrules, nprecs) {
            proof {
                assert(!grammar_node_wf(p.operators@[i as int].operand, nrules as int, nprecs as int));
            }
            return false;
        }
        i = i + 1;
    }
    true
}

impl Language {
    /// Decides the whole grammar's well-formedness at run time: every
    /// reference resolves and every trie and scanner is sound. Faults here
    /// are grammar-compiler errors, caught once before any parse rather
    /// than at parse time; an unverified host checks this before calling
    /// the parse entry point.
    #[verifier::loop_isolation(false)]
    pub fn check_wf(&self) -> (r: bool)
        ensures
            r == language_wf(*self),
    {
        let nfrags = self.fragments.len();
        let mut i: usize = 0;
        while i < self.fragments.len()
            invariant
                i <= self.fragments@.len(),
                nfrags == self.fragments@.len(),
                forall|k: int|
                    0 <= k < i ==> scanner_wf(#[trigger] self.fragments@[k], nfrags as int),
            decreases self.fragments@.len() - i,
        {
            if !crate::scanner::check_scanner(&self.fragments[i], nfrags) {
                proof {
                    assert(!scanner_wf(self.fragments@[i as int], nfrags as int));
                }
                return false;
            }
            i = i + 1;
        }
        let mut i: usize = 0;
        while i < self.contexts.len()
            invariant
                i <= self.contexts@.len(),
                nfrags == self.fragments@.len(),
                forall|k: int|
                    0 <= k < i ==> context_wf(#[trigger] self.contexts@[k], nfrags as int),
        decreases self.contexts@.len() - i,
        {
            if !check_context(&self.contexts[i], nfrags) {
                proof {
                    assert(!context_wf(self.contexts@[i as int], nfrags as int));
                }
                return false;
            }
            i = i + 1;
        }
        let nrules = self.rules.len();
        let nprecs = self.precedences.len();
        let mut i: usize = 0;
        while i < self.rules.len()
            invariant
                i <= self.rules@.len(),
                nrules == self.rules@.len(),
                nprecs == self.precedences@.len(),
                forall|k: int|
                    0 <= k < i ==> (#[trigger] self.rules@[k]).ctx < self.contexts@.len()
                        && grammar_node_wf(self.rules@[k].node, nrules as int, nprecs as int),
            decreases self.rules@.len() - i,
        {
            if self.rules[i].ctx >= self.contexts.len() {
                return false;
            }
            if !check_node(&self.rules[i].node, nrules, nprecs) {
                proof {
                    assert(!grammar_node_wf(self.rules@[i as int].node, nrules as int, nprecs as int));
                }
                return false;
            }
            i = i + 1;
        }
        let mut i: usize = 0;
        while i < self.precedences.len()
            invariant
                i <= self.precedences@.len(),
                nrules == self.rules@.len(),
                nprecs == self.precedences@.len(),
                forall|k: int|
                    0 <= k < i ==> precedence_def_wf(
                        #[trigger] self.precedences@[k],
                        nrules as int,
                        nprecs as int,
                    ),
            decreases self.precedences@.len() - i,
        {
            if !check_precedence_def(&self.precedences[i], nrules, nprecs) {
                proof {
                    assert(!precedence_def_wf(self.precedences@[i as int], nrules as int, nprecs as int));
                }
                return false;
            }
            i = i + 1;
        }
        true
    }
}

} // verus!
