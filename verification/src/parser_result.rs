use vstd::prelude::*;

use crate::cst::{
    lemma_nodes_text_push, lemma_nodes_text_split, lemma_nodes_wf_index,
    lemma_nodes_wf_push, nodes_text, nodes_wf, Node,
};
use crate::kinds::{RuleKind, TokenKind};
use crate::stream::Stream;
use crate::text_index::{utf16_len, utf8_len};

verus! {

/// The four-way outcome of one parsing attempt.
///
/// `Match` and `PrattOperatorMatch` are full successes; `IncompleteMatch`
/// records partial progress; `NoMatch` consumed nothing.
#[derive(Debug, PartialEq, Eq)]
pub enum ParserResult {
    Match(Match),
    PrattOperatorMatch(PrattOperatorMatch),
    IncompleteMatch(IncompleteMatch),
    NoMatch(NoMatch),
}

/// A complete, well-formed parse: the nodes produced, and the token kinds
/// that would have extended the match further (kept for diagnostics).
#[derive(Debug, PartialEq, Eq)]
pub struct Match {
    pub nodes: Vec<Node>,
    pub expected_tokens: Vec<TokenKind>,
}

/// One labelled element of a precedence parse: an operand, or an operator
/// with the binding powers implied by its declaration order.
#[derive(Debug, PartialEq, Eq)]
pub enum PrattElement {
    Expression { nodes: Vec<Node> },
    Prefix { kind: RuleKind, nodes: Vec<Node>, right: u8 },
    Binary { kind: RuleKind, nodes: Vec<Node>, left: u8, right: u8 },
    Postfix { kind: RuleKind, nodes: Vec<Node>, left: u8 },
}

/// The internal-only shape produced while a precedence expression is being
/// assembled; it never escapes the precedence combinator boundary.
#[derive(Debug, PartialEq, Eq)]
pub struct PrattOperatorMatch {
    pub elements: Vec<PrattElement>,
}

/// Partial progress: some children matched, then the construct could not be
/// completed. The failure point is the end of the last matched node.
#[derive(Debug, PartialEq, Eq)]
pub struct IncompleteMatch {
    pub nodes: Vec<Node>,
    pub expected_tokens: Vec<TokenKind>,
}

/// Zero progress; nothing was consumed.
#[derive(Debug, PartialEq, Eq)]
pub struct NoMatch {
    pub expected_tokens: Vec<TokenKind>,
}

pub open spec fn element_nodes(e: PrattElement) -> Seq<Node> {
    match e {
        PrattElement::Expression { nodes } => nodes@,
        PrattElement::Prefix { nodes, .. } => nodes@,
        PrattElement::Binary { nodes, .. } => nodes@,
        PrattElement::Postfix { nodes, .. } => nodes@,
    }
}

pub open spec fn element_text(e: PrattElement) -> Seq<char> {
    nodes_text(element_nodes(e))
}

pub open spec fn element_wf(e: PrattElement) -> bool {
    nodes_wf(element_nodes(e))
}

pub open spec fn elements_text(s: Seq<PrattElement>) -> Seq<char>
    decreases s.len(),
{
    if s.len() == 0 {
        Seq::<char>::empty()
    } else {
        element_text(s[0]) + elements_text(s.drop_first())
    }
}

pub open spec fn elements_wf(s: Seq<PrattElement>) -> bool
    decreases s.len(),
{
    s.len() == 0 || (element_wf(s[0]) && elements_wf(s.drop_first()))
}

/// The source text covered by a result: the concatenated text of everything
/// it matched. A `NoMatch` covers nothing.
pub open spec fn result_text(r: ParserResult) -> Seq<char> {
    match r {
        ParserResult::Match(m) => nodes_text(m.nodes@),
        ParserResult::PrattOperatorMatch(m) => elements_text(m.elements@),
        ParserResult::IncompleteMatch(m) => nodes_text(m.nodes@),
        ParserResult::NoMatch(_) => Seq::<char>::empty(),
    }
}

pub open spec fn result_wf(r: ParserResult) -> bool {
    match r {
        ParserResult::Match(m) => nodes_wf(m.nodes@),
        ParserResult::PrattOperatorMatch(m) => elements_wf(m.elements@),
        ParserResult::IncompleteMatch(m) => nodes_wf(m.nodes@),
        ParserResult::NoMatch(_) => true,
    }
}

/// The recovery hint a result carries: the token kinds that would have
/// allowed further progress.
pub open spec fn result_expected(r: ParserResult) -> Seq<TokenKind> {
    match r {
        ParserResult::Match(m) => m.expected_tokens@,
        ParserResult::PrattOperatorMatch(_) => Seq::<TokenKind>::empty(),
        ParserResult::IncompleteMatch(m) => m.expected_tokens@,
        ParserResult::NoMatch(m) => m.expected_tokens@,
    }
}

pub proof fn lemma_elements_text_push(s: Seq<PrattElement>, e: PrattElement)
    ensures
        elements_text(s.push(e)) == elements_text(s) + element_text(e),
    decreases s.len(),
{
    if s.len() == 0 {
        assert(s.push(e).drop_first() =~= Seq::<PrattElement>::empty());
        assert(elements_text(Seq::<PrattElement>::empty()) == Seq::<char>::empty());
        assert(s =~= Seq::<PrattElement>::empty());
        assert(elements_text(s.push(e)) =~= elements_text(s) + element_text(e));
    } else {
        assert(s.push(e)[0] == s[0]);
        assert(s.push(e).drop_first() =~= s.drop_first().push(e));
        lemma_elements_text_push(s.drop_first(), e);
        assert(elements_text(s.push(e)) =~= elements_text(s) + element_text(e));
    }
}

pub proof fn lemma_elements_text_concat(a: Seq<PrattElement>, b: Seq<PrattElement>)
    ensures
        elements_text(a + b) == elements_text(a) + elements_text(b),
    decreases a.len(),
{
    if a.len() == 0 {
        assert(a + b =~= b);
        assert(elements_text(a) + elements_text(b) =~= elements_text(b));
    } else {
        assert((a + b).drop_first() =~= a.drop_first() + b);
        lemma_elements_text_concat(a.drop_first(), b);
        assert(elements_text(a + b) =~= elements_text(a) + elements_text(b));
    }
}

pub proof fn lemma_elements_wf_concat(a: Seq<PrattElement>, b: Seq<PrattElement>)
    ensures
        elements_wf(a + b) <==> (elements_wf(a) && elements_wf(b)),
    decreases a.len(),
{
    if a.len() == 0 {
        assert(a + b =~= b);
    } else {
        assert((a + b)[0] == a[0]);
        assert((a + b).drop_first() =~= a.drop_first() + b);
        lemma_elements_wf_concat(a.drop_first(), b);
    }
}

pub proof fn lemma_elements_wf_push(s: Seq<PrattElement>, e: PrattElement)
    ensures
        elements_wf(s.push(e)) <==> (elements_wf(s) && element_wf(e)),
    decreases s.len(),
{
    if s.len() == 0 {
        assert(s.push(e).drop_first() =~= Seq::<PrattElement>::empty());
        assert(elements_wf(Seq::<PrattElement>::empty()));
    } else {
        assert(s.push(e)[0] == s[0]);
        assert(s.push(e).drop_first() =~= s.drop_first().push(e));
        lemma_elements_wf_push(s.drop_first(), e);
    }
}

pub proof fn lemma_elements_wf_index(s: Seq<PrattElement>, i: int)
    requires
        elements_wf(s),
        0 <= i < s.len(),
    ensures
        element_wf(s[i]),
    decreases s.len(),
{
    if i > 0 {
        lemma_elements_wf_index(s.drop_first(), i - 1);
    }
}

pub proof fn lemma_elements_text_split(s: Seq<PrattElement>, i: int)
    requires
        0 <= i <= s.len(),
    ensures
        elements_text(s) == elements_text(s.take(i)) + elements_text(s.skip(i)),
{
    assert(s =~= s.take(i) + s.skip(i));
    lemma_elements_text_concat(s.take(i), s.skip(i));
}

impl ParserResult {
    /// A complete parse of `nodes`, with `expected_tokens` as the hint for
    /// what would have extended it.
    pub fn matched(nodes: Vec<Node>, expected_tokens: Vec<TokenKind>) -> (r: ParserResult)
        ensures
            r matches ParserResult::Match(m) && m.nodes@ == nodes@ && m.expected_tokens@
                == expected_tokens@,
    {
        ParserResult::Match(Match { nodes, expected_tokens })
    }

    pub fn pratt_operator_match(elements: Vec<PrattElement>) -> (r: ParserResult)
        ensures
            r matches ParserResult::PrattOperatorMatch(m) && m.elements@ == elements@,
    {
        ParserResult::PrattOperatorMatch(PrattOperatorMatch { elements })
    }

    pub fn incomplete_match(nodes: Vec<Node>, expected_tokens: Vec<TokenKind>) -> (r: ParserResult)
        ensures
            r matches ParserResult::IncompleteMatch(m) && m.nodes@ == nodes@ && m.expected_tokens@
                == expected_tokens@,
    {
        ParserResult::IncompleteMatch(IncompleteMatch { nodes, expected_tokens })
    }

    pub fn no_match(expected_tokens: Vec<TokenKind>) -> (r: ParserResult)
        ensures
            r matches ParserResult::NoMatch(m) && m.expected_tokens@ == expected_tokens@,
    {
        ParserResult::NoMatch(NoMatch { expected_tokens })
    }

    /// The outcome of a parser that did not run because a version gate
    /// excludes it: a `NoMatch` with an empty hint.
    pub fn disabled() -> (r: ParserResult)
        ensures
            r matches ParserResult::NoMatch(m) && m.expected_tokens@ == Seq::<
                TokenKind,
            >::empty(),
    {
        ParserResult::no_match(Vec::new())
    }

    /// Whether this is a full success (`Match` or `PrattOperatorMatch`).
    pub fn is_match(&self) -> (r: bool)
        ensures
            r == (*self is Match || *self is PrattOperatorMatch),
    {
        match self {
            ParserResult::Match(_) | ParserResult::PrattOperatorMatch(_) => true,
            _ => false,
        }
    }

    pub fn is_no_match(&self) -> (r: bool)
        ensures
            r == (*self is NoMatch),
    {
        match self {
            ParserResult::NoMatch(_) => true,
            _ => false,
        }
    }

    /// Wraps the matched nodes into a single new rule node of `new_kind`.
    /// A `NoMatch` is left unchanged. A `PrattOperatorMatch` never reaches
    /// this operation: it is reduced by the precedence combinator first.
    pub fn with_kind(self, new_kind: RuleKind) -> (r: ParserResult)
        requires
            !(self is PrattOperatorMatch),
            result_wf(self),
            utf8_len(result_text(self)) <= usize::MAX,
            utf16_len(result_text(self)) <= usize::MAX,
            result_text(self).len() <= usize::MAX,
        ensures
            result_wf(r),
            result_text(r) == result_text(self),
            result_expected(r) == result_expected(self),
            self matches ParserResult::Match(m0) ==> ({
                &&& r matches ParserResult::Match(m)
                &&& m.nodes@.len() == 1
                &&& m.nodes@[0] matches Node::Rule(rr)
                &&& rr.kind == new_kind
                &&& rr.children@ == m0.nodes@
            }),
            self matches ParserResult::IncompleteMatch(m0) ==> ({
                &&& r matches ParserResult::IncompleteMatch(m)
                &&& m.nodes@.len() == 1
                &&& m.nodes@[0] matches Node::Rule(rr)
                &&& rr.kind == new_kind
                &&& rr.children@ == m0.nodes@
            }),
            self is NoMatch ==> r == self,
    {
        match self {
            ParserResult::Match(m) => {
                let node = Node::rule(new_kind, m.nodes);
                let mut nodes: Vec<Node> = Vec::new();
                nodes.push(node);
                proof {
                    assert(nodes@ =~= Seq::<Node>::empty().push(nodes@[0]));
                    lemma_nodes_text_push(Seq::<Node>::empty(), nodes@[0]);
                    lemma_nodes_wf_push(Seq::<Node>::empty(), nodes@[0]);
                    assert(Seq::<char>::empty() + node_text_of(nodes@[0]) =~= node_text_of(
                        nodes@[0],
                    ));
                }
                ParserResult::matched(nodes, m.expected_tokens)
            }
            ParserResult::IncompleteMatch(m) => {
                let node = Node::rule(new_kind, m.nodes);
                let mut nodes: Vec<Node> = Vec::new();
                nodes.push(node);
                proof {
                    assert(nodes@ =~= Seq::<Node>::empty().push(nodes@[0]));
                    lemma_nodes_text_push(Seq::<Node>::empty(), nodes@[0]);
                    lemma_nodes_wf_push(Seq::<Node>::empty(), nodes@[0]);
                    assert(Seq::<char>::empty() + node_text_of(nodes@[0]) =~= node_text_of(
                        nodes@[0],
                    ));
                }
                ParserResult::incomplete_match(nodes, m.expected_tokens)
            }
            other => other,
        }
    }
}

/// Alias so contracts in this module can speak of a node's text.
pub open spec fn node_text_of(n: Node) -> Seq<char> {
    crate::cst::node_text(n)
}

impl Match {
    pub fn new(nodes: Vec<Node>, expected_tokens: Vec<TokenKind>) -> (r: Match)
        ensures
            r.nodes@ == nodes@,
            r.expected_tokens@ == expected_tokens@,
    {
        Match { nodes, expected_tokens }
    }
}

impl PrattOperatorMatch {
    pub fn new(elements: Vec<PrattElement>) -> (r: PrattOperatorMatch)
        ensures
            r.elements@ == elements@,
    {
        PrattOperatorMatch { elements }
    }
}

/// UTF-8 length of the text of the non-error nodes in a sequence: the measure
/// of real progress a partial match made, excluding skipped text.
pub open spec fn non_error_utf8(s: Seq<Node>) -> int
    decreases s.len(),
{
    if s.len() == 0 {
        0
    } else {
        (if s[0] is Error {
            0
        } else {
            utf8_len(node_text_of(s[0]))
        }) + non_error_utf8(s.drop_first())
    }
}

pub proof fn lemma_non_error_utf8_bounds(s: Seq<Node>)
    ensures
        0 <= non_error_utf8(s) <= utf8_len(nodes_text(s)),
    decreases s.len(),
{
    crate::text_index::lemma_utf8_len_bounds(nodes_text(s));
    if s.len() > 0 {
        lemma_non_error_utf8_bounds(s.drop_first());
        crate::text_index::lemma_utf8_len_concat(
            node_text_of(s[0]),
            nodes_text(s.drop_first()),
        );
        crate::text_index::lemma_utf8_len_bounds(node_text_of(s[0]));
    }
}

pub proof fn lemma_non_error_utf8_push(s: Seq<Node>, n: Node)
    ensures
        non_error_utf8(s.push(n)) == non_error_utf8(s) + (if n is Error {
            0
        } else {
            utf8_len(node_text_of(n))
        }),
    decreases s.len(),
{
    if s.len() == 0 {
        assert(s.push(n).drop_first() =~= Seq::<Node>::empty());
        assert(non_error_utf8(Seq::<Node>::empty()) == 0);
        assert(s =~= Seq::<Node>::empty());
    } else {
        assert(s.push(n)[0] == s[0]);
        assert(s.push(n).drop_first() =~= s.drop_first().push(n));
        lemma_non_error_utf8_push(s.drop_first(), n);
    }
}

impl IncompleteMatch {
    pub fn new(nodes: Vec<Node>, expected_tokens: Vec<TokenKind>) -> (r: IncompleteMatch)
        ensures
            r.nodes@ == nodes@,
            r.expected_tokens@ == expected_tokens@,
    {
        IncompleteMatch { nodes, expected_tokens }
    }

    /// Advances the stream past exactly the text of this match's nodes. Used
    /// whenever a partial match is accepted even though it is incomplete.
    pub fn consume_stream(&self, stream: &mut Stream)
        requires
            nodes_wf(self.nodes@),
            old(stream).wf(),
            old(stream).pos() + nodes_text(self.nodes@).len() <= old(stream).text().len(),
        ensures
            final(stream).wf(),
            final(stream).text() == old(stream).text(),
            final(stream).pos() == old(stream).pos() + nodes_text(self.nodes@).len(),
    {
        let ghost all = self.nodes@;
        let mut count: usize = 0;
        let mut i: usize = 0;
        while i < self.nodes.len()
            invariant
                i <= all.len(),
                self.nodes@ == all,
                nodes_wf(all),
                old(stream).pos() + nodes_text(all).len() <= old(stream).text().len(),
                old(stream).text().len() <= usize::MAX / 4,
                count == nodes_text(all.take(i as int)).len(),
                stream == old(stream),
            decreases all.len() - i,
        {
            proof {
                lemma_nodes_wf_index(all, i as int);
            }
            let len = self.nodes[i].text_len();
            proof {
                assert(all.take(i as int).push(all[i as int]) =~= all.take(i + 1));
                lemma_nodes_text_push(all.take(i as int), all[i as int]);
                lemma_nodes_text_split(all, i + 1);
                assert(nodes_text(all.take(i + 1)).len() <= nodes_text(all).len());
                assert(count + len.chars == nodes_text(all.take(i + 1)).len());
            }
            count = count + len.chars;
            i = i + 1;
        }
        proof {
            assert(all.take(all.len() as int) =~= all);
        }
        let mut j: usize = 0;
        while j < count
            invariant
                j <= count,
                stream.wf(),
                stream.text() == old(stream).text(),
                old(stream).pos() + count <= stream.text().len(),
                stream.pos() == old(stream).pos() + j,
            decreases count - j,
        {
            let _ = stream.next();
            j = j + 1;
        }
    }

    /// How many bytes of matched source this match covers, excluding any
    /// trailing error-node text: the yardstick Choice uses to compare two
    /// incomplete alternatives.
    pub fn matching_byte_len(&self) -> (r: usize)
        requires
            nodes_wf(self.nodes@),
            utf8_len(nodes_text(self.nodes@)) <= usize::MAX,
        ensures
            r == non_error_utf8(self.nodes@),
    {
        let ghost all = self.nodes@;
        let mut sum: usize = 0;
        let mut i: usize = 0;
        while i < self.nodes.len()
            invariant
                i <= all.len(),
                self.nodes@ == all,
                nodes_wf(all),
                utf8_len(nodes_text(all)) <= usize::MAX,
                sum == non_error_utf8(all.take(i as int)),
            decreases all.len() - i,
        {
            proof {
                lemma_nodes_wf_index(all, i as int);
                crate::cst::lemma_node_text_fits(all[i as int]);
                assert(all.take(i as int).push(all[i as int]) =~= all.take(i + 1));
                lemma_non_error_utf8_push(all.take(i as int), all[i as int]);
                lemma_non_error_utf8_bounds(all.take(i + 1));
                assert(all.take(i + 1).take(i + 1) =~= all.take(i + 1));
                lemma_nodes_text_split(all, i + 1);
                crate::text_index::lemma_utf8_len_concat(
                    nodes_text(all.take(i + 1)),
                    nodes_text(all.skip(i + 1)),
                );
                crate::text_index::lemma_utf8_len_bounds(nodes_text(all.skip(i + 1)));
            }
            if !self.nodes[i].is_error() {
                let len = self.nodes[i].text_len();
                sum = sum + len.utf8;
            }
            i = i + 1;
        }
        proof {
            assert(all.take(all.len() as int) =~= all);
        }
        sum
    }
}

impl NoMatch {
    pub fn new(expected_tokens: Vec<TokenKind>) -> (r: NoMatch)
        ensures
            r.expected_tokens@ == expected_tokens@,
    {
        NoMatch { expected_tokens }
    }
}

} // verus!
