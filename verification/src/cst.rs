use vstd::prelude::*;

use crate::kinds::{NodeType, RuleKind, TokenKind};
use crate::text_index::{
    lemma_utf16_len_bounds, lemma_utf16_len_concat,
    lemma_utf8_len_bounds, lemma_utf8_len_concat, text_len_of, utf16_len, utf8_len, TextIndex,
};

verus! {

/// One node of the concrete syntax tree.
///
/// The tree is lossless: concatenating the text of all `Token` and `Error`
/// leaves in document order reproduces the parsed source exactly.
#[derive(Debug, PartialEq, Eq)]
pub enum Node {
    Rule(RuleNode),
    Token(TokenNode),
    Error(ErrorNode),
}

/// An interior node: a rule tag over an ordered list of children, with the
/// combined text length cached rather than recomputed.
#[derive(Debug, PartialEq, Eq)]
pub struct RuleNode {
    pub kind: RuleKind,
    pub text_len: TextIndex,
    pub children: Vec<Node>,
}

/// A leaf holding one matched terminal and its literal text.
#[derive(Debug, PartialEq, Eq)]
pub struct TokenNode {
    pub kind: TokenKind,
    pub text: Vec<char>,
}

/// A leaf holding a skipped or unparsed span of raw text, together with the
/// token kinds that would have allowed progress at that point.
#[derive(Debug, PartialEq, Eq)]
pub struct ErrorNode {
    pub text: Vec<char>,
    pub expected: Vec<TokenKind>,
}

/// The text of a node: the concatenation of the text of its leaves, in
/// document order.
pub open spec fn node_text(n: Node) -> Seq<char>
    decreases n,
{
    match n {
        Node::Rule(r) => nodes_text(r.children@),
        Node::Token(t) => t.text@,
        Node::Error(e) => e.text@,
    }
}

/// The concatenated text of a sequence of sibling nodes.
pub open spec fn nodes_text(s: Seq<Node>) -> Seq<char>
    decreases s,
{
    if s.len() == 0 {
        Seq::<char>::empty()
    } else {
        node_text(s[0]) + nodes_text(s.drop_first())
    }
}

/// Well-formedness: every cached text length agrees with the text below it,
/// and every leaf is small enough for its length to be measured in `usize`.
pub open spec fn node_wf(n: Node) -> bool
    decreases n,
{
    match n {
        Node::Rule(r) => nodes_wf(r.children@) && r.text_len.is_len_of(nodes_text(r.children@)),
        Node::Token(t) => t.text@.len() <= usize::MAX / 4,
        Node::Error(e) => e.text@.len() <= usize::MAX / 4,
    }
}

pub open spec fn nodes_wf(s: Seq<Node>) -> bool
    decreases s,
{
    s.len() == 0 || (node_wf(s[0]) && nodes_wf(s.drop_first()))
}

pub proof fn lemma_nodes_text_concat(a: Seq<Node>, b: Seq<Node>)
    ensures
        nodes_text(a + b) == nodes_text(a) + nodes_text(b),
    decreases a.len(),
{
    if a.len() == 0 {
        assert(a + b =~= b);
        assert(nodes_text(a) + nodes_text(b) =~= nodes_text(b));
    } else {
        assert((a + b).drop_first() =~= a.drop_first() + b);
        lemma_nodes_text_concat(a.drop_first(), b);
        assert(nodes_text(a + b) =~= nodes_text(a) + nodes_text(b));
    }
}

pub proof fn lemma_nodes_text_push(s: Seq<Node>, n: Node)
    ensures
        nodes_text(s.push(n)) == nodes_text(s) + node_text(n),
    decreases s.len(),
{
    if s.len() == 0 {
        assert(s.push(n).drop_first() =~= Seq::<Node>::empty());
        assert(nodes_text(Seq::<Node>::empty()) == Seq::<char>::empty());
        assert(nodes_text(s.push(n)) =~= nodes_text(s) + node_text(n));
    } else {
        assert(s.push(n)[0] == s[0]);
        assert(s.push(n).drop_first() =~= s.drop_first().push(n));
        lemma_nodes_text_push(s.drop_first(), n);
        assert(nodes_text(s.push(n)) =~= nodes_text(s) + node_text(n));
    }
}

pub proof fn lemma_nodes_wf_concat(a: Seq<Node>, b: Seq<Node>)
    ensures
        nodes_wf(a + b) <==> (nodes_wf(a) && nodes_wf(b)),
    decreases a.len(),
{
    if a.len() == 0 {
        assert(a + b =~= b);
    } else {
        assert((a + b).drop_first() =~= a.drop_first() + b);
        assert((a + b)[0] == a[0]);
        lemma_nodes_wf_concat(a.drop_first(), b);
    }
}

pub proof fn lemma_nodes_wf_push(s: Seq<Node>, n: Node)
    ensures
        nodes_wf(s.push(n)) <==> (nodes_wf(s) && node_wf(n)),
    decreases s.len(),
{
    if s.len() == 0 {
        assert(s.push(n).drop_first() =~= Seq::<Node>::empty());
        assert(nodes_wf(Seq::<Node>::empty()));
    } else {
        assert(s.push(n)[0] == s[0]);
        assert(s.push(n).drop_first() =~= s.drop_first().push(n));
        lemma_nodes_wf_push(s.drop_first(), n);
    }
}

pub proof fn lemma_nodes_wf_index(s: Seq<Node>, i: int)
    requires
        nodes_wf(s),
        0 <= i < s.len(),
    ensures
        node_wf(s[i]),
    decreases s.len(),
{
    if i > 0 {
        lemma_nodes_wf_index(s.drop_first(), i - 1);
    }
}

pub proof fn lemma_nodes_text_split(s: Seq<Node>, i: int)
    requires
        0 <= i <= s.len(),
    ensures
        nodes_text(s) == nodes_text(s.take(i)) + nodes_text(s.skip(i)),
{
    assert(s =~= s.take(i) + s.skip(i));
    lemma_nodes_text_concat(s.take(i), s.skip(i));
}

/// The measured text of a well-formed node fits in `usize` in all three units.
pub proof fn lemma_node_text_fits(n: Node)
    requires
        node_wf(n),
    ensures
        node_text(n).len() <= usize::MAX,
        utf8_len(node_text(n)) <= usize::MAX,
        utf16_len(node_text(n)) <= usize::MAX,
        0 <= utf8_len(node_text(n)),
        0 <= utf16_len(node_text(n)),
    decreases n,
{
    lemma_utf8_len_bounds(node_text(n));
    lemma_utf16_len_bounds(node_text(n));
    match n {
        Node::Rule(r) => {}
        Node::Token(t) => {}
        Node::Error(e) => {}
    }
}

/// How many error leaves a node contains: the number of diagnostics a
/// parse of it owes.
pub open spec fn error_leaf_count(n: Node) -> int
    decreases n,
{
    match n {
        Node::Rule(r) => error_leaf_count_all(r.children@),
        Node::Token(_) => 0,
        Node::Error(_) => 1,
    }
}

pub open spec fn error_leaf_count_all(s: Seq<Node>) -> int
    decreases s,
{
    if s.len() == 0 {
        0
    } else {
        error_leaf_count(s[0]) + error_leaf_count_all(s.drop_first())
    }
}

pub proof fn lemma_error_leaf_count_nonneg(n: Node)
    ensures
        error_leaf_count(n) >= 0,
    decreases n,
{
    match n {
        Node::Rule(r) => lemma_error_leaf_count_all_nonneg(r.children@),
        _ => {}
    }
}

pub proof fn lemma_error_leaf_count_all_nonneg(s: Seq<Node>)
    ensures
        error_leaf_count_all(s) >= 0,
    decreases s,
{
    if s.len() > 0 {
        lemma_error_leaf_count_nonneg(s[0]);
        lemma_error_leaf_count_all_nonneg(s.drop_first());
    }
}

pub proof fn lemma_error_leaf_count_all_split(s: Seq<Node>, i: int)
    requires
        0 <= i <= s.len(),
    ensures
        error_leaf_count_all(s) == error_leaf_count_all(s.take(i)) + error_leaf_count_all(
            s.skip(i),
        ),
    decreases i,
{
    if i == 0 {
        assert(s.take(0) =~= Seq::<Node>::empty());
        assert(s.skip(0) =~= s);
    } else {
        assert(s.take(i)[0] == s[0]);
        assert(s.take(i).drop_first() =~= s.drop_first().take(i - 1));
        assert(s.skip(i) =~= s.drop_first().skip(i - 1));
        lemma_error_leaf_count_all_split(s.drop_first(), i - 1);
    }
}

pub proof fn lemma_error_leaf_count_all_push(s: Seq<Node>, n: Node)
    ensures
        error_leaf_count_all(s.push(n)) == error_leaf_count_all(s) + error_leaf_count(n),
    decreases s.len(),
{
    if s.len() == 0 {
        assert(s.push(n).drop_first() =~= Seq::<Node>::empty());
        assert(error_leaf_count_all(Seq::<Node>::empty()) == 0);
        assert(s =~= Seq::<Node>::empty());
    } else {
        assert(s.push(n)[0] == s[0]);
        assert(s.push(n).drop_first() =~= s.drop_first().push(n));
        lemma_error_leaf_count_all_push(s.drop_first(), n);
    }
}

impl Node {
    /// Which of the three shapes this node has.
    pub fn node_type(&self) -> (r: NodeType)
        ensures
            r == (match *self {
                Node::Rule(_) => NodeType::Rule,
                Node::Token(_) => NodeType::Token,
                Node::Error(_) => NodeType::Error,
            }),
    {
        match self {
            Node::Rule(_) => NodeType::Rule,
            Node::Token(_) => NodeType::Token,
            Node::Error(_) => NodeType::Error,
        }
    }

    pub fn is_error(&self) -> (r: bool)
        ensures
            r == (*self matches Node::Error(_)),
    {
        match self {
            Node::Error(_) => true,
            _ => false,
        }
    }

    /// Builds an interior node over `children`, caching their combined text
    /// length.
    pub fn rule(kind: RuleKind, children: Vec<Node>) -> (r: Node)
        requires
            nodes_wf(children@),
            utf8_len(nodes_text(children@)) <= usize::MAX,
            utf16_len(nodes_text(children@)) <= usize::MAX,
            nodes_text(children@).len() <= usize::MAX,
        ensures
            node_wf(r),
            r matches Node::Rule(rr) && rr.kind == kind && rr.children@ == children@,
            node_text(r) == nodes_text(children@),
    {
        let ghost all = children@;
        let mut total = TextIndex::zero();
        let mut i: usize = 0;
        while i < children.len()
            invariant
                i <= all.len(),
                children@ == all,
                nodes_wf(all),
                utf8_len(nodes_text(all)) <= usize::MAX,
                utf16_len(nodes_text(all)) <= usize::MAX,
                nodes_text(all).len() <= usize::MAX,
                total.is_len_of(nodes_text(all.take(i as int))),
            decreases all.len() - i,
        {
            proof {
                lemma_nodes_wf_index(all, i as int);
                lemma_node_text_fits(all[i as int]);
                assert(all.take(i as int).push(all[i as int]) =~= all.take(i + 1));
                lemma_nodes_text_push(all.take(i as int), all[i as int]);
                lemma_nodes_text_split(all, i + 1);
                lemma_utf8_len_concat(nodes_text(all.take(i + 1)), nodes_text(all.skip(i + 1)));
                lemma_utf16_len_concat(nodes_text(all.take(i + 1)), nodes_text(all.skip(i + 1)));
                lemma_utf8_len_concat(
                    nodes_text(all.take(i as int)),
                    node_text(all[i as int]),
                );
                lemma_utf16_len_concat(
                    nodes_text(all.take(i as int)),
                    node_text(all[i as int]),
                );
                lemma_utf8_len_bounds(nodes_text(all.skip(i + 1)));
                lemma_utf16_len_bounds(nodes_text(all.skip(i + 1)));
            }
            let child_len = children[i].text_len();
            total = total.add(child_len);
            i = i + 1;
        }
        proof {
            assert(all.take(all.len() as int) =~= all);
        }
        Node::Rule(RuleNode { kind, text_len: total, children })
    }

    /// Builds a terminal leaf.
    pub fn token(kind: TokenKind, text: Vec<char>) -> (r: Node)
        requires
            text@.len() <= usize::MAX / 4,
        ensures
            node_wf(r),
            r matches Node::Token(t) && t.kind == kind && t.text@ == text@,
            node_text(r) == text@,
    {
        Node::Token(TokenNode { kind, text })
    }

    /// Builds an error leaf covering skipped raw text.
    pub fn error(text: Vec<char>, expected: Vec<TokenKind>) -> (r: Node)
        requires
            text@.len() <= usize::MAX / 4,
        ensures
            node_wf(r),
            r matches Node::Error(e) && e.text@ == text@ && e.expected@ == expected@,
            node_text(r) == text@,
    {
        Node::Error(ErrorNode { text, expected })
    }

    /// The length of this node's text, in all three indexing conventions.
    /// Cached on interior nodes, measured on leaves.
    pub fn text_len(&self) -> (r: TextIndex)
        requires
            node_wf(*self),
        ensures
            r.is_len_of(node_text(*self)),
    {
        match self {
            Node::Rule(r) => r.text_len,
            Node::Token(t) => {
                proof {
                    lemma_utf8_len_bounds(t.text@);
                    lemma_utf16_len_bounds(t.text@);
                }
                text_len_of(&t.text)
            }
            Node::Error(e) => {
                proof {
                    lemma_utf8_len_bounds(e.text@);
                    lemma_utf16_len_bounds(e.text@);
                }
                text_len_of(&e.text)
            }
        }
    }
}

} // verus!
