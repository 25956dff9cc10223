use vstd::prelude::*;

use crate::cst::{
    error_leaf_count, error_leaf_count_all, lemma_error_leaf_count_all_push,
    lemma_nodes_text_push, lemma_nodes_text_split, lemma_nodes_wf_index, lemma_nodes_wf_push,
    node_text, node_wf, nodes_text, Node,
};
use crate::grammar::{eval, language_wf, Language};
use crate::kinds::{copy_kinds, RuleKind};
use crate::parse_error::ParseError;
use crate::parser_result::{ParserResult};
use crate::stream::Stream;
use crate::text_index::{
    lemma_utf16_len_bounds, lemma_utf16_len_concat, lemma_utf8_len_bounds, lemma_utf8_len_concat,
    text_len_of, utf16_len, utf8_len, TextIndex, TextRange,
};

verus! {

/// The cap on rule-reference nesting: deeply pathological input fails with
/// a diagnostic instead of overflowing the call stack.
pub const MAX_RECURSION_DEPTH: usize = 128;

/// What a parse hands back: a tree covering the whole input, and one
/// diagnostic per recovered or unparsed span.
#[derive(Debug)]
pub struct ParseOutput {
    pub parse_tree: Node,
    pub errors: Vec<ParseError>,
}

/// Anything that can drive a full parse of an input text.
pub trait ParserFunction {
    spec fn wf(&self) -> bool;

    spec fn rule_count(&self) -> int;

    /// The kind the named rule wraps its tree in.
    spec fn rule_kind_of(&self, i: int) -> RuleKind;

    /// Always returns a tree, even on total failure, and the tree is
    /// lossless: concatenating the text of its leaves in document order
    /// reproduces the input exactly, diagnostics or not. The root is a rule
    /// node of the driven rule's kind, except on total failure, where it is
    /// one error leaf owning the whole input. The diagnostics list carries
    /// one entry per error leaf, in document order, each covering exactly
    /// its leaf's range with its leaf's expected set.
    fn parse(&self, rule_index: usize, input: &Vec<char>) -> (out: ParseOutput)
        requires
            self.wf(),
            0 <= rule_index < self.rule_count(),
            input@.len() <= usize::MAX / 4,
        ensures
            node_wf(out.parse_tree),
            node_text(out.parse_tree) == input@,
            out.errors@.len() == error_leaf_count(out.parse_tree),
            records_match(out.errors@, out.parse_tree, 0, 0, 0),
            out.parse_tree is Rule || out.parse_tree is Error,
            out.parse_tree matches Node::Rule(rr) ==> rr.kind == self.rule_kind_of(
                rule_index as int,
            ),
            out.parse_tree matches Node::Error(e) ==> e.text@ == input@,
    ;
}

fn copy_chars(v: &Vec<char>) -> (r: Vec<char>)
    ensures
        r@ == v@,
{
    let mut r: Vec<char> = Vec::new();
    let mut i: usize = 0;
    while i < v.len()
        invariant
            i <= v@.len(),
            r@ == v@.take(i as int),
        decreases v@.len() - i,
    {
        r.push(v[i]);
        proof {
            assert(v@.take(i as int).push(v@[i as int]) =~= v@.take(i + 1));
        }
        i = i + 1;
    }
    proof {
        assert(v@.take(v@.len() as int) =~= v@);
    }
    r
}

/// The record one error leaf owes: a diagnostic covering exactly the
/// leaf's range, in all three indexing units, with the leaf's expected set.
pub open spec fn error_record_ok(
    e: ParseError,
    en: crate::cst::ErrorNode,
    co: int,
    uo: int,
    wo: int,
) -> bool {
    &&& e.text_range.start.chars == co
    &&& e.text_range.start.utf8 == uo
    &&& e.text_range.start.utf16 == wo
    &&& e.text_range.end.chars == co + en.text@.len()
    &&& e.text_range.end.utf8 == uo + utf8_len(en.text@)
    &&& e.text_range.end.utf16 == wo + utf16_len(en.text@)
    &&& e.expected_tokens@ == en.expected@
}

/// The diagnostics a tree owes, starting at the given offset: one per error
/// leaf, in document order, each covering its leaf's range with its leaf's
/// hint.
pub open spec fn records_match(errors: Seq<ParseError>, n: Node, co: int, uo: int, wo: int) -> bool
    decreases n,
{
    match n {
        Node::Token(_) => errors.len() == 0,
        Node::Error(en) => errors.len() == 1 && error_record_ok(errors[0], en, co, uo, wo),
        Node::Rule(rn) => records_match_all(errors, rn.children@, co, uo, wo),
    }
}

pub open spec fn records_match_all(
    errors: Seq<ParseError>,
    s: Seq<Node>,
    co: int,
    uo: int,
    wo: int,
) -> bool
    decreases s,
{
    if s.len() == 0 {
        errors.len() == 0
    } else {
        &&& 0 <= error_leaf_count(s[0]) <= errors.len()
        &&& records_match(errors.take(error_leaf_count(s[0])), s[0], co, uo, wo)
        &&& records_match_all(
            errors.skip(error_leaf_count(s[0])),
            s.drop_first(),
            co + node_text(s[0]).len(),
            uo + utf8_len(node_text(s[0])),
            wo + utf16_len(node_text(s[0])),
        )
    }
}

proof fn lemma_records_len(errors: Seq<ParseError>, n: Node, co: int, uo: int, wo: int)
    requires
        records_match(errors, n, co, uo, wo),
    ensures
        errors.len() == error_leaf_count(n),
    decreases n,
{
    match n {
        Node::Rule(rn) => {
            lemma_records_all_len(errors, rn.children@, co, uo, wo);
        }
        _ => {}
    }
}

proof fn lemma_records_all_len(errors: Seq<ParseError>, s: Seq<Node>, co: int, uo: int, wo: int)
    requires
        records_match_all(errors, s, co, uo, wo),
    ensures
        errors.len() == error_leaf_count_all(s),
    decreases s,
{
    if s.len() > 0 {
        let c = error_leaf_count(s[0]);
        lemma_records_len(errors.take(c), s[0], co, uo, wo);
        lemma_records_all_len(
            errors.skip(c),
            s.drop_first(),
            co + node_text(s[0]).len(),
            uo + utf8_len(node_text(s[0])),
            wo + utf16_len(node_text(s[0])),
        );
    }
}

/// A list that kept its old prefix splits around any earlier base point.
proof fn lemma_prefix_split(prev: Seq<ParseError>, cur: Seq<ParseError>, base: int)
    requires
        0 <= base <= prev.len() <= cur.len(),
        cur.take(prev.len() as int) == prev,
    ensures
        cur.take(base) == prev.take(base),
        cur.skip(base) == prev.skip(base) + cur.skip(prev.len() as int),
{
    assert(cur.take(base) =~= prev.take(base)) by {
        assert forall|j: int| 0 <= j < base implies cur.take(base)[j] == prev.take(base)[j] by {
            assert(cur.take(prev.len() as int)[j] == cur[j]);
        }
    }
    assert(cur.skip(base) =~= prev.skip(base) + cur.skip(prev.len() as int)) by {
        assert forall|j: int|
            0 <= j < cur.skip(base).len() implies #[trigger] cur.skip(base)[j] == (prev.skip(
            base,
        ) + cur.skip(prev.len() as int))[j] by {
            if j < prev.len() - base {
                assert(cur.take(prev.len() as int)[base + j] == cur[base + j]);
            }
        }
    }
}

/// Appending one node's records after a sibling list's records matches the
/// extended list.
proof fn lemma_records_all_snoc(
    errors: Seq<ParseError>,
    extra: Seq<ParseError>,
    s: Seq<Node>,
    n: Node,
    co: int,
    uo: int,
    wo: int,
)
    requires
        records_match_all(errors, s, co, uo, wo),
        records_match(
            extra,
            n,
            co + nodes_text(s).len(),
            uo + utf8_len(nodes_text(s)),
            wo + utf16_len(nodes_text(s)),
        ),
    ensures
        records_match_all(errors + extra, s.push(n), co, uo, wo),
    decreases s,
{
    if s.len() == 0 {
        let c = error_leaf_count(n);
        assert(nodes_text(s) =~= Seq::<char>::empty());
        lemma_records_len(extra, n, co, uo, wo);
        crate::cst::lemma_error_leaf_count_nonneg(n);
        assert(errors =~= Seq::<ParseError>::empty());
        assert(errors + extra =~= extra);
        assert(s.push(n)[0] == n);
        assert(s.push(n).drop_first() =~= Seq::<Node>::empty());
        assert(extra.take(c) =~= extra);
        assert(extra.skip(c) =~= Seq::<ParseError>::empty());
        assert(records_match_all(
            extra.skip(c),
            Seq::<Node>::empty(),
            co + node_text(n).len(),
            uo + utf8_len(node_text(n)),
            wo + utf16_len(node_text(n)),
        ));
    } else {
        let c0 = error_leaf_count(s[0]);
        assert(s.push(n)[0] == s[0]);
        assert(s.push(n).drop_first() =~= s.drop_first().push(n));
        assert((errors + extra).take(c0) =~= errors.take(c0));
        assert((errors + extra).skip(c0) =~= errors.skip(c0) + extra);
        crate::text_index::lemma_utf8_len_concat(
            node_text(s[0]),
            nodes_text(s.drop_first()),
        );
        crate::text_index::lemma_utf16_len_concat(
            node_text(s[0]),
            nodes_text(s.drop_first()),
        );
        lemma_records_all_snoc(
            errors.skip(c0),
            extra,
            s.drop_first(),
            n,
            co + node_text(s[0]).len(),
            uo + utf8_len(node_text(s[0])),
            wo + utf16_len(node_text(s[0])),
        );
    }
}

/// Gathers one `ParseError` per error leaf in document order, each with
/// the text range it covers.
#[verifier::loop_isolation(false)]
fn collect_into(node: &Node, offset: TextIndex, errors: &mut Vec<ParseError>)
    requires
        node_wf(*node),
        offset.utf8 + utf8_len(node_text(*node)) <= usize::MAX,
        offset.utf16 + utf16_len(node_text(*node)) <= usize::MAX,
        offset.chars + node_text(*node).len() <= usize::MAX,
    ensures
        final(errors)@.len() == old(errors)@.len() + error_leaf_count(*node),
        final(errors)@.take(old(errors)@.len() as int) == old(errors)@,
        records_match(
            final(errors)@.skip(old(errors)@.len() as int),
            *node,
            offset.chars as int,
            offset.utf8 as int,
            offset.utf16 as int,
        ),
    decreases *node,
{
    match node {
        Node::Rule(rn) => {
            let ghost children = rn.children@;
            let ghost base = old(errors)@.len() as int;
            let mut off = offset;
            let mut i: usize = 0;
            while i < rn.children.len()
                invariant
                    i <= children.len(),
                    off.utf8 == offset.utf8 + utf8_len(nodes_text(children.take(i as int))),
                    off.utf16 == offset.utf16 + utf16_len(
                        nodes_text(children.take(i as int)),
                    ),
                    off.chars == offset.chars + nodes_text(children.take(i as int)).len(),
                    errors@.len() == old(errors)@.len() + error_leaf_count_all(
                        children.take(i as int),
                    ),
                    errors@.take(base) == old(errors)@,
                    records_match_all(
                        errors@.skip(base),
                        children.take(i as int),
                        offset.chars as int,
                        offset.utf8 as int,
                        offset.utf16 as int,
                    ),
                decreases children.len() - i,
            {
                proof {
                    lemma_nodes_wf_index(children, i as int);
                    lemma_nodes_text_split(children, i as int);
                    lemma_nodes_text_split(children, i + 1);
                    assert(children.take(i as int).push(children[i as int]) =~= children.take(
                        i + 1,
                    ));
                    crate::cst::lemma_nodes_text_push(children.take(i as int), children[i as int]);
                    lemma_error_leaf_count_all_push(children.take(i as int), children[i as int]);
                    lemma_utf8_len_concat(
                        nodes_text(children.take(i as int)),
                        node_text(children[i as int]),
                    );
                    lemma_utf16_len_concat(
                        nodes_text(children.take(i as int)),
                        node_text(children[i as int]),
                    );
                    lemma_utf8_len_concat(
                        nodes_text(children.take(i + 1)),
                        nodes_text(children.skip(i + 1)),
                    );
                    lemma_utf16_len_concat(
                        nodes_text(children.take(i + 1)),
                        nodes_text(children.skip(i + 1)),
                    );
                    lemma_utf8_len_bounds(nodes_text(children.skip(i + 1)));
                    lemma_utf16_len_bounds(nodes_text(children.skip(i + 1)));
                    lemma_utf8_len_bounds(nodes_text(children.take(i as int)));
                    lemma_utf16_len_bounds(nodes_text(children.take(i as int)));
                    lemma_utf8_len_bounds(node_text(children[i as int]));
                    lemma_utf16_len_bounds(node_text(children[i as int]));
                }
                let child = &rn.children[i];
                let ghost prev = errors@;
                collect_into(child, off, errors);
                proof {
                    crate::cst::lemma_error_leaf_count_all_nonneg(children.take(i as int));
                    crate::cst::lemma_error_leaf_count_nonneg(children[i as int]);
                    lemma_prefix_split(prev, errors@, base);
                    lemma_records_all_snoc(
                        prev.skip(base),
                        errors@.skip(prev.len() as int),
                        children.take(i as int),
                        children[i as int],
                        offset.chars as int,
                        offset.utf8 as int,
                        offset.utf16 as int,
                    );
                    assert(children.take(i as int).push(children[i as int]) =~= children.take(
                        i + 1,
                    ));
                }
                let cl = child.text_len();
                off = off.add(cl);
                i = i + 1;
            }
            proof {
                assert(children.take(children.len() as int) =~= children);
            }
        }
        Node::Token(_) => {}
        Node::Error(en) => {
            proof {
                lemma_utf8_len_bounds(en.text@);
                lemma_utf16_len_bounds(en.text@);
            }
            let len = text_len_of(&en.text);
            let end = offset.add(len);
            let range = TextRange { start: offset, end };
            let expected = copy_kinds(&en.expected);
            let ghost prev = errors@;
            errors.push(ParseError::new(range, expected));
            proof {
                assert(errors@.take(prev.len() as int) =~= prev);
                assert(errors@.skip(prev.len() as int) =~= Seq::<ParseError>::empty().push(
                    errors@[prev.len() as int],
                ));
                assert(errors@.skip(prev.len() as int).len() == 1);
                assert(errors@.skip(prev.len() as int)[0] == errors@[prev.len() as int]);
            }
        }
    }
}

/// Walks the tree and collects exactly one diagnostic per error leaf, in
/// document order.
fn collect_errors(tree: &Node) -> (r: Vec<ParseError>)
    requires
        node_wf(*tree),
        utf8_len(node_text(*tree)) <= usize::MAX,
        utf16_len(node_text(*tree)) <= usize::MAX,
        node_text(*tree).len() <= usize::MAX,
    ensures
        r@.len() == error_leaf_count(*tree),
        records_match(r@, *tree, 0, 0, 0),
{
    proof {
        lemma_utf8_len_bounds(node_text(*tree));
        lemma_utf16_len_bounds(node_text(*tree));
    }
    let mut errors: Vec<ParseError> = Vec::new();
    let ghost before = errors@;
    collect_into(tree, TextIndex::zero(), &mut errors);
    proof {
        assert(errors@.skip(before.len() as int) =~= errors@);
    }
    errors
}

impl ParserFunction for Language {
    open spec fn wf(&self) -> bool {
        language_wf(*self)
    }

    open spec fn rule_count(&self) -> int {
        self.rules@.len() as int
    }

    open spec fn rule_kind_of(&self, i: int) -> RuleKind {
        self.rules@[i].kind
    }

    /// Drives the named rule over the whole input. A total failure still
    /// yields a tree: one error leaf covering everything. Leftover input
    /// after a partial match is captured as a trailing error leaf inside
    /// the root, so the tree never drops a character.
    fn parse(&self, rule_index: usize, input: &Vec<char>) -> (out: ParseOutput) {
        let ghost t = input@;
        proof {
            lemma_utf8_len_bounds(t);
            lemma_utf16_len_bounds(t);
        }
        let mut stream = Stream::new(copy_chars(input));
        let rd = &self.rules[rule_index];
        let r = eval(self, &rd.node, rd.ctx, &mut stream, MAX_RECURSION_DEPTH);
        proof {
            if !(r is NoMatch) {
                crate::text_index::lemma_slice_fits(t, 0, stream.pos());
            }
        }
        let r = r.with_kind(rd.kind);
        let (mut nodes_vec, expected) = match r {
            ParserResult::NoMatch(nm) => {
                let tree = Node::error(copy_chars(input), nm.expected_tokens);
                let errors = collect_errors(&tree);
                return ParseOutput { parse_tree: tree, errors };
            }
            ParserResult::Match(m) => (m.nodes, m.expected_tokens),
            ParserResult::IncompleteMatch(m) => (m.nodes, m.expected_tokens),
            _ => {
                return unreached();
            }
        };
        let ghost rtext = nodes_text(nodes_vec@);
        proof {
            lemma_nodes_wf_index(nodes_vec@, 0);
            assert(nodes_vec@.drop_first() =~= Seq::<Node>::empty());
            assert(nodes_text(Seq::<Node>::empty()) == Seq::<char>::empty());
            assert(nodes_text(nodes_vec@) == node_text(nodes_vec@[0]) + Seq::<char>::empty());
            assert(node_text(nodes_vec@[0]) + Seq::<char>::empty() =~= node_text(
                nodes_vec@[0],
            ));
        }
        let node = match nodes_vec.pop() {
            Some(n) => n,
            None => {
                return unreached();
            }
        };
        match node {
            Node::Rule(rn) => {
                let consumed = stream.position();
                if consumed.chars < input.len() {
                    let rest = stream.text_between(consumed.chars, input.len());
                    let mut children = rn.children;
                    let ghost cv = children@;
                    let err = Node::error(rest, expected);
                    children.push(err);
                    proof {
                        lemma_nodes_text_push(cv, children@[cv.len() as int]);
                        lemma_nodes_wf_push(cv, children@[cv.len() as int]);
                        assert(t.subrange(0, consumed.chars as int) + t.subrange(
                            consumed.chars as int,
                            t.len() as int,
                        ) =~= t.subrange(0, t.len() as int));
                        assert(t.subrange(0, t.len() as int) =~= t);
                        lemma_utf8_len_bounds(nodes_text(children@));
                        lemma_utf16_len_bounds(nodes_text(children@));
                    }
                    let tree = Node::rule(rn.kind, children);
                    let errors = collect_errors(&tree);
                    ParseOutput { parse_tree: tree, errors }
                } else {
                    proof {
                        assert(t.subrange(0, stream.pos()) =~= t);
                    }
                    let tree = Node::Rule(rn);
                    let errors = collect_errors(&tree);
                    ParseOutput { parse_tree: tree, errors }
                }
            }
            _ => unreached(),
        }
    }
}

} // verus!
