use vstd::prelude::*;

use crate::cst::{
    lemma_nodes_text_split, lemma_nodes_wf_index, node_text, node_wf,
    nodes_text, ErrorNode, Node, RuleNode, TokenNode,
};
use crate::text_index::{
    lemma_utf16_len_concat, lemma_utf16_len_bounds, lemma_utf8_len_concat, lemma_utf8_len_bounds,
    text_len_of, utf16_len, utf8_len, TextIndex, TextRange,
};

verus! {

/// Whether the visitor should enter the children of a rule node or step
/// over them.
pub enum Step {
    In,
    Over,
}

/// A visitor over the concrete syntax tree, driven in document order.
pub trait Visitor {
    /// Called when a rule node is entered; the returned step controls
    /// whether its children are visited.
    fn rule_enter(&mut self, node: &RuleNode, offset: &TextIndex) -> Step;

    /// Called when a rule node is left.
    fn rule_exit(&mut self, node: &RuleNode, offset: &TextIndex);

    /// Called at each token leaf.
    fn token(&mut self, node: &TokenNode, offset: &TextIndex);

    /// Called at each error leaf, with the text range it covers.
    fn error(&mut self, node: &ErrorNode, range: &TextRange);
}

/// A read position inside a tree: a node and the text offset where it
/// starts.
pub struct Cursor<'a> {
    pub node: &'a Node,
    pub offset: TextIndex,
}

impl<'a> Cursor<'a> {
    /// The node is well formed and its text, measured from the offset,
    /// stays within the machine's index range.
    pub open spec fn wf(&self) -> bool {
        &&& node_wf(*self.node)
        &&& self.offset.utf8 + utf8_len(node_text(*self.node)) <= usize::MAX
        &&& self.offset.utf16 + utf16_len(node_text(*self.node)) <= usize::MAX
        &&& self.offset.chars + node_text(*self.node).len() <= usize::MAX
    }

    /// A cursor at the start of a tree.
    pub fn new(node: &'a Node) -> (r: Cursor<'a>)
        requires
            node_wf(*node),
            utf8_len(node_text(*node)) <= usize::MAX,
            utf16_len(node_text(*node)) <= usize::MAX,
            node_text(*node).len() <= usize::MAX,
        ensures
            r.wf(),
            r.node == node,
            r.offset.is_zero(),
    {
        proof {
            lemma_utf8_len_bounds(node_text(*node));
            lemma_utf16_len_bounds(node_text(*node));
        }
        Cursor { node, offset: TextIndex::zero() }
    }

    /// The text range this cursor's node covers.
    pub fn text_range(&self) -> (r: TextRange)
        requires
            self.wf(),
        ensures
            r.start == self.offset,
            r.end.chars == self.offset.chars + node_text(*self.node).len(),
    {
        let len = self.node.text_len();
        let end = self.offset.add(len);
        TextRange { start: self.offset, end }
    }

    /// Walks this node and everything below it in document order, calling
    /// the visitor's hooks with each node's offset.
    #[verifier::loop_isolation(false)]
    pub fn drive_visitor<V: Visitor>(&self, visitor: &mut V)
        requires
            self.wf(),
        decreases *self.node,
    {
        match self.node {
            Node::Rule(rn) => {
                let step = visitor.rule_enter(rn, &self.offset);
                match step {
                    Step::In => {
                        let ghost children = rn.children@;
                        let mut off = self.offset;
                        let mut i: usize = 0;
                        while i < rn.children.len()
                            invariant
                                i <= children.len(),
                                off.utf8 == self.offset.utf8 + utf8_len(
                                    nodes_text(children.take(i as int)),
                                ),
                                off.utf16 == self.offset.utf16 + utf16_len(
                                    nodes_text(children.take(i as int)),
                                ),
                                off.chars == self.offset.chars + nodes_text(
                                    children.take(i as int),
                                ).len(),
                            decreases children.len() - i,
                        {
                            proof {
                                lemma_nodes_wf_index(children, i as int);
                                lemma_nodes_text_split(children, i as int);
                                lemma_nodes_text_split(children, i + 1);
                                assert(children.take(i as int).push(children[i as int])
                                    =~= children.take(i + 1));
                                crate::cst::lemma_nodes_text_push(
                                    children.take(i as int),
                                    children[i as int],
                                );
                                lemma_utf8_len_concat(
                                    nodes_text(children.take(i as int)),
                                    node_text(children[i as int]),
                                );
                                lemma_utf16_len_concat(
                                    nodes_text(children.take(i as int)),
                                    node_text(children[i as int]),
                                );
                                lemma_utf8_len_concat(
                                    nodes_text(children.take(i + 1)),
                                    nodes_text(children.skip(i + 1)),
                                );
                                lemma_utf16_len_concat(
                                    nodes_text(children.take(i + 1)),
                                    nodes_text(children.skip(i + 1)),
                                );
                                lemma_utf8_len_bounds(nodes_text(children.skip(i + 1)));
                                lemma_utf16_len_bounds(nodes_text(children.skip(i + 1)));
                                lemma_utf8_len_bounds(nodes_text(children.take(i as int)));
                                lemma_utf16_len_bounds(nodes_text(children.take(i as int)));
                                lemma_utf8_len_bounds(node_text(children[i as int]));
                                lemma_utf16_len_bounds(node_text(children[i as int]));
                            }
                            let child = &rn.children[i];
                            let c = Cursor { node: child, offset: off };
                            c.drive_visitor(visitor);
                            let cl = child.text_len();
                            off = off.add(cl);
                            i = i + 1;
                        }
                    }
                    Step::Over => {}
                }
                visitor.rule_exit(rn, &self.offset);
            }
            Node::Token(tn) => {
                visitor.token(tn, &self.offset);
            }
            Node::Error(en) => {
                proof {
                    lemma_utf8_len_bounds(en.text@);
                    lemma_utf16_len_bounds(en.text@);
                }
                let len = text_len_of(&en.text);
                let end = self.offset.add(len);
                let range = TextRange { start: self.offset, end };
                visitor.error(en, &range);
            }
        }
    }
}

} // verus!
