use vstd::prelude::*;

use crate::cst::{
    lemma_nodes_text_concat, lemma_nodes_wf_concat, nodes_text, nodes_wf, Node,
};
use crate::parser_result::{
    element_nodes, element_text, elements_text, elements_wf,
    lemma_elements_text_push, lemma_elements_wf_push, result_text, result_wf, Match, ParserResult,
    PrattElement,
};

verus! {

/// The nodes a pratt element list flattens to when it degrades into an
/// ordinary (incomplete) match.
pub open spec fn flat_nodes(s: Seq<PrattElement>) -> Seq<Node>
    decreases s.len(),
{
    if s.len() == 0 {
        Seq::<Node>::empty()
    } else {
        element_nodes(s[0]) + flat_nodes(s.drop_first())
    }
}

pub proof fn lemma_flat_nodes_text(s: Seq<PrattElement>)
    ensures
        nodes_text(flat_nodes(s)) == elements_text(s),
    decreases s.len(),
{
    if s.len() > 0 {
        lemma_flat_nodes_text(s.drop_first());
        lemma_nodes_text_concat(element_nodes(s[0]), flat_nodes(s.drop_first()));
    }
}

pub proof fn lemma_flat_nodes_wf(s: Seq<PrattElement>)
    requires
        elements_wf(s),
    ensures
        nodes_wf(flat_nodes(s)),
    decreases s.len(),
{
    if s.len() > 0 {
        lemma_flat_nodes_wf(s.drop_first());
        lemma_nodes_wf_concat(element_nodes(s[0]), flat_nodes(s.drop_first()));
    }
}

pub proof fn lemma_flat_nodes_push(s: Seq<PrattElement>, e: PrattElement)
    ensures
        flat_nodes(s.push(e)) == flat_nodes(s) + element_nodes(e),
    decreases s.len(),
{
    if s.len() == 0 {
        assert(s.push(e).drop_first() =~= Seq::<PrattElement>::empty());
        assert(flat_nodes(Seq::<PrattElement>::empty()) == Seq::<Node>::empty());
        assert(s =~= Seq::<PrattElement>::empty());
        assert(flat_nodes(s.push(e)) =~= flat_nodes(s) + element_nodes(e));
    } else {
        assert(s.push(e)[0] == s[0]);
        assert(s.push(e).drop_first() =~= s.drop_first().push(e));
        lemma_flat_nodes_push(s.drop_first(), e);
        assert(flat_nodes(s.push(e)) =~= flat_nodes(s) + element_nodes(e));
    }
}

/// Flattens pratt elements into their underlying nodes, in order.
pub fn flatten_elements(elements: Vec<PrattElement>) -> (r: Vec<Node>)
    ensures
        r@ == flat_nodes(elements@),
{
    let ghost orig = elements@;
    let mut elements = elements;
    let mut r: Vec<Node> = Vec::new();
    while elements.len() > 0
        invariant
            r@ + flat_nodes(elements@) == flat_nodes(orig),
        decreases elements.len(),
    {
        let e = elements.remove(0);
        proof {
            assert(element_nodes(e) == flat_nodes(old_list(e, elements@)).take(
                element_nodes(e).len() as int,
            )) by {
                assert(old_list(e, elements@)[0] == e);
                assert((element_nodes(e) + flat_nodes(elements@)).take(
                    element_nodes(e).len() as int,
                ) =~= element_nodes(e));
            }
        }
        let ghost before_r = r@;
        let ghost enodes = element_nodes(e);
        let mut nodes = match e {
            PrattElement::Expression { nodes } => nodes,
            PrattElement::Prefix { nodes, .. } => nodes,
            PrattElement::Binary { nodes, .. } => nodes,
            PrattElement::Postfix { nodes, .. } => nodes,
        };
        r.append(&mut nodes);
        proof {
            assert(r@ == before_r + enodes);
            assert((before_r + enodes) + flat_nodes(elements@) =~= before_r + (enodes
                + flat_nodes(elements@)));
        }
    }
    proof {
        assert(flat_nodes(elements@) == Seq::<Node>::empty());
        assert(r@ + Seq::<Node>::empty() =~= r@);
    }
    r
}

/// Helper naming the list with `e` back at its head, for the proof above.
pub open spec fn old_list(e: PrattElement, rest: Seq<PrattElement>) -> Seq<PrattElement> {
    seq![e] + rest
}

/// Exactly how one more child result folds into a running sequence, per the
/// result-algebra merge rules: full matches concatenate and keep only the
/// most recent hint; the first failure degrades the sequence to an
/// incomplete match; a failure before anything matched propagates as-is.
pub open spec fn sequence_step_ok(
    s0: Option<ParserResult>,
    next: ParserResult,
    s1: ParserResult,
) -> bool {
    match s0 {
        Option::None => s1 == next,
        Option::Some(r0) => match r0 {
            ParserResult::IncompleteMatch(_) => s1 == r0,
            ParserResult::NoMatch(_) => s1 == r0,
            ParserResult::Match(m0) => {
                if m0.nodes@.len() == 0 {
                    // An empty accumulated match (e.g. an optional element that
                    // matched nothing) is transparently replaced.
                    s1 == next
                } else {
                    match next {
                        ParserResult::Match(n) => {
                            &&& s1 matches ParserResult::Match(f)
                            &&& f.nodes@ == m0.nodes@ + n.nodes@
                            &&& f.expected_tokens@ == n.expected_tokens@
                        },
                        ParserResult::PrattOperatorMatch(n) => {
                            &&& s1 matches ParserResult::PrattOperatorMatch(f)
                            &&& f.elements@.len() == n.elements@.len() + 1
                            &&& f.elements@[0] matches PrattElement::Expression { nodes }
                            &&& nodes@ == m0.nodes@
                            &&& f.elements@.skip(1) == n.elements@
                        },
                        ParserResult::IncompleteMatch(n) => {
                            &&& s1 matches ParserResult::IncompleteMatch(f)
                            &&& f.nodes@ == m0.nodes@ + n.nodes@
                            &&& f.expected_tokens@ == n.expected_tokens@
                        },
                        ParserResult::NoMatch(n) => {
                            &&& s1 matches ParserResult::IncompleteMatch(f)
                            &&& f.nodes@ == m0.nodes@
                            &&& f.expected_tokens@ == m0.expected_tokens@ + n.expected_tokens@
                        },
                    }
                }
            },
            ParserResult::PrattOperatorMatch(p0) => match next {
                ParserResult::Match(n) => {
                    if n.nodes@.len() == 0 {
                        s1 == r0
                    } else {
                        &&& s1 matches ParserResult::PrattOperatorMatch(f)
                        &&& f.elements@.len() == p0.elements@.len() + 1
                        &&& f.elements@.take(p0.elements@.len() as int) == p0.elements@
                        &&& f.elements@[p0.elements@.len() as int]
                            matches PrattElement::Expression { nodes }
                        &&& nodes@ == n.nodes@
                    }
                },
                ParserResult::PrattOperatorMatch(n) => {
                    &&& s1 matches ParserResult::PrattOperatorMatch(f)
                    &&& f.elements@ == p0.elements@ + n.elements@
                },
                ParserResult::IncompleteMatch(n) => {
                    &&& s1 matches ParserResult::IncompleteMatch(f)
                    &&& f.nodes@ == flat_nodes(p0.elements@) + n.nodes@
                    &&& f.expected_tokens@ == n.expected_tokens@
                },
                ParserResult::NoMatch(n) => {
                    &&& s1 matches ParserResult::IncompleteMatch(f)
                    &&& f.nodes@ == flat_nodes(p0.elements@)
                    &&& f.expected_tokens@ == n.expected_tokens@
                },
            },
        },
    }
}

/// Drives an ordered list of child parses, accumulating their results until
/// the first one that is not a full match.
pub struct SequenceHelper {
    result: Option<ParserResult>,
}

impl SequenceHelper {
    pub closed spec fn state(&self) -> Option<ParserResult> {
        self.result
    }

    /// The text accumulated so far; empty before the first element.
    pub open spec fn state_text(&self) -> Seq<char> {
        match self.state() {
            Option::Some(r) => result_text(r),
            Option::None => Seq::<char>::empty(),
        }
    }

    pub open spec fn state_wf(&self) -> bool {
        match self.state() {
            Option::Some(r) => result_wf(r),
            Option::None => true,
        }
    }

    pub fn new() -> (r: SequenceHelper)
        ensures
            r.state() is None,
    {
        SequenceHelper { result: None }
    }

    /// The sequence can make no more progress once it holds an incomplete or
    /// no match.
    pub fn is_done(&self) -> (r: bool)
        ensures
            r == (self.state() matches Some(s) && (s is IncompleteMatch || s is NoMatch)),
    {
        match &self.result {
            Some(ParserResult::IncompleteMatch(_)) | Some(ParserResult::NoMatch(_)) => true,
            _ => false,
        }
    }

    /// Accumulates the next child's result. Returns true when the sequence is
    /// finished (cannot take further elements). The text of the accumulated
    /// result is always the concatenation of the texts of the results fed in.
    pub fn handle_next_result(&mut self, next: ParserResult) -> (stop: bool)
        requires
            old(self).state_wf(),
            result_wf(next),
        ensures
            final(self).state() is Some,
            final(self).state_wf(),
            stop == (final(self).state() matches Some(s) && (s is IncompleteMatch
                || s is NoMatch)),
            (old(self).state() matches Some(s0) && (s0 is IncompleteMatch || s0 is NoMatch))
                ==> *final(self) == *old(self),
            !(old(self).state() matches Some(s0) && (s0 is IncompleteMatch || s0 is NoMatch))
                ==> (final(self).state() matches Some(s1) && sequence_step_ok(
                old(self).state(),
                next,
                s1,
            ) && final(self).state_text() == old(self).state_text() + result_text(next)),
    {
        let s0 = self.result.take();
        match s0 {
            None => {
                proof {
                    assert(Seq::<char>::empty() + result_text(next) =~= result_text(next));
                }
                let stop = !next.is_match();
                self.result = Some(next);
                stop
            }
            Some(r0) => match r0 {
                ParserResult::IncompleteMatch(_) | ParserResult::NoMatch(_) => {
                    self.result = Some(r0);
                    true
                }
                ParserResult::Match(m0) => {
                    if m0.nodes.len() == 0 {
                        proof {
                            assert(nodes_text(m0.nodes@) == Seq::<char>::empty());
                            assert(Seq::<char>::empty() + result_text(next) =~= result_text(
                                next,
                            ));
                        }
                        let stop = !next.is_match();
                        self.result = Some(next);
                        stop
                    } else {
                        self.merge_into_match(m0, next)
                    }
                }
                ParserResult::PrattOperatorMatch(p0) => self.merge_into_pratt(p0, next),
            },
        }
    }

    /// Folds `next` into a non-empty running full match.
    fn merge_into_match(&mut self, m0: Match, next: ParserResult) -> (stop: bool)
        requires
            old(self).state() is None,
            nodes_wf(m0.nodes@),
            m0.nodes@.len() > 0,
            result_wf(next),
        ensures
            final(self).state() is Some,
            final(self).state_wf(),
            stop == (final(self).state() matches Some(s) && (s is IncompleteMatch
                || s is NoMatch)),
            final(self).state() matches Some(s1) && sequence_step_ok(
                Some(ParserResult::Match(m0)),
                next,
                s1,
            ),
            final(self).state_text() == nodes_text(m0.nodes@) + result_text(next),
    {
        let mut m0 = m0;
        match next {
            ParserResult::Match(mut n) => {
                proof {
                    lemma_nodes_wf_concat(m0.nodes@, n.nodes@);
                    lemma_nodes_text_concat(m0.nodes@, n.nodes@);
                }
                m0.nodes.append(&mut n.nodes);
                m0.expected_tokens = n.expected_tokens;
                self.result = Some(ParserResult::Match(m0));
                false
            }
            ParserResult::PrattOperatorMatch(n) => {
                let mut elements: Vec<PrattElement> = Vec::new();
                let ghost m0nodes = m0.nodes@;
                elements.push(PrattElement::Expression { nodes: m0.nodes });
                let ghost first = elements@[0];
                let mut rest = n.elements;
                proof {
                    assert(elements@ =~= Seq::<PrattElement>::empty().push(first));
                    lemma_elements_wf_push(Seq::<PrattElement>::empty(), first);
                    lemma_elements_text_push(Seq::<PrattElement>::empty(), first);
                    assert(element_text(first) == nodes_text(m0nodes));
                }
                let ghost one = elements@;
                elements.append(&mut rest);
                proof {
                    crate::parser_result::lemma_elements_wf_concat(one, n.elements@);
                    crate::parser_result::lemma_elements_text_concat(one, n.elements@);
                    assert(elements@.skip(1) =~= n.elements@);
                    assert(element_text(first) + elements_text(n.elements@) == elements_text(
                        elements@,
                    ));
                    assert(Seq::<char>::empty() + element_text(first) =~= element_text(first));
                }
                self.result = Some(ParserResult::PrattOperatorMatch(
                    crate::parser_result::PrattOperatorMatch { elements },
                ));
                false
            }
            ParserResult::IncompleteMatch(mut n) => {
                proof {
                    lemma_nodes_wf_concat(m0.nodes@, n.nodes@);
                    lemma_nodes_text_concat(m0.nodes@, n.nodes@);
                }
                m0.nodes.append(&mut n.nodes);
                self.result = Some(ParserResult::IncompleteMatch(
                    crate::parser_result::IncompleteMatch {
                        nodes: m0.nodes,
                        expected_tokens: n.expected_tokens,
                    },
                ));
                true
            }
            ParserResult::NoMatch(n) => {
                let mut expected = m0.expected_tokens;
                let mut n_expected = n.expected_tokens;
                expected.append(&mut n_expected);
                proof {
                    assert(nodes_text(m0.nodes@) + Seq::<char>::empty() =~= nodes_text(
                        m0.nodes@,
                    ));
                }
                self.result = Some(ParserResult::IncompleteMatch(
                    crate::parser_result::IncompleteMatch {
                        nodes: m0.nodes,
                        expected_tokens: expected,
                    },
                ));
                true
            }
        }
    }

    /// Folds `next` into a running pratt operator match.
    fn merge_into_pratt(
        &mut self,
        p0: crate::parser_result::PrattOperatorMatch,
        next: ParserResult,
    ) -> (stop: bool)
        requires
            old(self).state() is None,
            elements_wf(p0.elements@),
            result_wf(next),
        ensures
            final(self).state() is Some,
            final(self).state_wf(),
            stop == (final(self).state() matches Some(s) && (s is IncompleteMatch
                || s is NoMatch)),
            final(self).state() matches Some(s1) && sequence_step_ok(
                Some(ParserResult::PrattOperatorMatch(p0)),
                next,
                s1,
            ),
            final(self).state_text() == elements_text(p0.elements@) + result_text(next),
    {
        let mut p0 = p0;
        match next {
            ParserResult::Match(n) => {
                if n.nodes.len() == 0 {
                    proof {
                        assert(nodes_text(n.nodes@) == Seq::<char>::empty());
                        assert(elements_text(p0.elements@) + Seq::<char>::empty()
                            =~= elements_text(p0.elements@));
                    }
                    self.result = Some(ParserResult::PrattOperatorMatch(p0));
                    false
                } else {
                    let ghost before = p0.elements@;
                    let ghost nnodes = n.nodes@;
                    p0.elements.push(PrattElement::Expression { nodes: n.nodes });
                    proof {
                        let e = p0.elements@[before.len() as int];
                        assert(p0.elements@ =~= before.push(e));
                        lemma_elements_wf_push(before, e);
                        lemma_elements_text_push(before, e);
                        assert(p0.elements@.take(before.len() as int) =~= before);
                    }
                    self.result = Some(ParserResult::PrattOperatorMatch(p0));
                    false
                }
            }
            ParserResult::PrattOperatorMatch(n) => {
                let ghost a = p0.elements@;
                let ghost b = n.elements@;
                let mut rest = n.elements;
                p0.elements.append(&mut rest);
                proof {
                    crate::parser_result::lemma_elements_wf_concat(a, b);
                    crate::parser_result::lemma_elements_text_concat(a, b);
                }
                self.result = Some(ParserResult::PrattOperatorMatch(p0));
                false
            }
            ParserResult::IncompleteMatch(mut n) => {
                proof {
                    lemma_flat_nodes_wf(p0.elements@);
                    lemma_flat_nodes_text(p0.elements@);
                    lemma_nodes_wf_concat(flat_nodes(p0.elements@), n.nodes@);
                    lemma_nodes_text_concat(flat_nodes(p0.elements@), n.nodes@);
                }
                let mut nodes = flatten_elements(p0.elements);
                nodes.append(&mut n.nodes);
                self.result = Some(ParserResult::IncompleteMatch(
                    crate::parser_result::IncompleteMatch {
                        nodes,
                        expected_tokens: n.expected_tokens,
                    },
                ));
                true
            }
            ParserResult::NoMatch(n) => {
                proof {
                    lemma_flat_nodes_wf(p0.elements@);
                    lemma_flat_nodes_text(p0.elements@);
                    assert(elements_text(p0.elements@) + Seq::<char>::empty() =~= elements_text(
                        p0.elements@,
                    ));
                }
                let nodes = flatten_elements(p0.elements);
                self.result = Some(ParserResult::IncompleteMatch(
                    crate::parser_result::IncompleteMatch {
                        nodes,
                        expected_tokens: n.expected_tokens,
                    },
                ));
                true
            }
        }
    }

    /// The accumulated result. The sequence must have been driven through at
    /// least one element.
    pub fn result(self) -> (r: ParserResult)
        requires
            self.state() is Some,
        ensures
            Some(r) == self.state(),
    {
        match self.result {
            Some(result) => result,
            None => unreached(),
        }
    }
}

} // verus!
