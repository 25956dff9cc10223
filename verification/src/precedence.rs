use vstd::prelude::*;

use crate::cst::{
    lemma_nodes_text_concat, lemma_nodes_text_push, lemma_nodes_wf_concat, lemma_nodes_wf_push,
    node_text, nodes_text, nodes_wf, Node,
};
use crate::kinds::RuleKind;
use crate::parser_result::{
    element_nodes, element_text, element_wf, elements_text, elements_wf,
    lemma_elements_text_split, lemma_elements_wf_concat, PrattElement,
};
use crate::text_index::{lemma_utf16_len_concat, lemma_utf16_len_bounds, lemma_utf8_len_concat, lemma_utf8_len_bounds, utf16_len, utf8_len};

verus! {

/// The text of a pratt element stack read from its top (the end) downward:
/// the stack holds the expression's elements in reverse, so this is the text
/// still to be consumed, in source order.
pub open spec fn stack_text(s: Seq<PrattElement>) -> Seq<char>
    decreases s.len(),
{
    if s.len() == 0 {
        Seq::<char>::empty()
    } else {
        element_text(s.last()) + stack_text(s.drop_last())
    }
}

proof fn lemma_elements_text_drop_last(s: Seq<PrattElement>)
    requires
        s.len() > 0,
    ensures
        elements_text(s) == elements_text(s.drop_last()) + element_text(s.last()),
        elements_wf(s) ==> elements_wf(s.drop_last()) && element_wf(s.last()),
{
    lemma_elements_text_split(s, s.len() - 1);
    assert(s.take(s.len() - 1) =~= s.drop_last());
    let tail = s.skip(s.len() - 1);
    assert(tail.len() == 1);
    assert(tail[0] == s.last());
    assert(tail.drop_first() =~= Seq::<PrattElement>::empty());
    assert(elements_text(Seq::<PrattElement>::empty()) == Seq::<char>::empty());
    assert(elements_text(tail) =~= element_text(s.last()));
    assert(element_text(s.last()) + Seq::<char>::empty() =~= element_text(s.last()));
    if elements_wf(s) {
        assert(s =~= s.drop_last() + tail);
        lemma_elements_wf_concat(s.drop_last(), tail);
    }
}

proof fn lemma_stack_wf_drop_last(s: Seq<PrattElement>)
    requires
        s.len() > 0,
        elements_wf(s),
    ensures
        elements_wf(s.drop_last()),
        element_wf(s.last()),
{
    lemma_elements_text_drop_last(s);
}

proof fn lemma_stack_text_push(s: Seq<PrattElement>, e: PrattElement)
    ensures
        stack_text(s.push(e)) == element_text(e) + stack_text(s),
{
    assert(s.push(e).last() == e);
    assert(s.push(e).drop_last() =~= s);
}

/// Wraps a finished operand list into a single rule node of the operator's
/// own kind.
fn wrap_operator(kind: RuleKind, children: Vec<Node>) -> (r: Vec<Node>)
    requires
        nodes_wf(children@),
        utf8_len(nodes_text(children@)) <= usize::MAX,
        utf16_len(nodes_text(children@)) <= usize::MAX,
        nodes_text(children@).len() <= usize::MAX,
    ensures
        r@.len() == 1,
        nodes_wf(r@),
        nodes_text(r@) == nodes_text(children@),
        r@[0] matches Node::Rule(rr) && rr.kind == kind && rr.children@ == children@,
{
    let ghost ctext = nodes_text(children@);
    let node = Node::rule(kind, children);
    let mut r: Vec<Node> = Vec::new();
    r.push(node);
    proof {
        assert(r@ =~= Seq::<Node>::empty().push(r@[0]));
        lemma_nodes_text_push(Seq::<Node>::empty(), r@[0]);
        lemma_nodes_wf_push(Seq::<Node>::empty(), r@[0]);
        assert(Seq::<char>::empty() + node_text(r@[0]) =~= node_text(r@[0]));
    }
    r
}

/// The operator rule kind an operator element carries.
pub open spec fn element_op_kind(e: PrattElement) -> RuleKind {
    match e {
        PrattElement::Prefix { kind, .. } => kind,
        PrattElement::Binary { kind, .. } => kind,
        PrattElement::Postfix { kind, .. } => kind,
        PrattElement::Expression { .. } => arbitrary(),
    }
}

/// The left binding power an operator element carries.
pub open spec fn element_left(e: PrattElement) -> u8 {
    match e {
        PrattElement::Binary { left, .. } => left,
        PrattElement::Postfix { left, .. } => left,
        _ => arbitrary(),
    }
}

/// The right binding power an operator element carries.
pub open spec fn element_right(e: PrattElement) -> u8 {
    match e {
        PrattElement::Prefix { right, .. } => right,
        PrattElement::Binary { right, .. } => right,
        _ => arbitrary(),
    }
}

/// A reversed stack holding exactly operand, binary operator, operand: the
/// atomic shape one operator application consumes.
pub open spec fn lone_binary_stack(s: Seq<PrattElement>) -> bool {
    &&& s.len() == 3
    &&& s[2] is Expression
    &&& s[1] is Binary
    &&& s[0] is Expression
}

/// The single operator node such a shape reduces to: the left operand, the
/// operator's own nodes and the right operand, in order, under the
/// operator's rule kind.
pub open spec fn lone_binary_result(r: Seq<Node>, s: Seq<PrattElement>) -> bool {
    &&& r.len() == 1
    &&& r[0] matches Node::Rule(rn)
    &&& rn.kind == element_op_kind(s[1])
    &&& rn.children@ == element_nodes(s[2]) + element_nodes(s[1]) + element_nodes(s[0])
}

/// A reversed stack holding operand, binary, operand, binary, operand: two
/// chained binary operators.
pub open spec fn chain_binary_stack(s: Seq<PrattElement>) -> bool {
    &&& s.len() == 5
    &&& s[4] is Expression
    &&& s[3] is Binary
    &&& s[2] is Expression
    &&& s[1] is Binary
    &&& s[0] is Expression
}

/// Left-nested reduction of a two-operator chain: the first operator's node
/// is the second's left operand, as a left-associative chain parses.
pub open spec fn left_nested_result(r: Seq<Node>, s: Seq<PrattElement>) -> bool {
    &&& r.len() == 1
    &&& r[0] matches Node::Rule(outer)
    &&& outer.kind == element_op_kind(s[1])
    &&& outer.children@.len() == 1 + element_nodes(s[1]).len() + element_nodes(s[0]).len()
    &&& outer.children@[0] matches Node::Rule(inner)
    &&& inner.kind == element_op_kind(s[3])
    &&& inner.children@ == element_nodes(s[4]) + element_nodes(s[3]) + element_nodes(s[2])
    &&& outer.children@.skip(1) == element_nodes(s[1]) + element_nodes(s[0])
}

/// Right-nested reduction of a two-operator chain: the second operator's
/// node is the first's right operand, as a right-associative chain parses.
pub open spec fn right_nested_result(r: Seq<Node>, s: Seq<PrattElement>) -> bool {
    &&& r.len() == 1
    &&& r[0] matches Node::Rule(outer)
    &&& outer.kind == element_op_kind(s[3])
    &&& outer.children@.len() == element_nodes(s[4]).len() + element_nodes(s[3]).len() + 1
    &&& outer.children@.take(outer.children@.len() - 1) == element_nodes(s[4])
        + element_nodes(s[3])
    &&& outer.children@.last() matches Node::Rule(inner)
    &&& inner.kind == element_op_kind(s[1])
    &&& inner.children@ == element_nodes(s[2]) + element_nodes(s[1]) + element_nodes(s[0])
}

/// Elements, in source order, of a two-operator binary chain:
/// operand, operator, operand, operator, operand.
pub open spec fn chain_elements(s: Seq<PrattElement>) -> bool {
    &&& s.len() == 5
    &&& s[0] is Expression
    &&& s[1] is Binary
    &&& s[2] is Expression
    &&& s[3] is Binary
    &&& s[4] is Expression
}

/// Chained occurrences of one operator nest by its associativity: with the
/// declaration-order encoding, a left-associative operator asks strictly
/// more of its right operand than it offers (right power = left + 1), so an
/// equal operator to the right does not bind and the chain nests left; a
/// right-associative operator asks exactly what it offers (right = left),
/// so the equal operator binds first and the chain nests right.
pub proof fn lemma_chain_same_operator(s: Seq<PrattElement>)
    requires
        chain_elements(s),
        element_left(s[3]) == element_left(s[1]),
    ensures
        element_right(s[1]) == element_left(s[1]) + 1 ==> element_left(s[3]) < element_right(
            s[1],
        ),
        element_right(s[1]) == element_left(s[1]) ==> element_left(s[3]) >= element_right(
            s[1],
        ),
{
}

/// Precedence climbing over an already-collected element list.
pub struct PrecedenceHelper;

impl PrecedenceHelper {
    /// Reduces a flat pratt element list into operand nodes: a nesting of
    /// operator-specific rule nodes, bottoming out in primary expressions.
    /// Earlier-declared operators carry higher binding powers, which is the
    /// sole source of precedence. The produced nodes cover exactly the text
    /// of the elements, in order.
    #[verifier::loop_isolation(false)]
    pub fn reduce_precedence_result(elements: Vec<PrattElement>) -> (r: Vec<Node>)
        requires
            elements_wf(elements@),
            utf8_len(elements_text(elements@)) <= usize::MAX,
            utf16_len(elements_text(elements@)) <= usize::MAX,
            elements_text(elements@).len() <= usize::MAX,
        ensures
            nodes_wf(r@),
            nodes_text(r@) == elements_text(elements@),
            (elements@.len() == 1 && elements@[0] is Expression) ==> r@ == element_nodes(
                elements@[0],
            ),
            (elements@.len() == 3 && elements@[0] is Expression && elements@[1] is Binary
                && elements@[2] is Expression) ==> ({
                // one binary operator: its node wraps left operand, operator
                // and right operand, in order, under the operator's kind
                &&& r@.len() == 1
                &&& r@[0] matches Node::Rule(rn)
                &&& rn.kind == element_op_kind(elements@[1])
                &&& rn.children@ == element_nodes(elements@[0]) + element_nodes(elements@[1])
                    + element_nodes(elements@[2])
            }),
            (chain_elements(elements@) && element_left(elements@[3]) >= element_right(
                elements@[1],
            )) ==> ({
                // the second operator asks no more than the first offers its
                // right operand, so the chain nests to the right, as a
                // right-associative pair of equal declared precedence does
                &&& r@.len() == 1
                &&& r@[0] matches Node::Rule(outer)
                &&& outer.kind == element_op_kind(elements@[1])
                &&& outer.children@.len() == element_nodes(elements@[0]).len()
                    + element_nodes(elements@[1]).len() + 1
                &&& outer.children@.take(outer.children@.len() - 1) == element_nodes(
                    elements@[0],
                ) + element_nodes(elements@[1])
                &&& outer.children@.last() matches Node::Rule(inner)
                &&& inner.kind == element_op_kind(elements@[3])
                &&& inner.children@ == element_nodes(elements@[2]) + element_nodes(
                    elements@[3],
                ) + element_nodes(elements@[4])
            }),
            (chain_elements(elements@) && element_left(elements@[3]) < element_right(
                elements@[1],
            )) ==> ({
                // the second operator asks more than the first offers, so the
                // chain nests to the left, as a left-associative pair of
                // equal declared precedence does
                &&& r@.len() == 1
                &&& r@[0] matches Node::Rule(outer)
                &&& outer.kind == element_op_kind(elements@[3])
                &&& outer.children@.len() == 1 + element_nodes(elements@[3]).len()
                    + element_nodes(elements@[4]).len()
                &&& outer.children@[0] matches Node::Rule(inner)
                &&& inner.kind == element_op_kind(elements@[1])
                &&& inner.children@ == element_nodes(elements@[0]) + element_nodes(
                    elements@[1],
                ) + element_nodes(elements@[2])
                &&& outer.children@.skip(1) == element_nodes(elements@[3]) + element_nodes(
                    elements@[4],
                )
            }),
    {
        let ghost total = elements_text(elements@);
        let ghost case_single = elements@.len() == 1 && elements@[0] is Expression;
        let ghost case_binary = elements@.len() == 3 && elements@[0] is Expression
            && elements@[1] is Binary && elements@[2] is Expression;
        let ghost case_right = chain_elements(elements@) && element_left(elements@[3])
            >= element_right(elements@[1]);
        let ghost case_left = chain_elements(elements@) && element_left(elements@[3])
            < element_right(elements@[1]);
        let mut stack = Self::reversed(elements);
        let ghost rev0 = stack@;
        let mut result: Vec<Node> = Vec::new();
        proof {
            assert(Seq::<char>::empty() + stack_text(stack@) =~= stack_text(stack@));
        }
        while stack.len() > 0
            invariant
                elements_wf(stack@),
                nodes_wf(result@),
                nodes_text(result@) + stack_text(stack@) == total,
                utf8_len(total) <= usize::MAX,
                utf16_len(total) <= usize::MAX,
                total.len() <= usize::MAX,
                case_single ==> ({
                    ||| (stack@ == rev0 && result@.len() == 0)
                    ||| (stack@.len() == 0 && result@ == element_nodes(elements@[0]))
                }),
                case_binary ==> ({
                    ||| (stack@ == rev0 && result@.len() == 0)
                    ||| (stack@.len() == 0 && lone_binary_result(result@, rev0))
                }),
                case_right ==> ({
                    ||| (stack@ == rev0 && result@.len() == 0)
                    ||| (stack@.len() == 0 && right_nested_result(result@, rev0))
                }),
                case_left ==> ({
                    ||| (stack@ == rev0 && result@.len() == 0)
                    ||| (stack@.len() == 0 && left_nested_result(result@, rev0))
                }),
            decreases stack@.len(),
        {
            let ghost before = stack@;
            proof {
                assert(nodes_text(result@) + stack_text(stack@) == total);
                Self::lemma_chunk_bounds(nodes_text(result@), stack_text(stack@));
                if case_single {
                    assert(rev0[0] == elements@[0]);
                }
                if case_binary {
                    assert(rev0[0] == elements@[2] && rev0[1] == elements@[1] && rev0[2]
                        == elements@[0]);
                    assert(lone_binary_stack(rev0));
                }
                if case_right || case_left {
                    assert(rev0[0] == elements@[4] && rev0[1] == elements@[3] && rev0[2]
                        == elements@[2] && rev0[3] == elements@[1] && rev0[4]
                        == elements@[0]);
                    assert(chain_binary_stack(rev0));
                }
            }
            let ghost rv = result@;
            let (mut nodes, rest) = Self::climb(stack, 0);
            stack = rest;
            proof {
                lemma_nodes_text_concat(result@, nodes@);
                lemma_nodes_wf_concat(result@, nodes@);
                assert((nodes_text(result@) + nodes_text(nodes@)) + stack_text(stack@)
                    =~= nodes_text(result@) + (nodes_text(nodes@) + stack_text(stack@)));
            }
            let ghost nv = nodes@;
            result.append(&mut nodes);
            proof {
                if case_single || case_binary {
                    assert(result@ =~= nv);
                }
            }
        }
        proof {
            if case_binary {
                assert(rev0[0] == elements@[2] && rev0[1] == elements@[1] && rev0[2]
                    == elements@[0]);
            }
            if case_right || case_left {
                assert(rev0[0] == elements@[4] && rev0[1] == elements@[3] && rev0[2]
                    == elements@[2] && rev0[3] == elements@[1] && rev0[4] == elements@[0]);
            }
        }
        proof {
            assert(stack_text(stack@) == Seq::<char>::empty());
            assert(nodes_text(result@) + Seq::<char>::empty() =~= nodes_text(result@));
        }
        result
    }

    /// Reverses the element list so the next element sits at the vector's
    /// end, where it can be popped cheaply.
    fn reversed(elements: Vec<PrattElement>) -> (r: Vec<PrattElement>)
        requires
            elements_wf(elements@),
        ensures
            elements_wf(r@),
            stack_text(r@) == elements_text(elements@),
            r@.len() == elements@.len(),
            forall|j: int|
                0 <= j < r@.len() ==> #[trigger] r@[j] == elements@[elements@.len() - 1 - j],
    {
        let ghost orig = elements@;
        let mut elements = elements;
        let mut r: Vec<PrattElement> = Vec::new();
        proof {
            assert(stack_text(r@) == Seq::<char>::empty());
            assert(elements_text(elements@) + Seq::<char>::empty() =~= elements_text(
                elements@,
            ));
        }
        while elements.len() > 0
            invariant
                elements_wf(elements@),
                elements_wf(r@),
                elements_text(elements@) + stack_text(r@) == elements_text(orig),
                r@.len() + elements@.len() == orig.len(),
                elements@ == orig.take(elements@.len() as int),
                forall|j: int|
                    0 <= j < r@.len() ==> #[trigger] r@[j] == orig[orig.len() - 1 - j],
            decreases elements@.len(),
        {
            let ghost ev = elements@;
            proof {
                lemma_elements_text_drop_last(ev);
            }
            let e = match elements.pop() {
                Some(e) => e,
                None => unreached(),
            };
            proof {
                assert(elements@ =~= orig.take(elements@.len() as int));
                assert(ev[ev.len() - 1] == orig[ev.len() - 1]);
            }
            let ghost rv = r@;
            let ghost eval = e;
            r.push(e);
            proof {
                lemma_stack_text_push(rv, eval);
                crate::parser_result::lemma_elements_wf_push(rv, eval);
                assert((elements_text(ev.drop_last()) + element_text(eval)) + stack_text(rv)
                    =~= elements_text(ev.drop_last()) + (element_text(eval) + stack_text(
                    rv,
                )));
            }
        }
        proof {
            assert(elements_text(elements@) == Seq::<char>::empty());
            assert(Seq::<char>::empty() + stack_text(r@) =~= stack_text(r@));
        }
        r
    }

    /// One climb: takes an operand (or prefix chain) off the stack, then
    /// greedily applies postfix and binary operators whose left binding
    /// power meets the threshold; a right-associative operator recurses with
    /// its own power, a left-associative one with power + 1 (encoded in the
    /// element's stored powers). Running out of qualifying operators is not
    /// an error: the expression simply ends.
    #[verifier::loop_isolation(false)]
    #[verifier::rlimit(60)]
    fn climb(stack: Vec<PrattElement>, min_bp: u8) -> (r: (Vec<Node>, Vec<PrattElement>))
        requires
            elements_wf(stack@),
            utf8_len(stack_text(stack@)) <= usize::MAX,
            utf16_len(stack_text(stack@)) <= usize::MAX,
            stack_text(stack@).len() <= usize::MAX,
        ensures
            elements_wf(r.1@),
            nodes_wf(r.0@),
            nodes_text(r.0@) + stack_text(r.1@) == stack_text(stack@),
            r.1@.len() <= stack@.len(),
            stack@.len() > 0 ==> r.1@.len() < stack@.len(),
            (stack@.len() == 1 && stack@[0] is Expression) ==> (r.0@ == element_nodes(
                stack@[0],
            ) && r.1@.len() == 0),
            (lone_binary_stack(stack@) && element_left(stack@[1]) >= min_bp) ==> (
            lone_binary_result(r.0@, stack@) && r.1@.len() == 0),
            (stack@.len() >= 2 && stack@.last() is Expression && stack@[stack@.len() - 2]
                is Binary && element_left(stack@[stack@.len() - 2]) < min_bp) ==> (r.0@
                == element_nodes(stack@.last()) && r.1@ == stack@.drop_last()),
            (chain_binary_stack(stack@) && element_left(stack@[3]) >= min_bp && element_left(
                stack@[1],
            ) >= element_right(stack@[3])) ==> (right_nested_result(r.0@, stack@)
                && r.1@.len() == 0),
            (chain_binary_stack(stack@) && element_left(stack@[3]) >= min_bp && element_left(
                stack@[1],
            ) >= min_bp && element_left(stack@[1]) < element_right(stack@[3])) ==> (
            left_nested_result(r.0@, stack@) && r.1@.len() == 0),
        decreases stack@.len(),
    {
        let ghost total = stack_text(stack@);
        let ghost sv = stack@;
        let ghost case_single = sv.len() == 1 && sv[0] is Expression;
        let ghost case_binary = lone_binary_stack(sv) && element_left(sv[1]) >= min_bp;
        let ghost case_stop = sv.len() >= 2 && sv.last() is Expression && sv[sv.len() - 2]
            is Binary && element_left(sv[sv.len() - 2]) < min_bp;
        let ghost case_right = chain_binary_stack(sv) && element_left(sv[3]) >= min_bp
            && element_left(sv[1]) >= element_right(sv[3]);
        let ghost case_left = chain_binary_stack(sv) && element_left(sv[3]) >= min_bp
            && element_left(sv[1]) >= min_bp && element_left(sv[1]) < element_right(sv[3]);
        let mut stack = stack;
        let mut lhs: Vec<Node>;
        proof {
            if sv.len() > 0 {
                lemma_stack_wf_drop_last(sv);
            }
        }
        match stack.pop() {
            None => {
                let r: Vec<Node> = Vec::new();
                proof {
                    assert(nodes_text(r@) + stack_text(stack@) =~= stack_text(stack@));
                }
                return (r, stack);
            }
            Some(PrattElement::Expression { nodes }) => {
                proof {
                    assert(stack@ =~= sv.drop_last());
                    if case_single {
                        assert(sv.last() == sv[0]);
                    }
                    if case_binary {
                        assert(sv.last() == sv[2]);
                        assert(stack@ =~= sv.take(2));
                    }
                    if case_right || case_left {
                        assert(sv.last() == sv[4]);
                        assert(stack@ =~= sv.take(4));
                    }
                }
                lhs = nodes;
            }
            Some(PrattElement::Prefix { kind, nodes, right }) => {
                let ghost opnodes = nodes@;
                proof {
                    assert(stack@ =~= sv.drop_last());
                    assert(element_text(sv.last()) == nodes_text(opnodes));
                    assert(nodes_text(opnodes) + stack_text(stack@) == total);
                    Self::lemma_chunk_bounds(nodes_text(opnodes), stack_text(stack@));
                }
                let (operand, rest) = Self::climb(stack, right);
                let ghost restv = rest@;
                stack = rest;
                let mut children = nodes;
                proof {
                    lemma_nodes_text_concat(opnodes, operand@);
                    lemma_nodes_wf_concat(opnodes, operand@);
                    assert(nodes_text(opnodes) + (nodes_text(operand@) + stack_text(restv))
                        =~= (nodes_text(opnodes) + nodes_text(operand@)) + stack_text(restv));
                    assert((nodes_text(opnodes) + nodes_text(operand@)) + stack_text(restv)
                        == total);
                    Self::lemma_chunk_bounds(
                        nodes_text(opnodes) + nodes_text(operand@),
                        stack_text(restv),
                    );
                }
                let mut operand = operand;
                children.append(&mut operand);
                lhs = wrap_operator(kind, children);
            }
            // A binary or postfix element in operand position is a grammar
            // typing fault; its nodes are kept as a plain operand so that no
            // text is lost.
            Some(PrattElement::Binary { nodes, .. }) => {
                proof {
                    assert(stack@ =~= sv.drop_last());
                }
                lhs = nodes;
            }
            Some(PrattElement::Postfix { nodes, .. }) => {
                proof {
                    assert(stack@ =~= sv.drop_last());
                }
                lhs = nodes;
            }
        }
        loop
            invariant
                elements_wf(stack@),
                nodes_wf(lhs@),
                nodes_text(lhs@) + stack_text(stack@) == total,
                utf8_len(total) <= usize::MAX,
                utf16_len(total) <= usize::MAX,
                total.len() <= usize::MAX,
                stack@.len() < sv.len(),
                case_single ==> (stack@.len() == 0 && lhs@ == element_nodes(sv[0])),
                case_binary ==> ({
                    ||| (stack@ == sv.take(2) && lhs@ == element_nodes(sv[2]))
                    ||| (stack@.len() == 0 && lone_binary_result(lhs@, sv))
                }),
                case_stop ==> (stack@ == sv.drop_last() && lhs@ == element_nodes(sv.last())),
                case_right ==> ({
                    ||| (stack@ == sv.take(4) && lhs@ == element_nodes(sv[4]))
                    ||| (stack@.len() == 0 && right_nested_result(lhs@, sv))
                }),
                case_left ==> ({
                    ||| (stack@ == sv.take(4) && lhs@ == element_nodes(sv[4]))
                    ||| ({
                        &&& stack@ == sv.take(2)
                        &&& lhs@.len() == 1
                        &&& lhs@[0] matches Node::Rule(inner)
                        &&& inner.kind == element_op_kind(sv[3])
                        &&& inner.children@ == element_nodes(sv[4]) + element_nodes(sv[3])
                            + element_nodes(sv[2])
                    })
                    ||| (stack@.len() == 0 && left_nested_result(lhs@, sv))
                }),
            decreases stack@.len(),
        {
            let ghost loop_sv = stack@;
            let ghost lv = lhs@;
            proof {
                if loop_sv.len() > 0 {
                    lemma_stack_wf_drop_last(loop_sv);
                }
            }
            match stack.pop() {
                None => {
                    break ;
                }
                Some(PrattElement::Postfix { kind, nodes, left }) => {
                    if left >= min_bp {
                        let ghost opnodes = nodes@;
                        let mut children = lhs;
                        let mut nodes = nodes;
                        proof {
                            assert(stack@ =~= loop_sv.drop_last());
                            assert(element_text(loop_sv.last()) == nodes_text(opnodes));
                            lemma_nodes_text_concat(lv, opnodes);
                            lemma_nodes_wf_concat(lv, opnodes);
                            assert(nodes_text(lv) + (nodes_text(opnodes) + stack_text(stack@))
                                =~= (nodes_text(lv) + nodes_text(opnodes)) + stack_text(
                                stack@,
                            ));
                            assert((nodes_text(lv) + nodes_text(opnodes)) + stack_text(stack@)
                                == total);
                            Self::lemma_chunk_bounds(
                                nodes_text(lv) + nodes_text(opnodes),
                                stack_text(stack@),
                            );
                        }
                        children.append(&mut nodes);
                        lhs = wrap_operator(kind, children);
                    } else {
                        stack.push(PrattElement::Postfix { kind, nodes, left });
                        proof {
                            assert(stack@.drop_last() =~= loop_sv.drop_last());
                            lemma_stack_text_push(loop_sv.drop_last(), stack@.last());
                            crate::parser_result::lemma_elements_wf_push(
                                loop_sv.drop_last(),
                                stack@.last(),
                            );
                            assert(stack@ =~= loop_sv.drop_last().push(stack@.last()));
                        }
                        break ;
                    }
                }
                Some(PrattElement::Binary { kind, nodes, left, right }) => {
                    if left >= min_bp {
                        let ghost opnodes = nodes@;
                        proof {
                            assert(stack@ =~= loop_sv.drop_last());
                            assert(element_text(loop_sv.last()) == nodes_text(opnodes));
                            assert(nodes_text(lv) + (nodes_text(opnodes) + stack_text(stack@))
                                == total);
                            lemma_utf8_len_bounds(nodes_text(lv));
                            lemma_utf16_len_bounds(nodes_text(lv));
                            lemma_utf8_len_concat(
                                nodes_text(lv),
                                nodes_text(opnodes) + stack_text(stack@),
                            );
                            lemma_utf16_len_concat(
                                nodes_text(lv),
                                nodes_text(opnodes) + stack_text(stack@),
                            );
                            Self::lemma_chunk_bounds(nodes_text(opnodes), stack_text(stack@));
                            if case_binary {
                                // only the lone-operator shape reaches here with
                                // two elements left: the operand below is next
                                assert(loop_sv == sv.take(2));
                                assert(loop_sv.last() == sv[1]);
                                assert(stack@ =~= sv.take(1));
                                assert(sv.take(1)[0] == sv[0]);
                                assert(stack@.len() == 1 && stack@[0] is Expression);
                            }
                            if case_right || case_left {
                                if loop_sv == sv.take(4) {
                                    assert(loop_sv.last() == sv[3]);
                                    assert(stack@ =~= sv.take(3));
                                    assert(sv.take(3)[0] == sv[0] && sv.take(3)[1] == sv[1]
                                        && sv.take(3)[2] == sv[2]);
                                    assert(lone_binary_stack(sv.take(3)));
                                }
                            }
                            if case_left {
                                if loop_sv == sv.take(2) {
                                    assert(loop_sv.last() == sv[1]);
                                    assert(stack@ =~= sv.take(1));
                                    assert(sv.take(1)[0] == sv[0]);
                                    assert(stack@.len() == 1 && stack@[0] is Expression);
                                }
                            }
                        }
                        let (rhs, rest) = Self::climb(stack, right);
                        let ghost restv = rest@;
                        let ghost rhsv = rhs@;
                        stack = rest;
                        let mut children = lhs;
                        let mut nodes = nodes;
                        proof {
                            lemma_nodes_text_concat(lv, opnodes);
                            lemma_nodes_wf_concat(lv, opnodes);
                            lemma_nodes_text_concat(lv + opnodes, rhsv);
                            lemma_nodes_wf_concat(lv + opnodes, rhsv);
                            assert(nodes_text(lv + opnodes) =~= nodes_text(lv) + nodes_text(
                                opnodes,
                            ));
                            assert(nodes_text(lv) + (nodes_text(opnodes) + (nodes_text(rhsv)
                                + stack_text(restv))) =~= (nodes_text(lv + opnodes)
                                + nodes_text(rhsv)) + stack_text(restv));
                            assert((nodes_text(lv + opnodes) + nodes_text(rhsv)) + stack_text(
                                restv,
                            ) == total);
                            Self::lemma_chunk_bounds(
                                nodes_text(lv + opnodes) + nodes_text(rhsv),
                                stack_text(restv),
                            );
                        }
                        children.append(&mut nodes);
                        let mut rhs = rhs;
                        children.append(&mut rhs);
                        proof {
                            assert(children@ =~= (lv + opnodes) + rhsv);
                            if case_binary {
                                assert(loop_sv.last() == sv[1]);
                                assert(opnodes == element_nodes(sv[1]));
                                assert(kind == element_op_kind(sv[1]));
                                assert(rhsv == element_nodes(sv[0]));
                                assert(children@ =~= element_nodes(sv[2]) + element_nodes(
                                    sv[1],
                                ) + element_nodes(sv[0]));
                            }
                            if case_right && loop_sv == sv.take(4) {
                                // the inner operator bound at least as tightly,
                                // so the recursion folded the rest of the chain
                                assert(kind == element_op_kind(sv[3]));
                                assert(opnodes == element_nodes(sv[3]));
                                assert(lone_binary_result(rhsv, sv.take(3)));
                                assert(children@.take(children@.len() - 1) =~= element_nodes(
                                    sv[4],
                                ) + element_nodes(sv[3]));
                                assert(children@.last() == rhsv[0]);
                            }
                            if case_left && loop_sv == sv.take(4) {
                                // the inner operator asked for more than the
                                // next one offers, so the recursion stopped at
                                // the middle operand
                                assert(kind == element_op_kind(sv[3]));
                                assert(opnodes == element_nodes(sv[3]));
                                assert(rhsv == element_nodes(sv[2]));
                                assert(restv =~= sv.take(2));
                                assert(children@ =~= element_nodes(sv[4]) + element_nodes(
                                    sv[3],
                                ) + element_nodes(sv[2]));
                            }
                            if case_left && loop_sv == sv.take(2) {
                                assert(kind == element_op_kind(sv[1]));
                                assert(opnodes == element_nodes(sv[1]));
                                assert(rhsv == element_nodes(sv[0]));
                                assert(children@.len() == 1 + element_nodes(sv[1]).len()
                                    + element_nodes(sv[0]).len());
                                assert(children@[0] == lv[0]);
                                assert(children@.skip(1) =~= element_nodes(sv[1])
                                    + element_nodes(sv[0]));
                            }
                        }
                        lhs = wrap_operator(kind, children);
                    } else {
                        stack.push(PrattElement::Binary { kind, nodes, left, right });
                        proof {
                            assert(stack@.drop_last() =~= loop_sv.drop_last());
                            lemma_stack_text_push(loop_sv.drop_last(), stack@.last());
                            crate::parser_result::lemma_elements_wf_push(
                                loop_sv.drop_last(),
                                stack@.last(),
                            );
                            assert(stack@ =~= loop_sv.drop_last().push(stack@.last()));
                        }
                        break ;
                    }
                }
                Some(PrattElement::Expression { nodes }) => {
                    // Two operands in a row: a grammar typing fault. Leave
                    // the element for the caller rather than lose its text.
                    stack.push(PrattElement::Expression { nodes });
                    proof {
                        assert(stack@.drop_last() =~= loop_sv.drop_last());
                        lemma_stack_text_push(loop_sv.drop_last(), stack@.last());
                        crate::parser_result::lemma_elements_wf_push(
                            loop_sv.drop_last(),
                            stack@.last(),
                        );
                        assert(stack@ =~= loop_sv.drop_last().push(stack@.last()));
                    }
                    break ;
                }
                Some(PrattElement::Prefix { kind, nodes, right }) => {
                    stack.push(PrattElement::Prefix { kind, nodes, right });
                    proof {
                        assert(stack@.drop_last() =~= loop_sv.drop_last());
                        lemma_stack_text_push(loop_sv.drop_last(), stack@.last());
                        crate::parser_result::lemma_elements_wf_push(
                            loop_sv.drop_last(),
                            stack@.last(),
                        );
                        assert(stack@ =~= loop_sv.drop_last().push(stack@.last()));
                    }
                    break ;
                }
            }
        }
        (lhs, stack)
    }

    /// Splitting a bounded text leaves both chunks bounded.
    proof fn lemma_chunk_bounds(a: Seq<char>, b: Seq<char>)
        requires
            utf8_len(a + b) <= usize::MAX,
            utf16_len(a + b) <= usize::MAX,
            (a + b).len() <= usize::MAX,
        ensures
            utf8_len(a) <= usize::MAX,
            utf16_len(a) <= usize::MAX,
            a.len() <= usize::MAX,
            utf8_len(b) <= usize::MAX,
            utf16_len(b) <= usize::MAX,
            b.len() <= usize::MAX,
    {
        lemma_utf8_len_concat(a, b);
        lemma_utf16_len_concat(a, b);
        lemma_utf8_len_bounds(a);
        lemma_utf16_len_bounds(a);
        lemma_utf8_len_bounds(b);
        lemma_utf16_len_bounds(b);
    }
}

} // verus!
