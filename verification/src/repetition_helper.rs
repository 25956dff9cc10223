use vstd::prelude::*;

use crate::cst::{lemma_nodes_text_concat, lemma_nodes_wf_concat};
use crate::parser_result::{
    lemma_elements_text_concat, lemma_elements_wf_concat, result_expected, result_text, result_wf,
    Match, ParserResult,
};

verus! {

/// Greedy repetition: the inner parser is invoked repeatedly, full matches
/// accumulate, and the first non-full iteration ends the loop (the caller
/// restores the stream to the position before that failed iteration).
///
/// Minimum-count policy: for zero-or-more, a first-iteration failure yields
/// an empty `Match` (success with zero children) that still carries the
/// failing iteration's recovery hint; for one-or-more it propagates
/// unchanged.
pub struct RepetitionHelper;

impl RepetitionHelper {
    /// Settles the first iteration's result per the minimum-count policy.
    /// The second component says whether the loop should keep iterating.
    pub fn reduce_first(min_count: usize, first: ParserResult) -> (r: (ParserResult, bool))
        requires
            min_count <= 1,
            result_wf(first),
        ensures
            result_wf(r.0),
            (first is Match || first is PrattOperatorMatch) ==> r.0 == first && r.1 == true,
            (!(first is Match || first is PrattOperatorMatch) && min_count == 0) ==> ({
                &&& r.0 matches ParserResult::Match(m)
                &&& m.nodes@.len() == 0
                &&& m.expected_tokens@ == result_expected(first)
                &&& r.1 == false
            }),
            (!(first is Match || first is PrattOperatorMatch) && min_count == 1) ==> r.0
                == first && r.1 == false,
            result_text(r.0) == (if first is Match || first is PrattOperatorMatch {
                result_text(first)
            } else if min_count == 0 {
                Seq::<char>::empty()
            } else {
                result_text(first)
            }),
    {
        match first {
            ParserResult::Match(_) | ParserResult::PrattOperatorMatch(_) => (first, true),
            ParserResult::IncompleteMatch(m) => {
                if min_count == 0 {
                    (ParserResult::matched(Vec::new(), m.expected_tokens), false)
                } else {
                    (ParserResult::IncompleteMatch(m), false)
                }
            }
            ParserResult::NoMatch(m) => {
                if min_count == 0 {
                    (ParserResult::matched(Vec::new(), m.expected_tokens), false)
                } else {
                    (ParserResult::NoMatch(m), false)
                }
            }
        }
    }

    /// Folds one more iteration into the accumulated result. Mixing `Match`
    /// and `PrattOperatorMatch` shapes across iterations is a grammar-typing
    /// error; the loop then simply stops rather than fault.
    pub fn accumulate(accum: ParserResult, next: ParserResult) -> (r: (ParserResult, bool))
        requires
            accum is Match || accum is PrattOperatorMatch,
            result_wf(accum),
            result_wf(next),
        ensures
            result_wf(r.0),
            (accum is Match && next is Match) ==> ({
                &&& r.0 matches ParserResult::Match(f)
                &&& accum matches ParserResult::Match(a)
                &&& next matches ParserResult::Match(n)
                &&& f.nodes@ == a.nodes@ + n.nodes@
                &&& f.expected_tokens@ == n.expected_tokens@
                &&& r.1 == true
            }),
            (accum is PrattOperatorMatch && next is PrattOperatorMatch) ==> ({
                &&& r.0 matches ParserResult::PrattOperatorMatch(f)
                &&& accum matches ParserResult::PrattOperatorMatch(a)
                &&& next matches ParserResult::PrattOperatorMatch(n)
                &&& f.elements@ == a.elements@ + n.elements@
                &&& r.1 == true
            }),
            (accum is Match && (next is IncompleteMatch || next is NoMatch)) ==> ({
                &&& r.0 matches ParserResult::Match(f)
                &&& accum matches ParserResult::Match(a)
                &&& f.nodes@ == a.nodes@
                &&& f.expected_tokens@ == result_expected(next)
                &&& r.1 == false
            }),
            (accum is PrattOperatorMatch && (next is IncompleteMatch || next is NoMatch))
                ==> r.0 == accum && r.1 == false,
            r.1 == ((accum is Match && next is Match) || (accum is PrattOperatorMatch
                && next is PrattOperatorMatch)),
            result_text(r.0) == (if r.1 {
                result_text(accum) + result_text(next)
            } else {
                result_text(accum)
            }),
    {
        match (accum, next) {
            (ParserResult::Match(mut a), ParserResult::Match(mut n)) => {
                proof {
                    lemma_nodes_wf_concat(a.nodes@, n.nodes@);
                    lemma_nodes_text_concat(a.nodes@, n.nodes@);
                }
                a.nodes.append(&mut n.nodes);
                a.expected_tokens = n.expected_tokens;
                (ParserResult::Match(a), true)
            }
            (
                ParserResult::PrattOperatorMatch(mut a),
                ParserResult::PrattOperatorMatch(mut n),
            ) => {
                proof {
                    lemma_elements_wf_concat(a.elements@, n.elements@);
                    lemma_elements_text_concat(a.elements@, n.elements@);
                }
                a.elements.append(&mut n.elements);
                (ParserResult::PrattOperatorMatch(a), true)
            }
            (ParserResult::Match(mut a), ParserResult::IncompleteMatch(n)) => {
                a.expected_tokens = n.expected_tokens;
                (ParserResult::Match(a), false)
            }
            (ParserResult::Match(mut a), ParserResult::NoMatch(n)) => {
                a.expected_tokens = n.expected_tokens;
                (ParserResult::Match(a), false)
            }
            (a, _) => (a, false),
        }
    }
}

} // verus!
