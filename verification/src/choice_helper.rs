use vstd::prelude::*;

use crate::parser_result::{non_error_utf8, result_text, result_wf, ParserResult};
use crate::stream::Stream;
use crate::text_index::TextIndex;

verus! {

/// Exactly how a choice picks between the result it holds and one more
/// alternative: a full match wins outright; between two incomplete matches
/// the one covering strictly more matched bytes (error-node text excluded)
/// wins; two no-matches merge their recovery hints.
pub open spec fn choice_step_ok(r0: ParserResult, next: ParserResult, r1: ParserResult) -> bool {
    match r0 {
        ParserResult::Match(_) => r1 == r0,
        ParserResult::PrattOperatorMatch(_) => r1 == r0,
        ParserResult::IncompleteMatch(c0) => match next {
            ParserResult::Match(_) => r1 == next,
            ParserResult::PrattOperatorMatch(_) => r1 == next,
            ParserResult::IncompleteMatch(n) => {
                if non_error_utf8(n.nodes@) > non_error_utf8(c0.nodes@) {
                    r1 == next
                } else {
                    r1 == r0
                }
            },
            ParserResult::NoMatch(_) => r1 == r0,
        },
        ParserResult::NoMatch(c0) => match next {
            ParserResult::NoMatch(n) => {
                &&& r1 matches ParserResult::NoMatch(f)
                &&& f.expected_tokens@ == c0.expected_tokens@ + n.expected_tokens@
            },
            _ => r1 == next,
        },
    }
}

/// Starting from a saved position, tries alternatives in declaration order
/// and keeps the best result seen: a full match if one appears (first full
/// match wins and stops the choice), otherwise the furthest-reaching
/// incomplete match, otherwise a no-match carrying every alternative's hint.
pub struct ChoiceHelper {
    result: ParserResult,
    start_position: TextIndex,
}

impl ChoiceHelper {
    pub closed spec fn state(&self) -> ParserResult {
        self.result
    }

    pub closed spec fn start(&self) -> TextIndex {
        self.start_position
    }

    /// The saved start is a real position of this stream.
    pub open spec fn valid_for(&self, stream: &Stream) -> bool {
        stream.valid_position(self.start())
    }

    pub fn new(stream: &mut Stream) -> (r: ChoiceHelper)
        requires
            old(stream).wf(),
        ensures
            *final(stream) == *old(stream),
            r.state() matches ParserResult::NoMatch(m) && m.expected_tokens@ == Seq::<
                crate::kinds::TokenKind,
            >::empty(),
            r.start() == old(stream).pos_index(),
            r.valid_for(old(stream)),
    {
        ChoiceHelper {
            result: ParserResult::no_match(Vec::new()),
            start_position: stream.position(),
        }
    }

    /// Whether the choice has settled on a full match.
    pub fn is_done(&self) -> (r: bool)
        ensures
            r == (self.state() is Match || self.state() is PrattOperatorMatch),
    {
        match &self.result {
            ParserResult::Match(_) | ParserResult::PrattOperatorMatch(_) => true,
            _ => false,
        }
    }

    /// Accumulates one alternative's result, keeping the better of it and the
    /// running result. Restores the stream to the choice's start for the next
    /// alternative unless a full match ended the choice.
    pub fn handle_next_result(&mut self, stream: &mut Stream, next: ParserResult) -> (done:
        bool)
        requires
            old(stream).wf(),
            old(self).valid_for(old(stream)),
            result_wf(old(self).state()),
            result_wf(next),
            crate::text_index::utf8_len(result_text(old(self).state())) <= usize::MAX,
            crate::text_index::utf8_len(result_text(next)) <= usize::MAX,
        ensures
            crate::text_index::utf8_len(result_text(final(self).state())) <= usize::MAX,
            final(stream).wf(),
            final(stream).text() == old(stream).text(),
            final(self).start() == old(self).start(),
            final(self).valid_for(final(stream)),
            result_wf(final(self).state()),
            done == (final(self).state() is Match || final(self).state()
                is PrattOperatorMatch),
            choice_step_ok(old(self).state(), next, final(self).state()),
            (old(self).state() is Match || old(self).state() is PrattOperatorMatch) ==> (
            *final(stream) == *old(stream)),
            done && !(old(self).state() is Match || old(self).state()
                is PrattOperatorMatch) ==> *final(stream) == *old(stream),
            !done ==> final(stream).pos_index() == old(self).start(),
    {
        let done_already = self.is_done();
        if done_already {
            return true;
        }
        let take_next: bool = match (&self.result, &next) {
            (ParserResult::IncompleteMatch(c0), ParserResult::IncompleteMatch(n)) => {
                proof {
                    crate::parser_result::lemma_non_error_utf8_bounds(c0.nodes@);
                    crate::parser_result::lemma_non_error_utf8_bounds(n.nodes@);
                }
                n.matching_byte_len() > c0.matching_byte_len()
            }
            (ParserResult::IncompleteMatch(_), ParserResult::Match(_)) => true,
            (ParserResult::IncompleteMatch(_), ParserResult::PrattOperatorMatch(_)) => true,
            (ParserResult::IncompleteMatch(_), ParserResult::NoMatch(_)) => false,
            (ParserResult::NoMatch(_), ParserResult::NoMatch(_)) => false,
            (ParserResult::NoMatch(_), _) => true,
            _ => false,
        };
        if take_next {
            self.result = next;
        } else if let (ParserResult::NoMatch(c0), ParserResult::NoMatch(n)) = (
            &mut self.result,
            next,
        ) {
            let mut n_expected = n.expected_tokens;
            c0.expected_tokens.append(&mut n_expected);
        }
        let done = self.is_done();
        if !done {
            stream.set_position(self.start_position);
        }
        done
    }

    /// The winning result. When it is an incomplete match the stream is
    /// advanced to cover exactly the text the winner matched, since other
    /// alternatives were tried after it and moved the position back.
    pub fn result(self, stream: &mut Stream) -> (r: ParserResult)
        requires
            old(stream).wf(),
            result_wf(self.state()),
            self.state() is IncompleteMatch ==> old(stream).pos() + result_text(
                self.state(),
            ).len() <= old(stream).text().len(),
        ensures
            final(stream).wf(),
            final(stream).text() == old(stream).text(),
            r == self.state(),
            self.state() is IncompleteMatch ==> final(stream).pos() == old(stream).pos()
                + result_text(self.state()).len(),
            !(self.state() is IncompleteMatch) ==> *final(stream) == *old(stream),
    {
        if let ParserResult::IncompleteMatch(incomplete_match) = &self.result {
            incomplete_match.consume_stream(stream);
        }
        self.result
    }
}

/// A full match among the alternatives wins outright, whatever the running
/// (non-full) result of the previously tried alternatives was.
pub proof fn lemma_choice_full_match_wins(r0: ParserResult, next: ParserResult, r1: ParserResult)
    requires
        choice_step_ok(r0, next, r1),
        !(r0 is Match || r0 is PrattOperatorMatch),
        next is Match || next is PrattOperatorMatch,
    ensures
        r1 == next,
{
}

/// Between two incomplete alternatives, the one covering strictly more
/// matched bytes (error-node text excluded) is kept; otherwise the earlier
/// one stands.
pub proof fn lemma_choice_furthest_progress(
    r0: ParserResult,
    next: ParserResult,
    r1: ParserResult,
)
    requires
        choice_step_ok(r0, next, r1),
        r0 is IncompleteMatch,
        next is IncompleteMatch,
    ensures
        non_error_utf8(result_nodes(next)) > non_error_utf8(result_nodes(r0)) ==> r1 == next,
        non_error_utf8(result_nodes(next)) <= non_error_utf8(result_nodes(r0)) ==> r1 == r0,
{
}

/// The nodes a result carries, for stating progress comparisons.
pub open spec fn result_nodes(r: ParserResult) -> Seq<crate::cst::Node> {
    match r {
        ParserResult::Match(m) => m.nodes@,
        ParserResult::IncompleteMatch(m) => m.nodes@,
        _ => Seq::<crate::cst::Node>::empty(),
    }
}

} // verus!
