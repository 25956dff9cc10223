use vstd::prelude::*;

use crate::cst::{lemma_nodes_text_push, lemma_nodes_wf_push, nodes_text, Node};
use crate::grammar::{language_wf, Language};
use crate::kinds::{copy_kinds, TokenKind};
use crate::parser_result::{result_expected, result_text, result_wf, ParserResult};
use crate::stream::Stream;

verus! {

/// Greedily consumes tokens from the current position, classifying each by
/// the context's registered delimiters: an opener pushes its closer, the
/// matching closer pops, and at nesting depth zero the target token or any
/// other registered closer ends the skip, positioned just before it (so a
/// sibling construct's terminator is never swallowed). Unrecognizable text
/// is skipped one character at a time; end of input also ends the skip.
/// Returns whether the skip stopped at the target token.
#[verifier::loop_isolation(false)]
pub fn skip_until_recovery_point(
    lang: &Language,
    ctx: usize,
    target: TokenKind,
    stream: &mut Stream,
) -> (found: bool)
    requires
        language_wf(*lang),
        ctx < lang.contexts@.len(),
        old(stream).wf(),
    ensures
        final(stream).wf(),
        final(stream).text() == old(stream).text(),
        final(stream).pos() >= old(stream).pos(),
        found ==> final(stream).pos() < final(stream).text().len(),
{
    let mut nesting: Vec<TokenKind> = Vec::new();
    loop
        invariant
            stream.wf(),
            stream.text() == old(stream).text(),
            stream.pos() >= old(stream).pos(),
        decreases stream.text().len() - stream.pos(),
    {
        let save = stream.position();
        match lang.next_token(ctx, stream) {
            Some(k) => {
                let lex = &lang.contexts[ctx];
                let mut is_closer = false;
                let mut opener_close: Option<TokenKind> = None;
                let mut i: usize = 0;
                while i < lex.delimiters.len()
                    invariant
                        stream.wf(),
                    decreases lex.delimiters@.len() - i,
                {
                    if lex.delimiters[i].close == k {
                        is_closer = true;
                    }
                    if lex.delimiters[i].open == k {
                        opener_close = Some(lex.delimiters[i].close);
                    }
                    i = i + 1;
                }
                if nesting.len() == 0 && (k == target || is_closer) {
                    // stop just before the recognized stopping token; it is
                    // not consumed, so the caller can still match it
                    stream.set_position(save);
                    return k == target;
                }
                if nesting.len() > 0 && *nesting.last().unwrap() == k {
                    let _ = nesting.pop();
                } else {
                    match opener_close {
                        Some(close) => {
                            nesting.push(close);
                        }
                        None => {}
                    }
                }
            }
            None => {
                // Nothing the lexer recognizes here: skip one raw character,
                // or stop at the end of the input.
                let c = stream.next();
                if c.is_none() {
                    return false;
                }
            }
        }
    }
}

impl ParserResult {
    /// Delimiter-aware error recovery, applied at explicit grammar points
    /// where a body's partial match must not abort the enclosing construct:
    /// the skipped text is captured into an error node appended as the last
    /// child, and the result is accepted as a `Match`, pushing the failure
    /// into the diagnostics list rather than the tree shape.
    pub fn try_recover_with(
        self,
        lang: &Language,
        ctx: usize,
        expected: TokenKind,
        stream: &mut Stream,
    ) -> (r: ParserResult)
        requires
            language_wf(*lang),
            ctx < lang.contexts@.len(),
            old(stream).wf(),
            result_wf(self),
        ensures
            final(stream).wf(),
            final(stream).text() == old(stream).text(),
            !(self is IncompleteMatch) ==> r == self && *final(stream) == *old(stream),
            self matches ParserResult::IncompleteMatch(im) ==> ({
                &&& r matches ParserResult::Match(m)
                &&& final(stream).pos() >= old(stream).pos()
                &&& m.expected_tokens@ == im.expected_tokens@
                &&& (final(stream).pos() == old(stream).pos() ==> m.nodes@ == im.nodes@)
                &&& (final(stream).pos() > old(stream).pos() ==> ({
                    // all skipped text, in one error node appended as the
                    // last child, carrying the recovery-triggering hint
                    &&& m.nodes@.len() == im.nodes@.len() + 1
                    &&& m.nodes@.take(im.nodes@.len() as int) == im.nodes@
                    &&& m.nodes@.last() matches Node::Error(e)
                    &&& e.text@ == old(stream).text().subrange(
                        old(stream).pos(),
                        final(stream).pos(),
                    )
                    &&& e.expected@ == im.expected_tokens@
                }))
                &&& result_text(r) == result_text(self) + old(stream).text().subrange(
                    old(stream).pos(),
                    final(stream).pos(),
                )
                &&& result_wf(r)
            }),
    {
        match self {
            ParserResult::IncompleteMatch(m) => {
                let mut m = m;
                let ghost text0 = nodes_text(m.nodes@);
                let ghost nv = m.nodes@;
                let skip_start = stream.position();
                let _found = skip_until_recovery_point(lang, ctx, expected, stream);
                let end = stream.position();
                if end.chars > skip_start.chars {
                    let text = stream.text_between(skip_start.chars, end.chars);
                    let hint = copy_kinds(&m.expected_tokens);
                    let node = Node::error(text, hint);
                    m.nodes.push(node);
                    proof {
                        lemma_nodes_text_push(nv, m.nodes@[nv.len() as int]);
                        lemma_nodes_wf_push(nv, m.nodes@[nv.len() as int]);
                        assert(m.nodes@.take(nv.len() as int) =~= nv);
                    }
                } else {
                    proof {
                        assert(stream.text().subrange(skip_start.chars as int, end.chars as int)
                            =~= Seq::<char>::empty());
                        assert(text0 + Seq::<char>::empty() =~= text0);
                    }
                }
                ParserResult::matched(m.nodes, m.expected_tokens)
            }
            other => other,
        }
    }
}

} // verus!
