use vstd::prelude::*;

use crate::text_index::{
    lemma_utf16_len_bounds, lemma_utf16_len_push, lemma_utf8_len_bounds, lemma_utf8_len_push,
    TextIndex,
};

verus! {

/// A cursor over source text with cheap save and restore: the backtracking
/// primitive. Positions are plain values, so saving one and restoring it later
/// is O(1) and needs no bookkeeping.
#[derive(Debug)]
pub struct Stream {
    text: Vec<char>,
    position: TextIndex,
}

impl Stream {
    /// The source text this stream reads.
    pub closed spec fn text(&self) -> Seq<char> {
        self.text@
    }

    /// The current position in all three indexing conventions.
    pub closed spec fn pos_index(&self) -> TextIndex {
        self.position
    }

    /// The current position, in code points.
    pub open spec fn pos(&self) -> int {
        self.pos_index().chars as int
    }

    /// A position value is valid for this stream when its three units agree
    /// on a prefix of the text.
    pub open spec fn valid_position(&self, p: TextIndex) -> bool {
        &&& p.chars <= self.text().len()
        &&& p.is_len_of(self.text().take(p.chars as int))
    }

    pub open spec fn wf(&self) -> bool {
        &&& self.text().len() <= usize::MAX / 4
        &&& self.valid_position(self.pos_index())
    }

    pub fn new(text: Vec<char>) -> (r: Stream)
        requires
            text@.len() <= usize::MAX / 4,
        ensures
            r.wf(),
            r.text() == text@,
            r.pos() == 0,
            r.pos_index().is_zero(),
    {
        proof {
            assert(text@.take(0) =~= Seq::<char>::empty());
        }
        Stream { text, position: TextIndex::zero() }
    }

    /// Code points remaining before the end of the text.
    pub fn remaining(&self) -> (n: usize)
        requires
            self.wf(),
        ensures
            n == self.text().len() - self.pos(),
    {
        self.text.len() - self.position.chars
    }

    /// Saves the current position for a later restore.
    pub fn position(&self) -> (r: TextIndex)
        ensures
            r == self.pos_index(),
    {
        self.position
    }

    /// Restores a previously observed position.
    pub fn set_position(&mut self, p: TextIndex)
        requires
            old(self).wf(),
            old(self).valid_position(p),
        ensures
            final(self).wf(),
            final(self).text() == old(self).text(),
            final(self).pos_index() == p,
            final(self).pos() == p.chars,
    {
        self.position = p;
    }

    /// The next code point without advancing.
    pub fn peek(&self) -> (r: Option<char>)
        requires
            self.wf(),
        ensures
            r == (if self.pos() < self.text().len() {
                Some(self.text()[self.pos()])
            } else {
                None::<char>
            }),
    {
        if self.position.chars < self.text.len() {
            Some(self.text[self.position.chars])
        } else {
            None
        }
    }

    /// Consumes and returns the next code point; `None` at end of input.
    pub fn next(&mut self) -> (r: Option<char>)
        requires
            old(self).wf(),
        ensures
            final(self).wf(),
            final(self).text() == old(self).text(),
            old(self).pos() < old(self).text().len() ==> {
                &&& r == Some(old(self).text()[old(self).pos()])
                &&& final(self).pos() == old(self).pos() + 1
            },
            old(self).pos() >= old(self).text().len() ==> {
                &&& r is None
                &&& *final(self) == *old(self)
            },
    {
        if self.position.chars < self.text.len() {
            let c = self.text[self.position.chars];
            proof {
                let p = self.pos();
                lemma_utf8_len_bounds(self.text().take(p));
                lemma_utf16_len_bounds(self.text().take(p));
                lemma_utf8_len_push(self.text().take(p), self.text()[p]);
                lemma_utf16_len_push(self.text().take(p), self.text()[p]);
                assert(self.text().take(p).push(self.text()[p]) =~= self.text().take(p + 1));
            }
            self.position.advance(c);
            Some(c)
        } else {
            None
        }
    }

    /// Copies out the text between two code-point offsets.
    pub fn text_between(&self, from: usize, to: usize) -> (r: Vec<char>)
        requires
            self.wf(),
            from <= to <= self.text().len(),
        ensures
            r@ == self.text().subrange(from as int, to as int),
            r@.len() <= usize::MAX / 4,
    {
        let mut r: Vec<char> = Vec::new();
        let mut i: usize = from;
        while i < to
            invariant
                from <= i <= to <= self.text().len(),
                self.wf(),
                r@ == self.text().subrange(from as int, i as int),
            decreases to - i,
        {
            r.push(self.text[i]);
            proof {
                assert(self.text().subrange(from as int, i as int).push(self.text()[i as int])
                    =~= self.text().subrange(from as int, i + 1));
            }
            i = i + 1;
        }
        r
    }
}

} // verus!
