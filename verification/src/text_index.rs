use vstd::prelude::*;

verus! {

/// How many bytes the UTF-8 encoding of `c` takes.
pub open spec fn char_utf8_len(c: char) -> int {
    if (c as u32) < 0x80 {
        1
    } else if (c as u32) < 0x800 {
        2
    } else if (c as u32) < 0x10000 {
        3
    } else {
        4
    }
}

/// How many code units the UTF-16 encoding of `c` takes.
pub open spec fn char_utf16_len(c: char) -> int {
    if (c as u32) < 0x10000 {
        1
    } else {
        2
    }
}

/// Total UTF-8 byte length of a sequence of code points.
pub open spec fn utf8_len(s: Seq<char>) -> int
    decreases s.len(),
{
    if s.len() == 0 {
        0
    } else {
        char_utf8_len(s[0]) + utf8_len(s.drop_first())
    }
}

/// Total UTF-16 code-unit length of a sequence of code points.
pub open spec fn utf16_len(s: Seq<char>) -> int
    decreases s.len(),
{
    if s.len() == 0 {
        0
    } else {
        char_utf16_len(s[0]) + utf16_len(s.drop_first())
    }
}

pub proof fn lemma_utf8_len_bounds(s: Seq<char>)
    ensures
        s.len() <= utf8_len(s) <= 4 * s.len(),
    decreases s.len(),
{
    if s.len() > 0 {
        lemma_utf8_len_bounds(s.drop_first());
    }
}

pub proof fn lemma_utf16_len_bounds(s: Seq<char>)
    ensures
        s.len() <= utf16_len(s) <= 2 * s.len(),
    decreases s.len(),
{
    if s.len() > 0 {
        lemma_utf16_len_bounds(s.drop_first());
    }
}

pub proof fn lemma_utf8_len_concat(a: Seq<char>, b: Seq<char>)
    ensures
        utf8_len(a + b) == utf8_len(a) + utf8_len(b),
    decreases a.len(),
{
    if a.len() == 0 {
        assert(a + b =~= b);
    } else {
        assert((a + b).drop_first() =~= a.drop_first() + b);
        lemma_utf8_len_concat(a.drop_first(), b);
    }
}

pub proof fn lemma_utf16_len_concat(a: Seq<char>, b: Seq<char>)
    ensures
        utf16_len(a + b) == utf16_len(a) + utf16_len(b),
    decreases a.len(),
{
    if a.len() == 0 {
        assert(a + b =~= b);
    } else {
        assert((a + b).drop_first() =~= a.drop_first() + b);
        lemma_utf16_len_concat(a.drop_first(), b);
    }
}

pub proof fn lemma_utf8_len_push(s: Seq<char>, c: char)
    ensures
        utf8_len(s.push(c)) == utf8_len(s) + char_utf8_len(c),
    decreases s.len(),
{
    if s.len() == 0 {
        assert(s.push(c).drop_first() =~= Seq::<char>::empty());
        assert(utf8_len(Seq::<char>::empty()) == 0);
    } else {
        assert(s.push(c)[0] == s[0]);
        assert(s.push(c).drop_first() =~= s.drop_first().push(c));
        lemma_utf8_len_push(s.drop_first(), c);
    }
}

pub proof fn lemma_utf16_len_push(s: Seq<char>, c: char)
    ensures
        utf16_len(s.push(c)) == utf16_len(s) + char_utf16_len(c),
    decreases s.len(),
{
    if s.len() == 0 {
        assert(s.push(c).drop_first() =~= Seq::<char>::empty());
        assert(utf16_len(Seq::<char>::empty()) == 0);
    } else {
        assert(s.push(c)[0] == s[0]);
        assert(s.push(c).drop_first() =~= s.drop_first().push(c));
        lemma_utf16_len_push(s.drop_first(), c);
    }
}

/// A slice of a text that fits the machine's index type fits it in all
/// three units.
pub proof fn lemma_slice_fits(s: Seq<char>, a: int, b: int)
    requires
        s.len() <= usize::MAX / 4,
        0 <= a <= b <= s.len(),
    ensures
        utf8_len(s.subrange(a, b)) <= usize::MAX,
        utf16_len(s.subrange(a, b)) <= usize::MAX,
        s.subrange(a, b).len() <= usize::MAX,
{
    lemma_utf8_len_bounds(s.subrange(a, b));
    lemma_utf16_len_bounds(s.subrange(a, b));
}

/// A cursor into source text, tracked simultaneously in UTF-8 bytes, UTF-16
/// code units and code points: downstream consumers index text in all three
/// conventions.
#[derive(Clone, Copy, Debug, PartialEq, Eq, Structural, Hash)]
pub struct TextIndex {
    pub utf8: usize,
    pub utf16: usize,
    pub chars: usize,
}

impl TextIndex {
    /// The three units agree with the text `s` that this index spans.
    pub open spec fn is_len_of(self, s: Seq<char>) -> bool {
        &&& self.chars == s.len()
        &&& self.utf8 == utf8_len(s)
        &&& self.utf16 == utf16_len(s)
    }

    pub open spec fn is_zero(self) -> bool {
        self.utf8 == 0 && self.utf16 == 0 && self.chars == 0
    }

    pub fn zero() -> (r: TextIndex)
        ensures
            r.is_zero(),
            r.is_len_of(Seq::<char>::empty()),
    {
        TextIndex { utf8: 0, utf16: 0, chars: 0 }
    }

    /// Steps the index past one more code point.
    pub fn advance(&mut self, c: char)
        requires
            old(self).utf8 + 4 <= usize::MAX,
            old(self).utf16 + 2 <= usize::MAX,
            old(self).chars + 1 <= usize::MAX,
        ensures
            final(self).utf8 == old(self).utf8 + char_utf8_len(c),
            final(self).utf16 == old(self).utf16 + char_utf16_len(c),
            final(self).chars == old(self).chars + 1,
    {
        self.utf8 = self.utf8 + char_len_utf8(c);
        self.utf16 = self.utf16 + char_len_utf16(c);
        self.chars = self.chars + 1;
    }

    /// Component-wise sum of two indices.
    pub fn add(self, other: TextIndex) -> (r: TextIndex)
        requires
            self.utf8 + other.utf8 <= usize::MAX,
            self.utf16 + other.utf16 <= usize::MAX,
            self.chars + other.chars <= usize::MAX,
        ensures
            r.utf8 == self.utf8 + other.utf8,
            r.utf16 == self.utf16 + other.utf16,
            r.chars == self.chars + other.chars,
    {
        TextIndex {
            utf8: self.utf8 + other.utf8,
            utf16: self.utf16 + other.utf16,
            chars: self.chars + other.chars,
        }
    }
}

/// A span of source text, as a pair of cursors.
#[derive(Clone, Copy, Debug, PartialEq, Eq, Structural, Hash)]
pub struct TextRange {
    pub start: TextIndex,
    pub end: TextIndex,
}

pub fn char_len_utf8(c: char) -> (n: usize)
    ensures
        n == char_utf8_len(c),
{
    let u = c as u32;
    if u < 0x80 {
        1
    } else if u < 0x800 {
        2
    } else if u < 0x10000 {
        3
    } else {
        4
    }
}

pub fn char_len_utf16(c: char) -> (n: usize)
    ensures
        n == char_utf16_len(c),
{
    let u = c as u32;
    if u < 0x10000 {
        1
    } else {
        2
    }
}

/// Measures a whole text in the three indexing conventions.
pub fn text_len_of(text: &Vec<char>) -> (r: TextIndex)
    requires
        text@.len() <= usize::MAX / 4,
    ensures
        r.is_len_of(text@),
{
    let mut r = TextIndex::zero();
    let mut i: usize = 0;
    while i < text.len()
        invariant
            i <= text@.len(),
            text@.len() <= usize::MAX / 4,
            r.is_len_of(text@.take(i as int)),
        decreases text@.len() - i,
    {
        proof {
            lemma_utf8_len_bounds(text@.take(i as int));
            lemma_utf16_len_bounds(text@.take(i as int));
            lemma_utf8_len_push(text@.take(i as int), text@[i as int]);
            lemma_utf16_len_push(text@.take(i as int), text@[i as int]);
            assert(text@.take(i as int).push(text@[i as int]) =~= text@.take(i + 1));
        }
        r.advance(text[i]);
        i = i + 1;
    }
    proof {
        assert(text@.take(text@.len() as int) =~= text@);
    }
    r
}

} // verus!
