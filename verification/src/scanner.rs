use vstd::prelude::*;

use crate::stream::Stream;

verus! {

/// The shape of a lexical scanner, as the grammar definition language
/// describes it: a regular expression over code points, resolved by
/// exhaustive pattern matching since the shape set is fixed when the grammar
/// is compiled.
#[derive(Debug)]
pub enum Scanner {
    Atom { atom: Vec<char> },
    Range { inclusive_start: char, inclusive_end: char },
    Not { chars: Vec<char> },
    Optional { scanner: Box<Scanner> },
    ZeroOrMore { scanner: Box<Scanner> },
    OneOrMore { scanner: Box<Scanner> },
    Sequence { scanners: Vec<Scanner> },
    Choice { scanners: Vec<Scanner> },
    TrailingContext { scanner: Box<Scanner>, not_followed_by: Box<Scanner> },
    Fragment { reference: usize },
}

/// Every fragment reference stays inside the fragment table.
pub open spec fn scanner_wf(s: Scanner, nfrags: int) -> bool
    decreases s,
{
    match s {
        Scanner::Atom { .. } => true,
        Scanner::Range { .. } => true,
        Scanner::Not { .. } => true,
        Scanner::Optional { scanner } => scanner_wf(*scanner, nfrags),
        Scanner::ZeroOrMore { scanner } => scanner_wf(*scanner, nfrags),
        Scanner::OneOrMore { scanner } => scanner_wf(*scanner, nfrags),
        Scanner::Sequence { scanners } => forall|i: int|
            0 <= i < scanners@.len() ==> scanner_wf(#[trigger] scanners@[i], nfrags),
        Scanner::Choice { scanners } => forall|i: int|
            0 <= i < scanners@.len() ==> scanner_wf(#[trigger] scanners@[i], nfrags),
        Scanner::TrailingContext { scanner, not_followed_by } => scanner_wf(*scanner, nfrags)
            && scanner_wf(*not_followed_by, nfrags),
        Scanner::Fragment { reference } => 0 <= reference < nfrags,
    }
}

pub open spec fn fragments_wf(fragments: Seq<Scanner>) -> bool {
    forall|i: int|
        0 <= i < fragments.len() ==> scanner_wf(#[trigger] fragments[i], fragments.len() as int)
}

/// Runs one scanner against the stream. On a match the stream has consumed
/// the matched text (possibly empty); on a miss the position is exactly
/// where it was. Fragment chains deeper than `fuel` are treated as a miss:
/// the recursion cap that turns a pathological grammar into a failure
/// instead of a crash.
#[verifier::loop_isolation(false)]
pub fn scan(s: &Scanner, fragments: &Vec<Scanner>, stream: &mut Stream, fuel: usize) -> (m:
    bool)
    requires
        old(stream).wf(),
        scanner_wf(*s, fragments@.len() as int),
        fragments_wf(fragments@),
    ensures
        final(stream).wf(),
        final(stream).text() == old(stream).text(),
        m ==> final(stream).pos() >= old(stream).pos(),
        !m ==> final(stream).pos_index() == old(stream).pos_index(),
        s matches Scanner::Atom { atom } ==> ({
            let rem = old(stream).text().skip(old(stream).pos());
            &&& m == (atom@.len() <= rem.len() && rem.take(atom@.len() as int) == atom@)
            &&& (m ==> final(stream).pos() == old(stream).pos() + atom@.len())
        }),
        s matches Scanner::Range { inclusive_start, inclusive_end } ==> ({
            let rem = old(stream).text().skip(old(stream).pos());
            &&& m == (rem.len() > 0 && *inclusive_start <= rem[0] && rem[0] <= *inclusive_end)
            &&& (m ==> final(stream).pos() == old(stream).pos() + 1)
        }),
        s matches Scanner::Not { chars } ==> ({
            let rem = old(stream).text().skip(old(stream).pos());
            &&& m == (rem.len() > 0 && !chars@.contains(rem[0]))
            &&& (m ==> final(stream).pos() == old(stream).pos() + 1)
        }),
    decreases fuel, *s,
{
    let ghost rem = old(stream).text().skip(old(stream).pos());
    match s {
        Scanner::Atom { atom } => {
            let save = stream.position();
            let mut i: usize = 0;
            while i < atom.len()
                invariant
                    stream.wf(),
                    stream.text() == old(stream).text(),
                    i <= atom@.len(),
                    stream.pos() == old(stream).pos() + i,
                    old(stream).valid_position(save),
                    save == old(stream).pos_index(),
                    forall|j: int|
                        0 <= j < i ==> #[trigger] atom@[j] == old(stream).text()[old(
                            stream,
                        ).pos() + j],
                decreases atom@.len() - i,
            {
                match stream.next() {
                    Some(c) => {
                        if c != atom[i] {
                            proof {
                                if atom@.len() <= rem.len() && rem.take(atom@.len() as int)
                                    == atom@ {
                                    assert(rem.take(atom@.len() as int)[i as int] == rem[
                                        i as int
                                    ]);
                                }
                            }
                            stream.set_position(save);
                            return false;
                        }
                    }
                    None => {
                        proof {
                            assert(rem.len() <= i);
                        }
                        stream.set_position(save);
                        return false;
                    }
                }
                i = i + 1;
            }
            proof {
                assert(rem.take(atom@.len() as int) =~= atom@);
            }
            true
        }
        Scanner::Range { inclusive_start, inclusive_end } => {
            let save = stream.position();
            match stream.next() {
                Some(c) => {
                    proof {
                        assert(rem[0] == c);
                    }
                    if *inclusive_start <= c && c <= *inclusive_end {
                        true
                    } else {
                        stream.set_position(save);
                        false
                    }
                }
                None => false,
            }
        }
        Scanner::Not { chars } => {
            let save = stream.position();
            match stream.next() {
                Some(c) => {
                    proof {
                        assert(rem[0] == c);
                    }
                    let mut i: usize = 0;
                    let mut excluded = false;
                    while i < chars.len()
                        invariant
                            stream.wf(),
                            i <= chars@.len(),
                            excluded <==> exists|j: int|
                                0 <= j < i && #[trigger] chars@[j] == c,
                        decreases chars@.len() - i,
                    {
                        if c == chars[i] {
                            excluded = true;
                        }
                        i = i + 1;
                    }
                    if excluded {
                        stream.set_position(save);
                        false
                    } else {
                        true
                    }
                }
                None => false,
            }
        }
        Scanner::Optional { scanner } => {
            let _ = scan(scanner, fragments, stream, fuel);
            true
        }
        Scanner::ZeroOrMore { scanner } => {
            loop
                invariant
                    stream.wf(),
                    stream.text() == old(stream).text(),
                    stream.pos() >= old(stream).pos(),
                    scanner_wf(**scanner, fragments@.len() as int),
                    fragments_wf(fragments@),
                decreases stream.text().len() - stream.pos(),
            {
                let before = stream.position();
                let matched = scan(scanner, fragments, stream, fuel);
                if !matched || stream.position().chars == before.chars {
                    // An iteration that consumed nothing would repeat forever;
                    // stopping there matches what greedy repetition means.
                    stream.set_position(before);
                    break ;
                }
            }
            true
        }
        Scanner::OneOrMore { scanner } => {
            if !scan(scanner, fragments, stream, fuel) {
                return false;
            }
            loop
                invariant
                    stream.wf(),
                    stream.text() == old(stream).text(),
                    stream.pos() >= old(stream).pos(),
                    scanner_wf(**scanner, fragments@.len() as int),
                    fragments_wf(fragments@),
                decreases stream.text().len() - stream.pos(),
            {
                let before = stream.position();
                let matched = scan(scanner, fragments, stream, fuel);
                if !matched || stream.position().chars == before.chars {
                    stream.set_position(before);
                    break ;
                }
            }
            true
        }
        Scanner::Sequence { scanners } => {
            let save = stream.position();
            let mut i: usize = 0;
            while i < scanners.len()
                invariant
                    stream.wf(),
                    stream.text() == old(stream).text(),
                    stream.pos() >= old(stream).pos(),
                    old(stream).valid_position(save),
                    save == old(stream).pos_index(),
                    forall|k: int|
                        0 <= k < scanners@.len() ==> scanner_wf(
                            #[trigger] scanners@[k],
                            fragments@.len() as int,
                        ),
                    fragments_wf(fragments@),
                decreases scanners@.len() - i,
            {
                if !scan(&scanners[i], fragments, stream, fuel) {
                    stream.set_position(save);
                    return false;
                }
                i = i + 1;
            }
            true
        }
        Scanner::Choice { scanners } => {
            let save = stream.position();
            let mut i: usize = 0;
            while i < scanners.len()
                invariant
                    stream.wf(),
                    stream.text() == old(stream).text(),
                    stream.pos_index() == save,
                    save == old(stream).pos_index(),
                    old(stream).valid_position(save),
                    forall|k: int|
                        0 <= k < scanners@.len() ==> scanner_wf(
                            #[trigger] scanners@[k],
                            fragments@.len() as int,
                        ),
                    fragments_wf(fragments@),
                decreases scanners@.len() - i,
            {
                if scan(&scanners[i], fragments, stream, fuel) {
                    return true;
                }
                i = i + 1;
            }
            false
        }
        Scanner::TrailingContext { scanner, not_followed_by } => {
            let save = stream.position();
            if !scan(scanner, fragments, stream, fuel) {
                return false;
            }
            let end = stream.position();
            let follows = scan(not_followed_by, fragments, stream, fuel);
            stream.set_position(end);
            if follows {
                stream.set_position(save);
                false
            } else {
                true
            }
        }
        Scanner::Fragment { reference } => {
            if fuel == 0 {
                return false;
            }
            scan(&fragments[*reference], fragments, stream, fuel - 1)
        }
    }
}

/// Decides scanner well-formedness at run time: every fragment reference
/// stays inside a table of `nfrags` fragments.
#[verifier::loop_isolation(false)]
pub fn check_scanner(s: &Scanner, nfrags: usize) -> (r: bool)
    ensures
        r == scanner_wf(*s, nfrags as int),
    decreases *s,
{
    match s {
        Scanner::Atom { .. } => true,
        Scanner::Range { .. } => true,
        Scanner::Not { .. } => true,
        Scanner::Optional { scanner } => check_scanner(scanner, nfrags),
        Scanner::ZeroOrMore { scanner } => check_scanner(scanner, nfrags),
        Scanner::OneOrMore { scanner } => check_scanner(scanner, nfrags),
        Scanner::Sequence { scanners } | Scanner::Choice { scanners } => {
            let mut i: usize = 0;
            while i < scanners.len()
                invariant
                    i <= scanners@.len(),
                    forall|k: int|
                        0 <= k < i ==> scanner_wf(#[trigger] scanners@[k], nfrags as int),
                decreases scanners@.len() - i,
            {
                if !check_scanner(&scanners[i], nfrags) {
                    proof {
                        assert(!scanner_wf(scanners@[i as int], nfrags as int));
                    }
                    return false;
                }
                i = i + 1;
            }
            true
        }
        Scanner::TrailingContext { scanner, not_followed_by } => check_scanner(scanner, nfrags)
            && check_scanner(not_followed_by, nfrags),
        Scanner::Fragment { reference } => *reference < nfrags,
    }
}

} // verus!
