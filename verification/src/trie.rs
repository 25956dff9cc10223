use vstd::prelude::*;

use crate::kinds::TokenKind;
use crate::stream::Stream;
use crate::version::{eval_opt_specifier, opt_specifier_applies, Version, VersionSpecifier};

verus! {

/// What a trie leaf says about the word that ends there, with the
/// version-range gates already evaluated to booleans for the target version:
/// they are decided once when the trie is built, never per token.
#[derive(Clone, Copy, Debug, PartialEq, Eq, Structural)]
pub struct TriePayload {
    pub kind: TokenKind,
    /// The word is an active keyword in the target version.
    pub enabled: bool,
    /// The word can never be used as an identifier in the target version,
    /// whether or not it is an active keyword.
    pub reserved: bool,
}

/// The three-way verdict on a scanned keyword: a reserved word can never
/// be an identifier in the target version, whether or not it is active; a
/// present (contextual) keyword is active but competes with the identifier
/// scanner; an absent one is excluded by its version gates entirely and the
/// scanner falls through to identifier matching.
#[derive(Clone, Copy, Debug, PartialEq, Eq, Structural)]
pub enum KeywordScan {
    Reserved(TokenKind),
    Present(TokenKind),
    Absent,
}

impl TriePayload {
    /// Classifies this word for the target version, from the precomputed
    /// booleans: reserved outranks present outranks absent.
    pub fn classify(&self) -> (r: KeywordScan)
        ensures
            self.reserved ==> r == KeywordScan::Reserved(self.kind),
            (!self.reserved && self.enabled) ==> r == KeywordScan::Present(self.kind),
            (!self.reserved && !self.enabled) ==> r == KeywordScan::Absent,
    {
        if self.reserved {
            KeywordScan::Reserved(self.kind)
        } else if self.enabled {
            KeywordScan::Present(self.kind)
        } else {
            KeywordScan::Absent
        }
    }
}

/// One labelled branch of a trie node.
#[derive(Debug)]
pub struct TrieEdge {
    pub label: char,
    pub child: Trie,
}

/// A character-keyed decision tree over a set of literals and keywords,
/// built once per lexical context and then used as a longest-exact-match
/// scanner.
#[derive(Debug)]
pub struct Trie {
    pub payload: Option<TriePayload>,
    pub subtries: Vec<TrieEdge>,
}

/// The first branch labelled `c`, if any.
pub open spec fn find_child(s: Seq<TrieEdge>, c: char) -> Option<Trie>
    decreases s.len(),
{
    if s.len() == 0 {
        None
    } else if s[0].label == c {
        Some(s[0].child)
    } else {
        find_child(s.drop_first(), c)
    }
}

/// The payload stored at the end of the exact path `key`, if that path
/// exists.
pub open spec fn trie_get(t: Trie, key: Seq<char>) -> Option<TriePayload>
    decreases key.len(),
{
    if key.len() == 0 {
        t.payload
    } else {
        match find_child(t.subtries@, key[0]) {
            Option::None => None,
            Option::Some(child) => trie_get(child, key.drop_first()),
        }
    }
}

/// What scanning `input` from this node yields: the descent follows matching
/// branches as far as they go, and the payload of the node it stops at is
/// the verdict. Tries are exact-match only: a failed descent does not retry
/// a shorter branch.
pub open spec fn trie_scan_spec(t: Trie, input: Seq<char>) -> (int, Option<TriePayload>)
    decreases input.len(),
{
    if input.len() == 0 {
        (0, t.payload)
    } else {
        match find_child(t.subtries@, input[0]) {
            Option::None => (0, t.payload),
            Option::Some(child) => {
                (trie_scan_spec(child, input.drop_first()).0 + 1, trie_scan_spec(
                    child,
                    input.drop_first(),
                ).1)
            },
        }
    }
}

/// Branch labels are distinct, recursively.
pub open spec fn trie_wf(t: Trie) -> bool
    decreases t,
{
    &&& (forall|i: int, j: int|
        0 <= i < j < t.subtries@.len() ==> t.subtries@[i].label != t.subtries@[j].label)
    &&& (forall|i: int|
        0 <= i < t.subtries@.len() ==> trie_wf(#[trigger] t.subtries@[i].child))
}

proof fn lemma_find_child_at(s: Seq<TrieEdge>, j: int)
    requires
        0 <= j < s.len(),
        forall|i: int| 0 <= i < j ==> s[i].label != s[j].label,
    ensures
        find_child(s, s[j].label) == Some(s[j].child),
    decreases s.len(),
{
    if j > 0 {
        assert(s.drop_first()[j - 1] == s[j]);
        lemma_find_child_at(s.drop_first(), j - 1);
    }
}

proof fn lemma_find_child_none(s: Seq<TrieEdge>, c: char)
    requires
        forall|i: int| 0 <= i < s.len() ==> s[i].label != c,
    ensures
        find_child(s, c) is None,
    decreases s.len(),
{
    if s.len() > 0 {
        lemma_find_child_none(s.drop_first(), c);
    }
}

proof fn lemma_find_child_update(s: Seq<TrieEdge>, j: int, e: TrieEdge, c: char)
    requires
        0 <= j < s.len(),
        e.label == s[j].label,
        forall|i1: int, i2: int| 0 <= i1 < i2 < s.len() ==> s[i1].label != s[i2].label,
    ensures
        c == e.label ==> find_child(s.update(j, e), c) == Some(e.child),
        c != e.label ==> find_child(s.update(j, e), c) == find_child(s, c),
    decreases s.len(),
{
    if j == 0 {
        assert(s.update(j, e)[0] == e);
        assert(s.update(j, e).drop_first() =~= s.drop_first());
    } else {
        assert(s.update(j, e)[0] == s[0]);
        assert(s.update(j, e).drop_first() =~= s.drop_first().update(j - 1, e));
        assert(s.drop_first()[j - 1] == s[j]);
        lemma_find_child_update(s.drop_first(), j - 1, e, c);
    }
}

proof fn lemma_find_child_push(s: Seq<TrieEdge>, e: TrieEdge, c: char)
    ensures
        find_child(s, c) is Some ==> find_child(s.push(e), c) == find_child(s, c),
        find_child(s, c) is None && c == e.label ==> find_child(s.push(e), c) == Some(e.child),
        find_child(s, c) is None && c != e.label ==> find_child(s.push(e), c) is None,
    decreases s.len(),
{
    if s.len() == 0 {
        assert(s.push(e)[0] == e);
        assert(s.push(e).drop_first() =~= Seq::<TrieEdge>::empty());
        assert(find_child(Seq::<TrieEdge>::empty(), c) is None);
    } else {
        assert(s.push(e)[0] == s[0]);
        assert(s.push(e).drop_first() =~= s.drop_first().push(e));
        lemma_find_child_push(s.drop_first(), e, c);
    }
}

/// Two nonempty sequences with equal heads and equal tails are equal.
proof fn lemma_seq_head_tail_eq(a: Seq<char>, b: Seq<char>)
    requires
        a.len() > 0,
        b.len() > 0,
        a[0] == b[0],
        a.drop_first() == b.drop_first(),
    ensures
        a == b,
{
    assert(a =~= b) by {
        assert(a.drop_first().len() == a.len() - 1);
        assert(b.drop_first().len() == b.len() - 1);
        assert(a.len() == b.len());
        assert forall|i: int| 0 <= i < a.len() implies a[i] == b[i] by {
            if i > 0 {
                assert(a.drop_first()[i - 1] == a[i]);
                assert(b.drop_first()[i - 1] == b[i]);
            }
        }
    }
}



impl Trie {
    /// An empty trie: no payload, no branches.
    pub fn new() -> (r: Trie)
        ensures
            trie_wf(r),
            forall|k: Seq<char>| #[trigger] trie_get(r, k) is None,
    {
        let r = Trie { payload: None, subtries: Vec::new() };
        proof {
            assert forall|k: Seq<char>| #[trigger] trie_get(r, k) is None by {
                if k.len() > 0 {
                    assert(find_child(r.subtries@, k[0]) is None);
                }
            }
        }
        r
    }

    /// Adds one word with its payload; any payload previously stored for
    /// exactly this word is replaced, and every other word is untouched.
    pub fn insert(&mut self, key: &Vec<char>, payload: TriePayload)
        requires
            trie_wf(*old(self)),
        ensures
            trie_wf(*final(self)),
            forall|k: Seq<char>|
                #[trigger] trie_get(*final(self), k) == if k == key@ {
                    Some(payload)
                } else {
                    trie_get(*old(self), k)
                },
    {
        let mut tmp = Trie { payload: None, subtries: Vec::new() };
        core::mem::swap(self, &mut tmp);
        let mut tmp = tmp.inserted(key, 0, payload);
        core::mem::swap(self, &mut tmp);
        proof {
            assert(key@.skip(0) =~= key@);
        }
    }

    /// Recursive worker for `insert`, threading the depth already matched.
    fn inserted(self, key: &Vec<char>, depth: usize, payload: TriePayload) -> (r: Trie)
        requires
            trie_wf(self),
            depth <= key@.len(),
        ensures
            trie_wf(r),
            forall|k: Seq<char>|
                #[trigger] trie_get(r, k) == if k == key@.skip(depth as int) {
                    Some(payload)
                } else {
                    trie_get(self, k)
                },
        decreases key@.len() - depth,
    {
        let ghost target = key@.skip(depth as int);
        let ghost t0 = self;
        if depth == key.len() {
            let r = Trie { payload: Some(payload), subtries: self.subtries };
            proof {
                assert(target =~= Seq::<char>::empty());
                assert forall|k: Seq<char>|
                    #[trigger] trie_get(r, k) == if k == target {
                        Some(payload)
                    } else {
                        trie_get(self, k)
                    } by {
                    if k.len() == 0 {
                        assert(k =~= target);
                    } else {
                        assert(trie_get(r, k) == trie_get(self, k));
                    }
                }
            }
            r
        } else {
            let c = key[depth];
            proof {
                assert(target[0] == key@[depth as int]);
                assert(target.drop_first() =~= key@.skip(depth + 1));
            }
            match self.find_edge(c) {
                Some(j) => {
                    let mut edges = self.subtries;
                    let ghost old_edges = edges@;
                    let edge = edges.remove(j);
                    proof {
                        assert(edge == old_edges[j as int]);
                        assert(trie_wf(old_edges[j as int].child));
                    }
                    let new_child = edge.child.inserted(key, depth + 1, payload);
                    let ghost nc = new_child;
                    let new_edge = TrieEdge { label: c, child: new_child };
                    let ghost ne = new_edge;
                    edges.insert(j, new_edge);
                    let r = Trie { payload: self.payload, subtries: edges };
                    proof {
                        assert(ne.label == target[0]);
                        assert(r.subtries@ =~= old_edges.update(j as int, ne));
                        lemma_inserted_update(t0, j as int, ne, r, target, payload);
                    }
                    r
                }
                None => {
                    let empty = Trie::new();
                    let new_child = empty.inserted(key, depth + 1, payload);
                    let ghost nc = new_child;
                    let new_edge = TrieEdge { label: c, child: new_child };
                    let ghost ne = new_edge;
                    let mut edges = self.subtries;
                    let ghost old_edges = edges@;
                    edges.push(new_edge);
                    let r = Trie { payload: self.payload, subtries: edges };
                    proof {
                        assert(ne.label == target[0]);
                        assert(r.subtries@ =~= old_edges.push(ne));
                        assert forall|k2: Seq<char>|
                            #[trigger] trie_get(nc, k2) == if k2 == target.drop_first() {
                                Some(payload)
                            } else {
                                None::<TriePayload>
                            } by {
                            assert(trie_get(empty, k2) is None);
                        }
                        assert(ne.child == nc);
                        lemma_inserted_push(t0, ne, r, target, payload);
                    }
                    r
                }
            }
        }
    }

    /// The index of the first branch labelled `c`, if any.
    fn find_edge(&self, c: char) -> (r: Option<usize>)
        ensures
            r matches Some(j) ==> ({
                &&& j < self.subtries@.len()
                &&& self.subtries@[j as int].label == c
                &&& find_child(self.subtries@, c) == Some(self.subtries@[j as int].child)
            }),
            r is None ==> find_child(self.subtries@, c) is None,
    {
        let mut j: usize = 0;
        while j < self.subtries.len()
            invariant
                j <= self.subtries@.len(),
                forall|i: int| 0 <= i < j ==> self.subtries@[i].label != c,
            decreases self.subtries@.len() - j,
        {
            if self.subtries[j].label == c {
                proof {
                    lemma_find_child_at(self.subtries@, j as int);
                }
                return Some(j);
            }
            j = j + 1;
        }
        proof {
            lemma_find_child_none(self.subtries@, c);
        }
        None
    }

    /// Scans from the stream's position: follows matching branches as far as
    /// they go and returns the payload of the node the descent stops at,
    /// having consumed exactly the descent's characters. A `None` verdict
    /// means no keyword matched; the caller restores the position.
    pub fn scan(&self, stream: &mut Stream) -> (r: Option<TriePayload>)
        requires
            trie_wf(*self),
            old(stream).wf(),
        ensures
            final(stream).wf(),
            final(stream).text() == old(stream).text(),
            final(stream).pos() == old(stream).pos() + trie_scan_spec(
                *self,
                old(stream).text().skip(old(stream).pos()),
            ).0,
            r == trie_scan_spec(*self, old(stream).text().skip(old(stream).pos())).1,
        decreases *self,
    {
        let ghost input = old(stream).text().skip(old(stream).pos());
        match stream.peek() {
            None => {
                proof {
                    assert(input.len() == 0);
                }
                self.payload
            }
            Some(c) => {
                proof {
                    assert(input[0] == c);
                }
                match self.find_edge(c) {
                    None => self.payload,
                    Some(j) => {
                        let _ = stream.next();
                        proof {
                            assert(stream.text().skip(stream.pos()) =~= input.drop_first());
                        }
                        self.subtries[j].child.scan(stream)
                    }
                }
            }
        }
    }
}

proof fn lemma_find_child_none_converse(s: Seq<TrieEdge>, c: char, i: int)
    requires
        find_child(s, c) is None,
        0 <= i < s.len(),
    ensures
        s[i].label != c,
    decreases s.len(),
{
    if i > 0 {
        lemma_find_child_none_converse(s.drop_first(), c, i - 1);
    }
}

/// Replacing the child under the branch labelled `target[0]` with one whose
/// lookups differ only at `target.drop_first()` changes the whole trie's
/// lookups only at `target`.
proof fn lemma_inserted_update(
    t0: Trie,
    j: int,
    ne: TrieEdge,
    r: Trie,
    target: Seq<char>,
    payload: TriePayload,
)
    requires
        trie_wf(t0),
        0 <= j < t0.subtries@.len(),
        target.len() > 0,
        t0.subtries@[j].label == target[0],
        ne.label == target[0],
        trie_wf(ne.child),
        forall|k2: Seq<char>|
            #[trigger] trie_get(ne.child, k2) == if k2 == target.drop_first() {
                Some(payload)
            } else {
                trie_get(t0.subtries@[j].child, k2)
            },
        r.payload == t0.payload,
        r.subtries@ == t0.subtries@.update(j, ne),
    ensures
        trie_wf(r),
        forall|k: Seq<char>|
            #[trigger] trie_get(r, k) == if k == target {
                Some(payload)
            } else {
                trie_get(t0, k)
            },
{
    let s = t0.subtries@;
    let e_new = ne;
    let nc = ne.child;
    assert(s.update(j, e_new).len() == s.len());
    assert forall|i1: int, i2: int|
        0 <= i1 < i2 < r.subtries@.len() implies r.subtries@[i1].label
        != r.subtries@[i2].label by {
        assert(s[i1].label != s[i2].label);
        if i1 == j {
            assert(s.update(j, e_new)[i1] == e_new);
        } else {
            assert(s.update(j, e_new)[i1] == s[i1]);
        }
        if i2 == j {
            assert(s.update(j, e_new)[i2] == e_new);
        } else {
            assert(s.update(j, e_new)[i2] == s[i2]);
        }
    }
    assert forall|i: int|
        0 <= i < r.subtries@.len() implies trie_wf(#[trigger] r.subtries@[i].child) by {
        if i == j {
            assert(s.update(j, e_new)[i] == e_new);
        } else {
            assert(s.update(j, e_new)[i] == s[i]);
        }
    }
    assert forall|k: Seq<char>|
        #[trigger] trie_get(r, k) == if k == target {
            Some(payload)
        } else {
            trie_get(t0, k)
        } by {
        if k.len() == 0 {
            assert(k != target);
            assert(trie_get(r, k) == r.payload);
            assert(trie_get(t0, k) == t0.payload);
        } else {
            lemma_find_child_update(s, j, e_new, k[0]);
            if k[0] == target[0] {
                lemma_find_child_at(s, j);
                assert(find_child(r.subtries@, k[0]) == Some(nc));
                assert(trie_get(r, k) == trie_get(nc, k.drop_first()));
                assert(find_child(s, k[0]) == Some(s[j].child));
                assert(trie_get(t0, k) == trie_get(s[j].child, k.drop_first()));
                if k != target {
                    assert(k.drop_first() != target.drop_first()) by {
                        if k.drop_first() == target.drop_first() {
                            lemma_seq_head_tail_eq(k, target);
                        }
                    }
                }
            } else {
                assert(find_child(r.subtries@, k[0]) == find_child(s, k[0]));
                assert(k != target);
                assert(trie_get(r, k) == trie_get(t0, k));
            }
        }
    }
}

/// Adding a fresh branch whose label no existing branch carries adds exactly
/// the lookups below it and disturbs no other.
proof fn lemma_inserted_push(t0: Trie, ne: TrieEdge, r: Trie, target: Seq<char>, payload: TriePayload)
    requires
        trie_wf(t0),
        target.len() > 0,
        find_child(t0.subtries@, target[0]) is None,
        ne.label == target[0],
        trie_wf(ne.child),
        forall|k2: Seq<char>|
            #[trigger] trie_get(ne.child, k2) == if k2 == target.drop_first() {
                Some(payload)
            } else {
                None::<TriePayload>
            },
        r.payload == t0.payload,
        r.subtries@ == t0.subtries@.push(ne),
    ensures
        trie_wf(r),
        forall|k: Seq<char>|
            #[trigger] trie_get(r, k) == if k == target {
                Some(payload)
            } else {
                trie_get(t0, k)
            },
{
    let s = t0.subtries@;
    let e_new = ne;
    let nc = ne.child;
    assert(s.push(e_new).len() == s.len() + 1);
    assert forall|i1: int, i2: int|
        0 <= i1 < i2 < r.subtries@.len() implies r.subtries@[i1].label
        != r.subtries@[i2].label by {
        assert(s.push(e_new)[i1] == s[i1]);
        if i2 == s.len() {
            assert(s.push(e_new)[i2] == e_new);
            lemma_find_child_none_converse(s, target[0], i1);
        } else {
            assert(s.push(e_new)[i2] == s[i2]);
        }
    }
    assert forall|i: int|
        0 <= i < r.subtries@.len() implies trie_wf(#[trigger] r.subtries@[i].child) by {
        if i == s.len() {
            assert(s.push(e_new)[i] == e_new);
        } else {
            assert(s.push(e_new)[i] == s[i]);
        }
    }
    assert forall|k: Seq<char>|
        #[trigger] trie_get(r, k) == if k == target {
            Some(payload)
        } else {
            trie_get(t0, k)
        } by {
        if k.len() == 0 {
            assert(k != target);
            assert(trie_get(r, k) == r.payload);
            assert(trie_get(t0, k) == t0.payload);
        } else {
            lemma_find_child_push(s, e_new, k[0]);
            if k[0] == target[0] {
                assert(find_child(s, k[0]) is None);
                assert(trie_get(t0, k) is None);
                assert(find_child(r.subtries@, k[0]) == Some(nc));
                assert(trie_get(r, k) == trie_get(nc, k.drop_first()));
                if k != target {
                    assert(k.drop_first() != target.drop_first()) by {
                        if k.drop_first() == target.drop_first() {
                            lemma_seq_head_tail_eq(k, target);
                        }
                    }
                    assert(trie_get(nc, k.drop_first()) is None);
                }
            } else {
                assert(find_child(r.subtries@, k[0]) == find_child(s, k[0]));
                assert(k != target);
                assert(trie_get(r, k) == trie_get(t0, k));
            }
        }
    }
}

impl Trie {
    /// Decides well-formedness at run time: branch labels are distinct at
    /// every node. Grammar compilers call this once, before any parse.
    #[verifier::loop_isolation(false)]
    pub fn is_well_formed(&self) -> (r: bool)
        ensures
            r == trie_wf(*self),
        decreases *self,
    {
        let n = self.subtries.len();
        let mut i: usize = 0;
        while i < n
            invariant
                i <= n,
                n == self.subtries@.len(),
                forall|i1: int, i2: int|
                    0 <= i1 < i2 < i ==> self.subtries@[i1].label != self.subtries@[i2].label,
                forall|j: int| 0 <= j < i ==> trie_wf(#[trigger] self.subtries@[j].child),
            decreases n - i,
        {
            let mut j: usize = 0;
            while j < i
                invariant
                    j <= i <= n,
                    n == self.subtries@.len(),
                    forall|j2: int|
                        0 <= j2 < j ==> self.subtries@[j2].label != self.subtries@[i as int].label,
                decreases i - j,
            {
                if self.subtries[j].label == self.subtries[i].label {
                    proof {
                        assert(self.subtries@[j as int].label == self.subtries@[
                            i as int
                        ].label);
                        assert(!trie_wf(*self));
                    }
                    return false;
                }
                j = j + 1;
            }
            if !self.subtries[i].child.is_well_formed() {
                proof {
                    assert(!trie_wf(self.subtries@[i as int].child));
                    assert(!trie_wf(*self));
                }
                return false;
            }
            i = i + 1;
        }
        true
    }
}

/// One literal input to the trie compiler: its text, the terminal it
/// scans to, and the version gates for being an active keyword and for
/// being reserved.
#[derive(Debug)]
pub struct LiteralEntry {
    pub text: Vec<char>,
    pub kind: TokenKind,
    pub enabled: Option<VersionSpecifier>,
    pub reserved: Option<VersionSpecifier>,
}

/// Whether a literal belongs to the alphabetic class, which must defer to
/// the generic identifier scanner.
pub open spec fn is_alpha(c: char) -> bool {
    ('a' <= c && c <= 'z') || ('A' <= c && c <= 'Z')
}

pub fn char_is_alpha(c: char) -> (r: bool)
    ensures
        r == is_alpha(c),
{
    ('a' <= c && c <= 'z') || ('A' <= c && c <= 'Z')
}

/// What the compiled trie of the given leading-character class holds for a
/// word: the payload of the last entry with that exact text, its gates
/// evaluated once against the target version.
pub open spec fn compiled_payload(
    entries: Seq<LiteralEntry>,
    k: Seq<char>,
    v: Version,
    alpha: bool,
) -> Option<TriePayload>
    decreases entries.len(),
{
    if entries.len() == 0 {
        None
    } else {
        let e = entries.last();
        if e.text@ == k && k.len() > 0 && is_alpha(k[0]) == alpha {
            Some(
                TriePayload {
                    kind: e.kind,
                    enabled: opt_specifier_applies(e.enabled, v),
                    reserved: opt_specifier_applies(e.reserved, v),
                },
            )
        } else {
            compiled_payload(entries.drop_last(), k, v, alpha)
        }
    }
}

/// Compiles a literal and keyword set into the two longest-match tries, one
/// per leading-character class, with every version gate evaluated to a
/// boolean once. A later entry for the same text replaces an earlier one;
/// empty literals are ignored. Built once per lexical context at grammar
/// compile time.
#[verifier::loop_isolation(false)]
pub fn build_literal_tries(entries: &Vec<LiteralEntry>, version: &Version) -> (r: (Trie, Trie))
    ensures
        trie_wf(r.0),
        trie_wf(r.1),
        forall|k: Seq<char>|
            #[trigger] trie_get(r.0, k) == compiled_payload(entries@, k, *version, true),
        forall|k: Seq<char>|
            #[trigger] trie_get(r.1, k) == compiled_payload(entries@, k, *version, false),
{
    let mut alpha = Trie::new();
    let mut non_alpha = Trie::new();
    let mut i: usize = 0;
    proof {
        assert forall|k: Seq<char>|
            #[trigger] trie_get(alpha, k) == compiled_payload(
                entries@.take(0),
                k,
                *version,
                true,
            ) by {
            assert(entries@.take(0) =~= Seq::<LiteralEntry>::empty());
        }
        assert forall|k: Seq<char>|
            #[trigger] trie_get(non_alpha, k) == compiled_payload(
                entries@.take(0),
                k,
                *version,
                false,
            ) by {
            assert(entries@.take(0) =~= Seq::<LiteralEntry>::empty());
        }
    }
    while i < entries.len()
        invariant
            i <= entries@.len(),
            trie_wf(alpha),
            trie_wf(non_alpha),
            forall|k: Seq<char>|
                #[trigger] trie_get(alpha, k) == compiled_payload(
                    entries@.take(i as int),
                    k,
                    *version,
                    true,
                ),
            forall|k: Seq<char>|
                #[trigger] trie_get(non_alpha, k) == compiled_payload(
                    entries@.take(i as int),
                    k,
                    *version,
                    false,
                ),
        decreases entries@.len() - i,
    {
        let e = &entries[i];
        let ghost before_alpha = alpha;
        let ghost before_non_alpha = non_alpha;
        proof {
            assert(entries@.take(i + 1).drop_last() =~= entries@.take(i as int));
            assert(entries@.take(i + 1).last() == entries@[i as int]);
        }
        if e.text.len() > 0 {
            let payload = TriePayload {
                kind: e.kind,
                enabled: eval_opt_specifier(&e.enabled, version),
                reserved: eval_opt_specifier(&e.reserved, version),
            };
            if char_is_alpha(e.text[0]) {
                alpha.insert(&e.text, payload);
            } else {
                non_alpha.insert(&e.text, payload);
            }
        }
        i = i + 1;
    }
    proof {
        assert(entries@.take(entries@.len() as int) =~= entries@);
    }
    (alpha, non_alpha)
}

/// Any word stored in the trie that is a prefix of the input lies on the
/// scan's descent path, so the scan consumes at least its length: the
/// longest stored prefix wins by trie depth, not declaration order.
pub proof fn lemma_trie_scan_reaches_keys(t: Trie, input: Seq<char>, k: Seq<char>)
    requires
        trie_get(t, k) is Some,
        k.len() <= input.len(),
        input.take(k.len() as int) == k,
    ensures
        trie_scan_spec(t, input).0 >= k.len(),
    decreases k.len(),
{
    lemma_trie_scan_payload(t, input);
    if k.len() > 0 {
        assert(input[0] == k[0]);
        let child = find_child(t.subtries@, k[0]);
        assert(child is Some);
        assert(input.drop_first().take(k.len() - 1) =~= k.drop_first());
        lemma_trie_scan_reaches_keys(child.unwrap(), input.drop_first(), k.drop_first());
    }
}

/// What the scan returns is exactly the payload stored at the word it
/// consumed.
pub proof fn lemma_trie_scan_payload(t: Trie, input: Seq<char>)
    ensures
        0 <= trie_scan_spec(t, input).0 <= input.len(),
        trie_scan_spec(t, input).1 == trie_get(t, input.take(trie_scan_spec(t, input).0)),
    decreases input.len(),
{
    if input.len() == 0 {
        assert(input.take(0) =~= Seq::<char>::empty());
    } else {
        match find_child(t.subtries@, input[0]) {
            Option::None => {
                assert(input.take(0) =~= Seq::<char>::empty());
            },
            Option::Some(child) => {
                lemma_trie_scan_payload(child, input.drop_first());
                let d = trie_scan_spec(child, input.drop_first()).0;
                assert(input.take(d + 1)[0] == input[0]);
                assert(input.take(d + 1).drop_first() =~= input.drop_first().take(d));
            },
        }
    }
}

} // verus!
