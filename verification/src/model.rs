use vstd::prelude::*;

use crate::scanner::Scanner;
use crate::version::VersionSpecifier;

verus! {

/// A named keyword production: the identifier scanner it competes with, and
/// its versioned definitions.
#[derive(Debug)]
pub struct KeywordItem {
    pub name: String,
    pub identifier: String,
    pub definitions: Vec<KeywordDefinition>,
}

/// One versioned shape of a keyword: when it is an active keyword, when it
/// is reserved (cannot be an identifier even if inactive), and its value.
#[derive(Debug)]
pub struct KeywordDefinition {
    pub enabled: Option<VersionSpecifier>,
    pub reserved: Option<VersionSpecifier>,
    pub value: KeywordValue,
}

/// The compositional value of a keyword: sequences, options and choices over
/// literal atoms.
#[derive(Debug, PartialEq, Eq)]
pub enum KeywordValue {
    Sequence { values: Vec<KeywordValue> },
    Optional { value: Box<KeywordValue> },
    Choice { values: Vec<KeywordValue> },
    Atom { atom: String },
}

/// A named token production with its versioned scanner definitions.
#[derive(Debug)]
pub struct TokenItem {
    pub name: String,
    pub definitions: Vec<TokenDefinition>,
}

#[derive(Debug)]
pub struct TokenDefinition {
    pub enabled: Option<VersionSpecifier>,
    pub scanner: Scanner,
}

/// How a trivia (whitespace and comment) stream is parsed: its own small
/// grammar over named trivia scanners.
#[derive(Debug, PartialEq, Eq)]
pub enum TriviaParser {
    Sequence { parsers: Vec<TriviaParser> },
    Choice { parsers: Vec<TriviaParser> },
    OneOrMore { parser: Box<TriviaParser> },
    ZeroOrMore { parser: Box<TriviaParser> },
    Optional { parser: Box<TriviaParser> },
    Trivia { trivia: String },
}

/// A named trivia production and its scanner.
#[derive(Debug)]
pub struct TriviaItem {
    pub name: String,
    pub scanner: Scanner,
}

/// How an operator of a precedence rule binds.
#[derive(Clone, Copy, Debug, PartialEq, Eq, Structural)]
pub enum OperatorModel {
    Prefix,
    Postfix,
    BinaryLeftAssociative,
    BinaryRightAssociative,
}

/// One primary-expression alternative of a precedence rule.
#[derive(Debug, PartialEq, Eq)]
pub struct PrimaryExpression {
    pub expression: String,
    pub enabled: Option<VersionSpecifier>,
}

/// A named precedence (expression) rule: operator groups over a set of
/// primary expressions. Declaration order of the expressions is the sole
/// source of precedence.
#[derive(Debug)]
pub struct PrecedenceItem {
    pub name: String,
    pub enabled: Option<VersionSpecifier>,
    pub precedence_expressions: Vec<PrecedenceExpression>,
    pub primary_expressions: Vec<PrimaryExpression>,
}

/// One operator group, wrapped into rule nodes of its own name.
#[derive(Debug)]
pub struct PrecedenceExpression {
    pub name: String,
    pub rule_name: String,
    pub operators: Vec<PrecedenceOperator>,
}

/// One concrete operator of a group.
#[derive(Debug)]
pub struct PrecedenceOperator {
    pub model: OperatorModel,
    pub enabled: Option<VersionSpecifier>,
    pub fields: Vec<String>,
}


/// Relies on `String::push_str` of the standard library: it appends the
/// given slice onto the end of the string.
pub assume_specification[ String::push_str ](s: &mut String, other: &str)
    ensures
        final(s)@ == old(s)@ + other@,
;

/// All variations a keyword value can expand to, in declaration order: an
/// atom is itself; an option contributes the empty variation first; a
/// choice concatenates its branches' variations; a sequence takes the
/// cross product, earlier members varying slowest.
pub open spec fn variations(v: KeywordValue) -> Seq<Seq<char>>
    decreases v,
{
    match v {
        KeywordValue::Atom { atom } => seq![atom@],
        KeywordValue::Optional { value } => seq![Seq::<char>::empty()] + variations(*value),
        KeywordValue::Choice { values } => choice_variations(values@),
        KeywordValue::Sequence { values } => sequence_variations(values@),
    }
}

pub open spec fn choice_variations(s: Seq<KeywordValue>) -> Seq<Seq<char>>
    decreases s,
{
    if s.len() == 0 {
        Seq::<Seq<char>>::empty()
    } else {
        variations(s[0]) + choice_variations(s.drop_first())
    }
}

pub open spec fn sequence_variations(s: Seq<KeywordValue>) -> Seq<Seq<char>>
    decreases s,
{
    if s.len() == 0 {
        seq![Seq::<char>::empty()]
    } else {
        prefix_all(variations(s[0]), sequence_variations(s.drop_first()))
    }
}

/// Every first chunk, prefixed onto every rest, firsts varying slowest.
pub open spec fn prefix_all(firsts: Seq<Seq<char>>, rests: Seq<Seq<char>>) -> Seq<Seq<char>>
    decreases firsts.len(),
{
    if firsts.len() == 0 {
        Seq::<Seq<char>>::empty()
    } else {
        Seq::new(rests.len(), |i: int| firsts[0] + rests[i]) + prefix_all(
            firsts.drop_first(),
            rests,
        )
    }
}

/// The texts of a list of strings.
pub open spec fn views_of(r: Seq<String>) -> Seq<Seq<char>> {
    Seq::new(r.len(), |i: int| r[i]@)
}

proof fn lemma_prefix_all_push(f: Seq<Seq<char>>, x: Seq<char>, r: Seq<Seq<char>>)
    ensures
        prefix_all(f.push(x), r) == prefix_all(f, r) + Seq::new(r.len(), |i: int| x + r[i]),
    decreases f.len(),
{
    if f.len() == 0 {
        assert(f.push(x)[0] == x);
        assert(f.push(x).drop_first() =~= Seq::<Seq<char>>::empty());
        assert(prefix_all(Seq::<Seq<char>>::empty(), r) == Seq::<Seq<char>>::empty());
        assert(f =~= Seq::<Seq<char>>::empty());
        assert(prefix_all(f.push(x), r) =~= prefix_all(f, r) + Seq::new(
            r.len(),
            |i: int| x + r[i],
        ));
    } else {
        assert(f.push(x)[0] == f[0]);
        assert(f.push(x).drop_first() =~= f.drop_first().push(x));
        lemma_prefix_all_push(f.drop_first(), x, r);
        assert(prefix_all(f.push(x), r) =~= prefix_all(f, r) + Seq::new(
            r.len(),
            |i: int| x + r[i],
        ));
    }
}

impl KeywordValue {
    /// Collects all variations this value generates, in order.
    pub fn collect_variations(&self) -> (r: Vec<String>)
        ensures
            views_of(r@) == variations(*self),
        decreases *self, 0int,
    {
        match self {
            KeywordValue::Atom { atom } => {
                let mut r: Vec<String> = Vec::new();
                r.push(atom.clone());
                proof {
                    assert(views_of(r@) =~= seq![atom@]);
                }
                r
            }
            KeywordValue::Optional { value } => {
                let mut inner = value.collect_variations();
                let ghost iv = inner@;
                inner.insert(0, String::new());
                proof {
                    assert(views_of(inner@) =~= seq![Seq::<char>::empty()] + views_of(iv));
                }
                inner
            }
            KeywordValue::Choice { values } => {
                let r = collect_choice(values, 0);
                proof {
                    assert(values@.skip(0) =~= values@);
                }
                r
            }
            KeywordValue::Sequence { values } => {
                let r = collect_sequence(values, 0);
                proof {
                    assert(values@.skip(0) =~= values@);
                }
                r
            }
        }
    }
}

/// Concatenates the variations of the remaining choice branches.
#[verifier::loop_isolation(false)]
fn collect_choice(values: &Vec<KeywordValue>, from: usize) -> (r: Vec<String>)
    requires
        from <= values@.len(),
    ensures
        views_of(r@) == choice_variations(values@.skip(from as int)),
    decreases *values, values@.len() - from,
{
    if from == values.len() {
        let r: Vec<String> = Vec::new();
        proof {
            assert(values@.skip(from as int) =~= Seq::<KeywordValue>::empty());
            assert(views_of(r@) =~= choice_variations(values@.skip(from as int)));
        }
        return r;
    }
    let mut r = values[from].collect_variations();
    let ghost head = r@;
    let mut rest = collect_choice(values, from + 1);
    let ghost tail = rest@;
    r.append(&mut rest);
    proof {
        assert(values@.skip(from as int)[0] == values@[from as int]);
        assert(values@.skip(from as int).drop_first() =~= values@.skip(from + 1));
        assert(views_of(r@) =~= views_of(head) + views_of(tail));
    }
    r
}

/// Cross product of the variations of the remaining sequence members, the
/// earliest member varying slowest.
#[verifier::loop_isolation(false)]
fn collect_sequence(values: &Vec<KeywordValue>, from: usize) -> (r: Vec<String>)
    requires
        from <= values@.len(),
    ensures
        views_of(r@) == sequence_variations(values@.skip(from as int)),
    decreases *values, values@.len() - from,
{
    if from == values.len() {
        let mut r: Vec<String> = Vec::new();
        r.push(String::new());
        proof {
            assert(values@.skip(from as int) =~= Seq::<KeywordValue>::empty());
            assert(views_of(r@) =~= seq![Seq::<char>::empty()]);
        }
        return r;
    }
    let firsts = values[from].collect_variations();
    let rests = collect_sequence(values, from + 1);
    let ghost fv = views_of(firsts@);
    let ghost rv = views_of(rests@);
    let mut out: Vec<String> = Vec::new();
    proof {
        assert(fv.take(0) =~= Seq::<Seq<char>>::empty());
        assert(prefix_all(fv.take(0), rv) == Seq::<Seq<char>>::empty());
        assert(views_of(out@) =~= prefix_all(fv.take(0), rv));
    }
    let mut fi: usize = 0;
    while fi < firsts.len()
        invariant
            fi <= firsts@.len(),
            views_of(out@) == prefix_all(fv.take(fi as int), rv),
        decreases firsts@.len() - fi,
    {
        let ghost before = out@;
        let mut ri: usize = 0;
        while ri < rests.len()
            invariant
                ri <= rests@.len(),
                views_of(out@) == prefix_all(fv.take(fi as int), rv) + Seq::new(
                    ri as nat,
                    |k: int| fv[fi as int] + rv[k],
                ),
            decreases rests@.len() - ri,
        {
            let ghost ov = out@;
            let mut s2 = firsts[fi].clone();
            s2.push_str(rests[ri].as_str());
            let ghost s2v = s2@;
            out.push(s2);
            proof {
                let target = prefix_all(fv.take(fi as int), rv) + Seq::new(
                    (ri + 1) as nat,
                    |k: int| fv[fi as int] + rv[k],
                );
                assert(s2v == fv[fi as int] + rv[ri as int]);
                assert(views_of(out@).len() == target.len());
                assert forall|j: int| 0 <= j < target.len() implies views_of(out@)[j]
                    == target[j] by {
                    assert(views_of(out@)[j] == out@[j]@);
                    if j < ov.len() {
                        assert(out@[j] == ov[j]);
                        assert(views_of(ov)[j] == ov[j]@);
                    } else {
                        assert(out@[j] == ov.push(out@[ov.len() as int])[j]);
                        assert(out@[j]@ == s2v);
                    }
                }
                assert(views_of(out@) =~= target);
            }
            ri = ri + 1;
        }
        proof {
            assert(Seq::new(rests@.len(), |k: int| fv[fi as int] + rv[k]) =~= Seq::new(
                rv.len(),
                |k: int| fv[fi as int] + rv[k],
            ));
            lemma_prefix_all_push(fv.take(fi as int), fv[fi as int], rv);
            assert(fv.take(fi as int).push(fv[fi as int]) =~= fv.take(fi + 1));
            assert(views_of(out@) =~= prefix_all(fv.take(fi + 1), rv));
        }
        fi = fi + 1;
    }
    proof {
        assert(fv.take(fv.len() as int) =~= fv);
        assert(values@.skip(from as int)[0] == values@[from as int]);
        assert(values@.skip(from as int).drop_first() =~= values@.skip(from + 1));
    }
    out
}

} // verus!
