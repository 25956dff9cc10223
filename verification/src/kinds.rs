use vstd::prelude::*;

verus! {

/// Tag identifying a terminal (token) production of the grammar.
///
/// The engine is parametric over an opaque set of token tags; the concrete
/// names belong to the generated grammar, not to the runtime.
#[derive(Clone, Copy, Debug, PartialEq, Eq, Structural, Hash)]
pub struct TokenKind(pub u16);

/// Tag identifying a nonterminal (rule) production of the grammar.
#[derive(Clone, Copy, Debug, PartialEq, Eq, Structural, Hash)]
pub struct RuleKind(pub u16);

/// The three shapes a syntax tree node can take.
#[derive(Clone, Copy, Debug, PartialEq, Eq, Structural)]
pub enum NodeType {
    Rule,
    Token,
    Error,
}

/// Copies a token-kind list: recovery hint sets travel into both a tree
/// node and its diagnostic.
pub fn copy_kinds(v: &Vec<TokenKind>) -> (r: Vec<TokenKind>)
    ensures
        r@ == v@,
{
    let mut r: Vec<TokenKind> = Vec::new();
    let mut i: usize = 0;
    while i < v.len()
        invariant
            i <= v@.len(),
            r@ == v@.take(i as int),
        decreases v@.len() - i,
    {
        r.push(v[i]);
        proof {
            assert(v@.take(i as int).push(v@[i as int]) =~= v@.take(i + 1));
        }
        i = i + 1;
    }
    proof {
        assert(v@.take(v@.len() as int) =~= v@);
    }
    r
}

} // verus!
