use vstd::prelude::*;

use crate::version::Version;

verus! {

/// The top-level description of a grammar manifest: its title, root
/// production and sectioned table of contents.
#[derive(Debug)]
pub struct Manifest {
    pub title: String,
    pub root_production: String,
    pub sections: Vec<Section>,
    pub versions: Vec<Version>,
}

#[derive(Debug)]
pub struct Section {
    pub title: String,
    pub topics: Vec<Topic>,
}

#[derive(Debug)]
pub struct Topic {
    pub title: String,
    pub definition: Option<String>,
}

/// What category a named production belongs to.
#[derive(Clone, Copy, Debug, PartialEq, Eq, Structural)]
pub enum ProductionKind {
    Rule,
    Trivia,
    Token,
}

/// A production's body, either one expression for all versions or one per
/// introducing version.
#[derive(Debug)]
pub enum ProductionVersions {
    Unversioned(Box<Expression>),
    Versioned(Vec<(Version, Expression)>),
}

#[derive(Debug)]
pub struct Production {
    pub name: String,
    pub kind: ProductionKind,
    pub versions: ProductionVersions,
}

impl Production {
    pub fn is_token(&self) -> (r: bool)
        ensures
            r == (self.kind == ProductionKind::Token),
    {
        match self.kind {
            ProductionKind::Token => true,
            _ => false,
        }
    }
}

/// One grammar expression: a configuration plus its compositional shape.
#[derive(Debug)]
pub struct Expression {
    pub config: ExpressionConfig,
    pub ebnf: EBNF,
}

#[derive(Debug)]
pub struct EBNFDifference {
    pub minuend: Box<Expression>,
    pub subtrahend: Box<Expression>,
}

#[derive(Clone, Copy, Debug, PartialEq, Eq, Structural)]
pub struct EBNFRange {
    pub from: char,
    pub to: char,
}

#[derive(Debug)]
pub struct EBNFRepeat {
    pub min: usize,
    pub max: usize,
    pub expr: Box<Expression>,
}

#[derive(Debug)]
pub struct EBNFSeparatedBy {
    pub expr: Box<Expression>,
    pub separator: String,
}

#[derive(Debug)]
pub struct EBNFDelimitedBy {
    pub open: String,
    pub expr: Box<Expression>,
    pub close: String,
}

/// The compositional shapes a production body can take.
#[derive(Debug)]
pub enum EBNF {
    Choice(Vec<Expression>),
    DelimitedBy(EBNFDelimitedBy),
    Difference(EBNFDifference),
    Not(Box<Expression>),
    OneOrMore(Box<Expression>),
    Optional(Box<Expression>),
    Range(EBNFRange),
    Reference(String),
    Repeat(EBNFRepeat),
    SeparatedBy(EBNFSeparatedBy),
    Sequence(Vec<Expression>),
    Terminal(String),
    ZeroOrMore(Box<Expression>),
}

/// How tightly each shape binds when a body is written without grouping.
pub open spec fn spec_precedence(e: EBNF) -> int {
    match e {
        EBNF::OneOrMore(..) => 0,
        EBNF::Optional(..) => 0,
        EBNF::Range { .. } => 0,
        EBNF::Reference(..) => 0,
        EBNF::Repeat(..) => 0,
        EBNF::SeparatedBy(..) => 0,
        EBNF::Terminal(..) => 0,
        EBNF::ZeroOrMore(..) => 0,
        EBNF::Not(..) => 1,
        EBNF::Difference { .. } => 2,
        EBNF::DelimitedBy(..) => 3,
        EBNF::Sequence(..) => 3,
        EBNF::Choice(..) => 4,
    }
}

impl Expression {
    pub fn precedence(&self) -> (r: u8)
        ensures
            r == spec_precedence(self.ebnf),
    {
        match &self.ebnf {
            EBNF::OneOrMore(..) | EBNF::Optional(..) | EBNF::Range { .. } | EBNF::Reference(..)
                | EBNF::Repeat(..) | EBNF::SeparatedBy(..) | EBNF::Terminal(..)
                | EBNF::ZeroOrMore(..) => 0,
            EBNF::Not(..) => 1,
            EBNF::Difference { .. } => 2,
            EBNF::DelimitedBy(..) | EBNF::Sequence(..) => 3,
            EBNF::Choice(..) => 4,
        }
    }
}

/// Extra configuration a grammar expression may carry.
#[derive(Debug)]
pub struct ExpressionConfig {
    pub name: Option<String>,
    pub parser_type: ParserType,
    pub lookahead: Option<Box<Expression>>,
    pub associativity: Option<ExpressionAssociativity>,
}

pub open spec fn config_is_default(c: ExpressionConfig) -> bool {
    &&& c.name is None
    &&& c.parser_type == ParserType::Default
    &&& c.lookahead is None
    &&& c.associativity is None
}

impl ExpressionConfig {
    pub fn is_default(&self) -> (r: bool)
        ensures
            r == config_is_default(*self),
    {
        let pt = match self.parser_type {
            ParserType::Default => true,
            ParserType::Precedence => false,
        };
        self.name.is_none() && pt && self.lookahead.is_none() && self.associativity.is_none()
    }
}

#[derive(Clone, Copy, Debug, PartialEq, Eq, Structural)]
pub enum ExpressionAssociativity {
    Left,
    Right,
}

#[derive(Clone, Copy, Debug, PartialEq, Eq, Structural)]
pub enum ParserType {
    Default,
    Precedence,
}

impl Default for ParserType {
    fn default() -> (r: Self)
        ensures
            r == ParserType::Default,
    {
        ParserType::Default
    }
}

impl ParserType {
    pub fn is_default(&self) -> (r: bool)
        ensures
            r == (*self == ParserType::Default),
    {
        match self {
            ParserType::Default => true,
            ParserType::Precedence => false,
        }
    }
}

} // verus!
