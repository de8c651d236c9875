//! The regular-expression syntax tree and its algebraic constructors.

pub mod regex_lexer;
pub mod regex_parser;

use vstd::prelude::*;

use crate::regex::regex_lexer::{spec_tokenize, Lexer};
use crate::regex::regex_parser::{spec_parse, Parser};

verus! {

/// The syntax tree a whole pattern denotes: its tokens parsed, with the
/// epsilon expression standing in when tokenizing or parsing fails.
pub open spec fn spec_regex_of(s: Seq<char>) -> Regex {
    match spec_tokenize(s) {
        None => Regex::Literal(None),
        Some(ts) => match spec_parse(ts, 0) {
            None => Regex::Literal(None),
            Some(r) => r,
        },
    }
}

/// A regular expression over single characters.
///
/// `Literal(None)` is the epsilon expression: it matches without consuming
/// input.  `Empty` is a placeholder that stands for "no expression yet";
/// a successful parse never produces it (see [`regex_wf`]), and the
/// automaton builder refuses it by precondition.
#[derive(Debug, PartialEq, Eq)]
pub enum Regex {
    Literal(Option<char>),
    Concat(Box<Regex>, Box<Regex>),
    Union(Box<Regex>, Box<Regex>),
    Star(Box<Regex>),
    Empty,
}

/// Well-formedness of a syntax tree: the placeholder `Empty` occurs
/// nowhere in it.  Every tree a successful parse yields satisfies this.
pub open spec fn regex_wf(r: Regex) -> bool
    decreases r,
{
    match r {
        Regex::Literal(_) => true,
        Regex::Concat(a, b) => regex_wf(*a) && regex_wf(*b),
        Regex::Union(a, b) => regex_wf(*a) && regex_wf(*b),
        Regex::Star(a) => regex_wf(*a),
        Regex::Empty => false,
    }
}

impl Regex {
    /// The placeholder expression.
    pub fn empty() -> (r: Regex)
        ensures
            r == Regex::Empty,
    {
        Regex::Empty
    }

    /// The expression matching exactly the one-character string `c`.
    pub fn char(c: char) -> (r: Regex)
        ensures
            r == Regex::Literal(Some(c)),
    {
        Regex::Literal(Some(c))
    }

    /// The expression matching the empty string.
    pub fn epsilon() -> (r: Regex)
        ensures
            r == Regex::Literal(None::<char>),
    {
        Regex::Literal(None)
    }

    /// Sequential composition: `self` followed by `regex`.
    pub fn concatenate(self, regex: Regex) -> (r: Regex)
        ensures
            r == Regex::Concat(Box::new(self), Box::new(regex)),
    {
        Regex::Concat(Box::new(self), Box::new(regex))
    }

    /// Alternation: `self` or `regex`.
    pub fn union(self, regex: Regex) -> (r: Regex)
        ensures
            r == Regex::Union(Box::new(self), Box::new(regex)),
    {
        Regex::Union(Box::new(self), Box::new(regex))
    }

    /// Zero-or-more repetition of `self`.
    pub fn star(self) -> (r: Regex)
        ensures
            r == Regex::Star(Box::new(self)),
    {
        Regex::Star(Box::new(self))
    }

    /// The whole front end on one pattern: tokenize, then parse.  A
    /// malformed pattern never aborts the pipeline; on a tokenize or a
    /// parse failure it degrades to the epsilon expression, which the
    /// automaton builder accepts like any other tree.
    pub fn from_pattern(pattern: &str) -> (r: Regex)
        ensures
            r == spec_regex_of(pattern@),
            regex_wf(r),
    {
        let mut lexer = Lexer::new(pattern);
        let tokens = match lexer.lex_tokens() {
            None => {
                return Regex::Literal(None);
            },
            Some(v) => v,
        };
        let mut parser = Parser::new(tokens);
        match parser.parse() {
            None => Regex::Literal(None),
            Some(r) => r,
        }
    }

    /// A structurally equal but independently owned copy of the tree.
    ///
    /// The `+` quantifier desugars `x+` into `Concat(x, Star(x))` with two
    /// independent copies of `x`, each later compiled into its own
    /// automaton states; this is the duplication step.
    pub fn duplicate(&self) -> (r: Regex)
        ensures
            r == *self,
        decreases *self,
    {
        match self {
            Regex::Literal(c) => Regex::Literal(*c),
            Regex::Concat(a, b) => Regex::Concat(Box::new(a.duplicate()), Box::new(b.duplicate())),
            Regex::Union(a, b) => Regex::Union(Box::new(a.duplicate()), Box::new(b.duplicate())),
            Regex::Star(a) => Regex::Star(Box::new(a.duplicate())),
            Regex::Empty => Regex::Empty,
        }
    }
}

} // verus!
