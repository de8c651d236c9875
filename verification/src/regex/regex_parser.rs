//! Recursive-descent parsing of regex tokens.
//!
//! Grammar, loosest to tightest binding (alternation weakest, repetition
//! strongest); concatenation is implicit between adjacent terms, with `.`
//! as an optional explicit separator:
//!
//! ```text
//! expression    := union
//! union         := concatenation ('|' concatenation)*
//! concatenation := quantified (('.')? quantified)*
//! quantified    := plus ('?')?          -- x? rewrites to Union(x, epsilon)
//! plus          := starred ('+')?       -- x+ rewrites to Concat(x, Star(x))
//! starred       := primary ('*')?       -- x* rewrites to Star(x)
//! primary       := LITERAL | '(' union ')' | LITERAL GROUP
//! ```
//!
//! Parsing fails — with no partial tree retained — when a primary is
//! expected but the next token cannot start one, when a parenthesized
//! group lacks its closing parenthesis, or when the token stream is
//! exhausted mid-production.

use vstd::prelude::*;

use crate::regex::regex_lexer::{token_views, SpecToken, Token};
use crate::regex::{regex_wf, Regex};

verus! {

/// The position is past the last token or on the terminal `Eof`.
pub open spec fn at_end_tok(ts: Seq<SpecToken>, i: int) -> bool {
    i >= ts.len() || ts[i] is Eof
}

/// The left-associated `Union` chain over the literal members of a group,
/// in sequence order: `{c1, c2, c3}` becomes
/// `Union(Union(Literal(c1), Literal(c2)), Literal(c3))`.
pub open spec fn group_regex(cs: Seq<char>) -> Regex
    decreases cs.len(),
{
    if cs.len() == 0 {
        Regex::Literal(None)
    } else if cs.len() == 1 {
        Regex::Literal(Some(cs[0]))
    } else {
        Regex::Union(
            Box::new(group_regex(cs.drop_last())),
            Box::new(Regex::Literal(Some(cs.last()))),
        )
    }
}

/// Parses one primary: a literal, a parenthesized union, or a literal
/// group (refused when empty, so that no parse yields a placeholder
/// tree).  Yields the tree and the position just past it.
pub open spec fn spec_primary(ts: Seq<SpecToken>, i: int) -> Option<(Regex, int)>
    decreases ts.len() - i, 0int,
{
    if i < 0 || i >= ts.len() {
        None
    } else {
        match ts[i] {
            SpecToken::Literal(c) => Some((Regex::Literal(Some(c)), i + 1)),
            SpecToken::LeftParen => match spec_union(ts, i + 1) {
                None => None,
                Some((r, j)) => if j < ts.len() && ts[j] is RightParen {
                    Some((r, j + 1))
                } else {
                    None
                },
            },
            SpecToken::LiteralGroup(cs) => if cs.len() == 0 {
                None
            } else {
                Some((group_regex(cs), i + 1))
            },
            _ => None,
        }
    }
}

/// Parses a starred term: a primary with one optional `*`.
pub open spec fn spec_star(ts: Seq<SpecToken>, i: int) -> Option<(Regex, int)>
    decreases ts.len() - i, 1int,
{
    match spec_primary(ts, i) {
        None => None,
        Some((r, j)) => if j < ts.len() && ts[j] is Star {
            Some((Regex::Star(Box::new(r)), j + 1))
        } else {
            Some((r, j))
        },
    }
}

/// Parses a plus term: a starred term with one optional `+`, rewritten to
/// `Concat(x, Star(x))` with two copies of the operand.
pub open spec fn spec_plus(ts: Seq<SpecToken>, i: int) -> Option<(Regex, int)>
    decreases ts.len() - i, 2int,
{
    match spec_star(ts, i) {
        None => None,
        Some((r, j)) => if j < ts.len() && ts[j] is Plus {
            Some((Regex::Concat(Box::new(r), Box::new(Regex::Star(Box::new(r)))), j + 1))
        } else {
            Some((r, j))
        },
    }
}

/// Parses a quantified term: a plus term with one optional `?`, rewritten
/// to `Union(x, epsilon)`.
pub open spec fn spec_question(ts: Seq<SpecToken>, i: int) -> Option<(Regex, int)>
    decreases ts.len() - i, 3int,
{
    match spec_plus(ts, i) {
        None => None,
        Some((r, j)) => if j < ts.len() && ts[j] is Question {
            Some((Regex::Union(Box::new(r), Box::new(Regex::Literal(None))), j + 1))
        } else {
            Some((r, j))
        },
    }
}

/// Continues a concatenation already holding `r`: stops before `|`, `)`
/// or the end, else parses the next quantified term (an explicit `.`
/// separator first, if present) and composes left-associatively.
pub open spec fn spec_concat_rest(ts: Seq<SpecToken>, r: Regex, i: int) -> Option<(Regex, int)>
    decreases ts.len() - i, 4int,
{
    if at_end_tok(ts, i) || ts[i] is Union || ts[i] is RightParen {
        Some((r, i))
    } else {
        let i2 = if ts[i] is Concatenate {
            i + 1
        } else {
            i
        };
        match spec_question(ts, i2) {
            None => None,
            Some((r2, j2)) => if i < j2 && j2 <= ts.len() {
                spec_concat_rest(ts, Regex::Concat(Box::new(r), Box::new(r2)), j2)
            } else {
                None
            },
        }
    }
}

/// Parses a concatenation: one or more quantified terms.
pub open spec fn spec_concat(ts: Seq<SpecToken>, i: int) -> Option<(Regex, int)>
    decreases ts.len() - i, 5int,
{
    match spec_question(ts, i) {
        None => None,
        Some((r, j)) => if i < j && j <= ts.len() {
            spec_concat_rest(ts, r, j)
        } else {
            None
        },
    }
}

/// Continues a union already holding `r`: while a `|` follows, parses the
/// next concatenation and composes left-associatively.
pub open spec fn spec_union_rest(ts: Seq<SpecToken>, r: Regex, i: int) -> Option<(Regex, int)>
    decreases ts.len() - i, 6int,
{
    if i < ts.len() && ts[i] is Union {
        match spec_concat(ts, i + 1) {
            None => None,
            Some((r2, j2)) => if i < j2 && j2 <= ts.len() {
                spec_union_rest(ts, Regex::Union(Box::new(r), Box::new(r2)), j2)
            } else {
                None
            },
        }
    } else {
        Some((r, i))
    }
}

/// Parses a union: one or more concatenations separated by `|`.
pub open spec fn spec_union(ts: Seq<SpecToken>, i: int) -> Option<(Regex, int)>
    decreases ts.len() - i, 7int,
{
    match spec_concat(ts, i) {
        None => None,
        Some((r, j)) => if i < j && j <= ts.len() {
            spec_union_rest(ts, r, j)
        } else {
            None
        },
    }
}

/// Parses a whole token sequence from position `i`: one tree covering
/// everything up to the terminal `Eof`, or `None` — also when nothing but
/// `Eof` is there, since an empty input derives no expression.
pub open spec fn spec_parse(ts: Seq<SpecToken>, i: int) -> Option<Regex> {
    match spec_union(ts, i) {
        None => None,
        Some((r, j)) => if at_end_tok(ts, j) {
            Some(r)
        } else {
            None
        },
    }
}

/// A nonempty group parses to a well-formed chain.
proof fn lemma_group_regex_wf(cs: Seq<char>)
    requires
        cs.len() >= 1,
    ensures
        regex_wf(group_regex(cs)),
    decreases cs.len(),
{
    reveal_with_fuel(regex_wf, 3);
    if cs.len() > 1 {
        lemma_group_regex_wf(cs.drop_last());
    }
}

/// A successful primary moves forward, stays inside the tokens, and
/// yields a well-formed tree.
proof fn lemma_primary_ok(ts: Seq<SpecToken>, i: int)
    ensures
        spec_primary(ts, i) matches Some((r, j)) ==> i < j <= ts.len() && regex_wf(r),
    decreases ts.len() - i, 0int,
{
    if 0 <= i < ts.len() {
        match ts[i] {
            SpecToken::LeftParen => {
                lemma_union_ok(ts, i + 1);
            },
            SpecToken::LiteralGroup(cs) => {
                if cs.len() >= 1 {
                    lemma_group_regex_wf(cs);
                }
            },
            _ => {},
        }
    }
}

/// A successful starred term moves forward and yields a well-formed tree.
proof fn lemma_star_ok(ts: Seq<SpecToken>, i: int)
    ensures
        spec_star(ts, i) matches Some((r, j)) ==> i < j <= ts.len() && regex_wf(r),
    decreases ts.len() - i, 1int,
{
    lemma_primary_ok(ts, i);
}

/// A successful plus term moves forward and yields a well-formed tree.
proof fn lemma_plus_ok(ts: Seq<SpecToken>, i: int)
    ensures
        spec_plus(ts, i) matches Some((r, j)) ==> i < j <= ts.len() && regex_wf(r),
    decreases ts.len() - i, 2int,
{
    reveal_with_fuel(regex_wf, 3);
    lemma_star_ok(ts, i);
}

/// A successful quantified term moves forward and yields a well-formed
/// tree.
proof fn lemma_question_ok(ts: Seq<SpecToken>, i: int)
    ensures
        spec_question(ts, i) matches Some((r, j)) ==> i < j <= ts.len() && regex_wf(r),
    decreases ts.len() - i, 3int,
{
    reveal_with_fuel(regex_wf, 3);
    lemma_plus_ok(ts, i);
}

/// A successful concatenation tail stays in place or moves forward and
/// keeps the tree well-formed.
proof fn lemma_concat_rest_ok(ts: Seq<SpecToken>, r: Regex, i: int)
    ensures
        spec_concat_rest(ts, r, i) matches Some((r2, j)) ==> i <= j <= ts.len() || j == i,
        spec_concat_rest(ts, r, i) matches Some((r2, j)) ==> (i <= ts.len() ==> i <= j
            <= ts.len()),
        regex_wf(r) ==> (spec_concat_rest(ts, r, i) matches Some((r2, j)) ==> regex_wf(r2)),
    decreases ts.len() - i, 4int,
{
    if !(at_end_tok(ts, i) || ts[i] is Union || ts[i] is RightParen) {
        let i2 = if ts[i] is Concatenate {
            i + 1
        } else {
            i
        };
        lemma_question_ok(ts, i2);
        match spec_question(ts, i2) {
            Some((r2, j2)) => {
                if i < j2 && j2 <= ts.len() {
                    lemma_concat_rest_ok(ts, Regex::Concat(Box::new(r), Box::new(r2)), j2);
                }
            },
            None => {},
        }
    }
}

/// A successful concatenation moves forward and yields a well-formed
/// tree.
proof fn lemma_concat_ok(ts: Seq<SpecToken>, i: int)
    ensures
        spec_concat(ts, i) matches Some((r, j)) ==> i < j <= ts.len() && regex_wf(r),
    decreases ts.len() - i, 5int,
{
    lemma_question_ok(ts, i);
    match spec_question(ts, i) {
        Some((r, j)) => {
            if i < j && j <= ts.len() {
                lemma_concat_rest_ok(ts, r, j);
            }
        },
        None => {},
    }
}

/// A successful union tail stays in place or moves forward and keeps the
/// tree well-formed.
proof fn lemma_union_rest_ok(ts: Seq<SpecToken>, r: Regex, i: int)
    ensures
        spec_union_rest(ts, r, i) matches Some((r2, j)) ==> (i <= ts.len() ==> i <= j <= ts.len()),
        regex_wf(r) ==> (spec_union_rest(ts, r, i) matches Some((r2, j)) ==> regex_wf(r2)),
    decreases ts.len() - i, 6int,
{
    if i < ts.len() && ts[i] is Union {
        lemma_concat_ok(ts, i + 1);
        match spec_concat(ts, i + 1) {
            Some((r2, j2)) => {
                if i < j2 && j2 <= ts.len() {
                    lemma_union_rest_ok(ts, Regex::Union(Box::new(r), Box::new(r2)), j2);
                }
            },
            None => {},
        }
    }
}

/// A successful union moves forward, stays inside the tokens, and yields
/// a well-formed tree.
proof fn lemma_union_ok(ts: Seq<SpecToken>, i: int)
    ensures
        spec_union(ts, i) matches Some((r, j)) ==> i < j <= ts.len() && regex_wf(r),
    decreases ts.len() - i, 7int,
{
    lemma_concat_ok(ts, i);
    match spec_concat(ts, i) {
        Some((r, j)) => {
            if i < j && j <= ts.len() {
                lemma_union_rest_ok(ts, r, j);
            }
        },
        None => {},
    }
}

/// Every tree a successful parse yields is well-formed: the placeholder
/// `Empty` never escapes the parser.
pub proof fn lemma_spec_parse_wf(ts: Seq<SpecToken>, i: int)
    ensures
        spec_parse(ts, i) matches Some(r) ==> regex_wf(r),
{
    lemma_union_ok(ts, i);
}

/// A fully owned copy of a group's members.
fn clone_chars(v: &Vec<char>) -> (r: Vec<char>)
    ensures
        r@ == v@,
{
    let mut r: Vec<char> = Vec::new();
    let mut k: usize = 0;
    while k < v.len()
        invariant
            k <= v@.len(),
            r@ == v@.subrange(0, k as int),
        decreases v@.len() - k,
    {
        r.push(v[k]);
        proof {
            assert(v@.subrange(0, k as int).push(v@[k as int]) =~= v@.subrange(0, k + 1));
        }
        k = k + 1;
    }
    proof {
        assert(v@.subrange(0, v@.len() as int) =~= v@);
    }
    r
}

/// The parser: a cursor over a token sequence.
pub struct Parser {
    pub tokens: Vec<Token>,
    pub current: usize,
}

impl Parser {
    /// The views of the parser's tokens.
    pub open spec fn toks(self) -> Seq<SpecToken> {
        token_views(self.tokens@)
    }

    /// The cursor never points past the end of the tokens.  The
    /// constructor establishes this and every method keeps it.
    pub open spec fn wf(self) -> bool {
        self.current <= self.tokens@.len()
    }

    pub fn new(tokens: Vec<Token>) -> (p: Parser)
        ensures
            p.tokens == tokens,
            p.current == 0,
            p.wf(),
    {
        Parser { tokens, current: 0 }
    }

    /// Whether the cursor has passed the last token or stands on `Eof`.
    pub fn is_at_end(&self) -> (r: bool)
        ensures
            r == at_end_tok(self.toks(), self.current as int),
    {
        if self.current >= self.tokens.len() {
            true
        } else {
            matches!(self.tokens[self.current], Token::Eof)
        }
    }

    /// The token under the cursor, if any.
    pub fn peek(&self) -> (r: Option<&Token>)
        ensures
            self.current < self.tokens@.len() ==> (r matches Some(t) && *t == self.tokens@[self.current as int]),
            self.current >= self.tokens@.len() ==> r is None,
    {
        if self.current < self.tokens.len() {
            Some(&self.tokens[self.current])
        } else {
            None
        }
    }

    /// Parses the whole token sequence: one tree covering everything up
    /// to the terminal `Eof`, or `None` when no expression derives it —
    /// in particular when only `Eof` is there, or when tokens remain
    /// after the widest expression the grammar covers.
    pub fn parse(&mut self) -> (r: Option<Regex>)
        requires
            old(self).wf(),
        ensures
            final(self).tokens == old(self).tokens,
            final(self).wf(),
            r == spec_parse(old(self).toks(), old(self).current as int),
            r matches Some(rx) ==> regex_wf(rx),
    {
        proof {
            lemma_spec_parse_wf(self.toks(), self.current as int);
        }
        match self.union() {
            None => None,
            Some(rx) => {
                if self.is_at_end() {
                    Some(rx)
                } else {
                    None
                }
            },
        }
    }

    /// Parses a union: one or more concatenations separated by `|`,
    /// composed left-associatively.
    #[verifier::loop_isolation(false)]
    pub fn union(&mut self) -> (r: Option<Regex>)
        requires
            old(self).wf(),
        ensures
            final(self).tokens == old(self).tokens,
            final(self).wf(),
            ({
                match spec_union(old(self).toks(), old(self).current as int) {
                    None => r is None,
                    Some((rx, j)) => (r matches Some(got) && got == rx
                        && final(self).current as int == j),
                }
            }),
        decreases old(self).tokens@.len() - old(self).current, 7int,
    {
        let ghost ts = self.toks();
        let ghost i0: int = self.current as int;
        proof {
            lemma_concat_ok(ts, i0);
        }
        let first = self.concatenate();
        let mut rx = match first {
            None => {
                return None;
            },
            Some(got) => got,
        };
        let mut looping = true;
        while looping
            invariant
                self.tokens == old(self).tokens,
                self.wf(),
                i0 < self.current as int <= ts.len(),
                spec_union(ts, i0) == spec_union_rest(ts, rx, self.current as int),
                !looping ==> spec_union_rest(ts, rx, self.current as int) == Some(
                    (rx, self.current as int),
                ),
            decreases ts.len() - self.current + (if looping {
                1int
            } else {
                0int
            }),
        {
            let next_is_union = self.current < self.tokens.len() && matches!(
                self.tokens[self.current],
                Token::Union,
            );
            if next_is_union {
                self.current = self.current + 1;
                proof {
                    lemma_concat_ok(ts, self.current as int);
                }
                match self.concatenate() {
                    None => {
                        return None;
                    },
                    Some(got) => {
                        rx = Regex::Union(Box::new(rx), Box::new(got));
                    },
                }
            } else {
                looping = false;
            }
        }
        Some(rx)
    }

    /// Parses a concatenation: one or more quantified terms, adjacent or
    /// separated by an explicit `.`, composed left-associatively; it
    /// stops before `|`, `)` or the end of the tokens.
    #[verifier::loop_isolation(false)]
    pub fn concatenate(&mut self) -> (r: Option<Regex>)
        requires
            old(self).wf(),
        ensures
            final(self).tokens == old(self).tokens,
            final(self).wf(),
            ({
                match spec_concat(old(self).toks(), old(self).current as int) {
                    None => r is None,
                    Some((rx, j)) => (r matches Some(got) && got == rx
                        && final(self).current as int == j),
                }
            }),
        decreases old(self).tokens@.len() - old(self).current, 5int,
    {
        let ghost ts = self.toks();
        let ghost i0: int = self.current as int;
        proof {
            lemma_question_ok(ts, i0);
        }
        let first = self.question();
        let mut rx = match first {
            None => {
                return None;
            },
            Some(got) => got,
        };
        let mut looping = true;
        while looping
            invariant
                self.tokens == old(self).tokens,
                self.wf(),
                i0 < self.current as int <= ts.len(),
                spec_concat(ts, i0) == spec_concat_rest(ts, rx, self.current as int),
                !looping ==> spec_concat_rest(ts, rx, self.current as int) == Some(
                    (rx, self.current as int),
                ),
            decreases ts.len() - self.current + (if looping {
                1int
            } else {
                0int
            }),
        {
            let stop = if self.current >= self.tokens.len() {
                true
            } else {
                matches!(
                    self.tokens[self.current],
                    Token::Eof | Token::Union | Token::RightParen,
                )
            };
            if stop {
                looping = false;
            } else {
                let explicit_dot = matches!(self.tokens[self.current], Token::Concatenate);
                if explicit_dot {
                    self.current = self.current + 1;
                }
                proof {
                    lemma_question_ok(ts, self.current as int);
                }
                match self.question() {
                    None => {
                        return None;
                    },
                    Some(got) => {
                        rx = Regex::Concat(Box::new(rx), Box::new(got));
                    },
                }
            }
        }
        Some(rx)
    }

    /// Parses a quantified term: a plus term followed by at most one `?`,
    /// which rewrites the term `x` into `Union(x, epsilon)`.
    pub fn question(&mut self) -> (r: Option<Regex>)
        requires
            old(self).wf(),
        ensures
            final(self).tokens == old(self).tokens,
            final(self).wf(),
            ({
                match spec_question(old(self).toks(), old(self).current as int) {
                    None => r is None,
                    Some((rx, j)) => (r matches Some(got) && got == rx
                        && final(self).current as int == j),
                }
            }),
        decreases old(self).tokens@.len() - old(self).current, 3int,
    {
        proof {
            lemma_plus_ok(self.toks(), self.current as int);
        }
        match self.plus() {
            None => None,
            Some(rx) => {
                let quantified = self.current < self.tokens.len() && matches!(
                    self.tokens[self.current],
                    Token::Question,
                );
                if quantified {
                    self.current = self.current + 1;
                    Some(Regex::Union(Box::new(rx), Box::new(Regex::Literal(None))))
                } else {
                    Some(rx)
                }
            },
        }
    }

    /// Parses a plus term: a starred term followed by at most one `+`,
    /// which rewrites the term `x` into `Concat(x, Star(x))` with two
    /// independently owned copies of `x` — each later compiles to its own
    /// automaton states.
    pub fn plus(&mut self) -> (r: Option<Regex>)
        requires
            old(self).wf(),
        ensures
            final(self).tokens == old(self).tokens,
            final(self).wf(),
            ({
                match spec_plus(old(self).toks(), old(self).current as int) {
                    None => r is None,
                    Some((rx, j)) => (r matches Some(got) && got == rx
                        && final(self).current as int == j),
                }
            }),
        decreases old(self).tokens@.len() - old(self).current, 2int,
    {
        proof {
            lemma_star_ok(self.toks(), self.current as int);
        }
        match self.star() {
            None => None,
            Some(rx) => {
                let quantified = self.current < self.tokens.len() && matches!(
                    self.tokens[self.current],
                    Token::Plus,
                );
                if quantified {
                    self.current = self.current + 1;
                    let copy = rx.duplicate();
                    Some(Regex::Concat(Box::new(copy), Box::new(Regex::Star(Box::new(rx)))))
                } else {
                    Some(rx)
                }
            },
        }
    }

    /// Parses a starred term: a primary followed by at most one `*`,
    /// which rewrites the term `x` into `Star(x)`.
    pub fn star(&mut self) -> (r: Option<Regex>)
        requires
            old(self).wf(),
        ensures
            final(self).tokens == old(self).tokens,
            final(self).wf(),
            ({
                match spec_star(old(self).toks(), old(self).current as int) {
                    None => r is None,
                    Some((rx, j)) => (r matches Some(got) && got == rx
                        && final(self).current as int == j),
                }
            }),
        decreases old(self).tokens@.len() - old(self).current, 1int,
    {
        proof {
            lemma_primary_ok(self.toks(), self.current as int);
        }
        match self.primary() {
            None => None,
            Some(rx) => {
                let starred = self.current < self.tokens.len() && matches!(
                    self.tokens[self.current],
                    Token::Star,
                );
                if starred {
                    self.current = self.current + 1;
                    Some(Regex::Star(Box::new(rx)))
                } else {
                    Some(rx)
                }
            },
        }
    }

    /// Parses one primary expression: a bare literal becomes
    /// `Literal(Some(c))`; a parenthesized group parses a full union and
    /// requires the matching `)`; a literal group desugars to the
    /// left-associated `Union` chain over its members, in group order.
    /// Any other token — and an empty group — fails the parse.
    #[verifier::loop_isolation(false)]
    pub fn primary(&mut self) -> (r: Option<Regex>)
        requires
            old(self).wf(),
        ensures
            final(self).tokens == old(self).tokens,
            final(self).wf(),
            ({
                match spec_primary(old(self).toks(), old(self).current as int) {
                    None => r is None,
                    Some((rx, j)) => (r matches Some(got) && got == rx
                        && final(self).current as int == j),
                }
            }),
        decreases old(self).tokens@.len() - old(self).current, 0int,
    {
        let ghost ts = self.toks();
        if self.current >= self.tokens.len() {
            return None;
        }
        let is_literal = matches!(self.tokens[self.current], Token::Literal(_));
        if is_literal {
            let c = match &self.tokens[self.current] {
                Token::Literal(c) => *c,
                _ => unreached(),
            };
            self.current = self.current + 1;
            return Some(Regex::Literal(Some(c)));
        }
        let is_paren = matches!(self.tokens[self.current], Token::LeftParen);
        if is_paren {
            self.current = self.current + 1;
            proof {
                lemma_union_ok(ts, self.current as int);
            }
            let inner = match self.union() {
                None => {
                    return None;
                },
                Some(got) => got,
            };
            let closed = self.current < self.tokens.len() && matches!(
                self.tokens[self.current],
                Token::RightParen,
            );
            if closed {
                self.current = self.current + 1;
                return Some(inner);
            }
            return None;
        }
        let is_group = matches!(self.tokens[self.current], Token::LiteralGroup(_));
        if is_group {
            let members = match &self.tokens[self.current] {
                Token::LiteralGroup(cs) => clone_chars(cs),
                _ => unreached(),
            };
            if members.len() == 0 {
                return None;
            }
            self.current = self.current + 1;
            let mut rx = Regex::Literal(Some(members[0]));
            proof {
                assert(members@.subrange(0, 1) =~= seq![members@[0]]);
            }
            let mut k: usize = 1;
            while k < members.len()
                invariant
                    1 <= k <= members@.len(),
                    rx == group_regex(members@.subrange(0, k as int)),
                decreases members@.len() - k,
            {
                rx = Regex::Union(Box::new(rx), Box::new(Regex::Literal(Some(members[k]))));
                proof {
                    let pre = members@.subrange(0, k as int);
                    let post = members@.subrange(0, k + 1);
                    assert(post.drop_last() =~= pre);
                    assert(post.last() == members@[k as int]);
                }
                k = k + 1;
            }
            proof {
                assert(members@.subrange(0, members@.len() as int) =~= members@);
            }
            return Some(rx);
        }
        None
    }
}

} // verus!
