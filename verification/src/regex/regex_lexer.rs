//! Tokenizing of regex pattern text.
//!
//! The scanner skips whitespace, turns the operator characters into their
//! tokens, collects double-quoted spans and bracketed spans (with `a-b`
//! ranges) into literal groups, and ends every successful scan with one
//! `Eof` token.  A malformed span (unterminated quote or bracket, or an
//! empty group) fails the scan as a whole.

use vstd::prelude::*;

verus! {

/// A token of regex syntax.  A `LiteralGroup` holds the distinct members
/// of a character class, in order of first occurrence.
#[derive(Debug, PartialEq, Eq)]
pub enum Token {
    Literal(char),
    LeftParen,
    RightParen,
    Concatenate,
    Union,
    Star,
    Plus,
    Question,
    LiteralGroup(Vec<char>),
    Eof,
}

/// The mathematical value of a [`Token`]: the same alternatives with the
/// group as a sequence.
pub enum SpecToken {
    Literal(char),
    LeftParen,
    RightParen,
    Concatenate,
    Union,
    Star,
    Plus,
    Question,
    LiteralGroup(Seq<char>),
    Eof,
}

impl View for Token {
    type V = SpecToken;

    open spec fn view(&self) -> SpecToken {
        match self {
            Token::Literal(c) => SpecToken::Literal(*c),
            Token::LeftParen => SpecToken::LeftParen,
            Token::RightParen => SpecToken::RightParen,
            Token::Concatenate => SpecToken::Concatenate,
            Token::Union => SpecToken::Union,
            Token::Star => SpecToken::Star,
            Token::Plus => SpecToken::Plus,
            Token::Question => SpecToken::Question,
            Token::LiteralGroup(cs) => SpecToken::LiteralGroup(cs@),
            Token::Eof => SpecToken::Eof,
        }
    }
}

/// The views of a token sequence.
pub open spec fn token_views(ts: Seq<Token>) -> Seq<SpecToken> {
    ts.map_values(|t: Token| t@)
}

/// The characters the scanner skips between tokens.
pub open spec fn is_ws(c: char) -> bool {
    c == ' ' || c == '\t' || c == '\r' || c == '\n'
}

/// `v` is a Unicode scalar value: a code point that is not a surrogate.
/// These are exactly the values a `char` can hold.
pub open spec fn is_scalar_value(v: int) -> bool {
    0 <= v <= 0x10FFFF && !(0xD800 <= v <= 0xDFFF)
}

/// The characters with code points in `lo..=hi`, in increasing order;
/// code points that are not scalar values (surrogates) have no character
/// and are skipped.
pub open spec fn char_range(lo: int, hi: int) -> Seq<char>
    decreases hi - lo + 1,
{
    if lo > hi {
        Seq::empty()
    } else if is_scalar_value(hi) {
        char_range(lo, hi - 1) + seq![hi as char]
    } else {
        char_range(lo, hi - 1)
    }
}

/// `cs` with duplicates dropped, keeping the first occurrence of each
/// character.
pub open spec fn dedup(cs: Seq<char>) -> Seq<char>
    decreases cs.len(),
{
    if cs.len() == 0 {
        Seq::empty()
    } else {
        let d = dedup(cs.drop_last());
        if d.contains(cs.last()) {
            d
        } else {
            d.push(cs.last())
        }
    }
}

/// The first position at or after `i` holding a non-whitespace character
/// (or the end of the input).
pub open spec fn skip_ws(s: Seq<char>, i: int) -> int
    decreases s.len() - i,
{
    if 0 <= i < s.len() && is_ws(s[i]) {
        skip_ws(s, i + 1)
    } else {
        i
    }
}

/// Scans the contents of a double-quoted span starting at `i` (just past
/// the opening quote): the raw characters up to the closing quote, and the
/// position just past it.  `None` when no closing quote follows.
pub open spec fn spec_quote(s: Seq<char>, i: int) -> Option<(Seq<char>, int)>
    decreases s.len() - i,
{
    if i < 0 || i >= s.len() {
        None
    } else if s[i] == '"' {
        Some((Seq::empty(), i + 1))
    } else {
        match spec_quote(s, i + 1) {
            None => None,
            Some((cs, j)) => Some((seq![s[i]] + cs, j)),
        }
    }
}

/// Scans the contents of a bracketed span starting at `i` (just past the
/// opening bracket): the raw collected characters — each `a-b` form
/// expanded to the inclusive range — up to the closing bracket, and the
/// position just past it.  `None` when no closing bracket follows.  A `-`
/// that is the first or last character of the span, or has no character
/// before it, is a plain member.
pub open spec fn spec_bracket(s: Seq<char>, i: int) -> Option<(Seq<char>, int)>
    decreases s.len() - i,
{
    if i < 0 || i >= s.len() {
        None
    } else if s[i] == ']' {
        Some((Seq::empty(), i + 1))
    } else if i + 1 < s.len() && s[i + 1] == '-' && i + 2 < s.len() && s[i + 2] != ']' {
        match spec_bracket(s, i + 3) {
            None => None,
            Some((cs, j)) => Some((char_range(s[i] as int, s[i + 2] as int) + cs, j)),
        }
    } else {
        match spec_bracket(s, i + 1) {
            None => None,
            Some((cs, j)) => Some((seq![s[i]] + cs, j)),
        }
    }
}

/// Scans one token at position `i`, which must hold a non-whitespace
/// character: the token and the position just past it, or `None` when the
/// text there is malformed (an unterminated quoted or bracketed span, or
/// one that collects no characters).
pub open spec fn spec_lex_token(s: Seq<char>, i: int) -> Option<(SpecToken, int)> {
    if i < 0 || i >= s.len() {
        None
    } else {
        let c = s[i];
        if c == '|' {
            Some((SpecToken::Union, i + 1))
        } else if c == '.' {
            Some((SpecToken::Concatenate, i + 1))
        } else if c == '*' {
            Some((SpecToken::Star, i + 1))
        } else if c == '+' {
            Some((SpecToken::Plus, i + 1))
        } else if c == '?' {
            Some((SpecToken::Question, i + 1))
        } else if c == '(' {
            Some((SpecToken::LeftParen, i + 1))
        } else if c == ')' {
            Some((SpecToken::RightParen, i + 1))
        } else if c == '"' {
            match spec_quote(s, i + 1) {
                None => None,
                Some((cs, j)) => if dedup(cs).len() == 0 {
                    None
                } else {
                    Some((SpecToken::LiteralGroup(dedup(cs)), j))
                },
            }
        } else if c == '[' {
            match spec_bracket(s, i + 1) {
                None => None,
                Some((cs, j)) => if dedup(cs).len() == 0 {
                    None
                } else {
                    Some((SpecToken::LiteralGroup(dedup(cs)), j))
                },
            }
        } else {
            Some((SpecToken::Literal(c), i + 1))
        }
    }
}

/// Scans the whole input from position `i`: the token sequence, ending
/// with exactly one `Eof`, or `None` when any token is malformed.
pub open spec fn spec_lex(s: Seq<char>, i: int) -> Option<Seq<SpecToken>>
    decreases s.len() - i,
{
    if i < 0 {
        None
    } else if i >= s.len() {
        Some(seq![SpecToken::Eof])
    } else if is_ws(s[i]) {
        spec_lex(s, i + 1)
    } else {
        match spec_lex_token(s, i) {
            None => None,
            Some((t, k)) => if i < k <= s.len() {
                match spec_lex(s, k) {
                    None => None,
                    Some(ts) => Some(seq![t] + ts),
                }
            } else {
                None
            },
        }
    }
}

/// The token sequence of a whole pattern, or `None` when it is malformed.
pub open spec fn spec_tokenize(s: Seq<char>) -> Option<Seq<SpecToken>> {
    spec_lex(s, 0)
}

/// A successful quote scan moves forward and stays inside the input.
proof fn lemma_spec_quote_advances(s: Seq<char>, i: int)
    ensures
        spec_quote(s, i) matches Some((cs, j)) ==> i < j <= s.len(),
    decreases s.len() - i,
{
    if 0 <= i < s.len() && s[i] != '"' {
        lemma_spec_quote_advances(s, i + 1);
    }
}

/// A successful bracket scan moves forward and stays inside the input.
proof fn lemma_spec_bracket_advances(s: Seq<char>, i: int)
    ensures
        spec_bracket(s, i) matches Some((cs, j)) ==> i < j <= s.len(),
    decreases s.len() - i,
{
    if 0 <= i < s.len() && s[i] != ']' {
        if i + 1 < s.len() && s[i + 1] == '-' && i + 2 < s.len() && s[i + 2] != ']' {
            lemma_spec_bracket_advances(s, i + 3);
        } else {
            lemma_spec_bracket_advances(s, i + 1);
        }
    }
}

/// A successful token scan moves forward and stays inside the input.
proof fn lemma_spec_lex_token_advances(s: Seq<char>, i: int)
    ensures
        spec_lex_token(s, i) matches Some((t, k)) ==> i < k <= s.len(),
{
    if 0 <= i < s.len() {
        lemma_spec_quote_advances(s, i + 1);
        lemma_spec_bracket_advances(s, i + 1);
    }
}

/// Scanning is insensitive to leading whitespace.
proof fn lemma_spec_lex_skip_ws(s: Seq<char>, i: int)
    requires
        0 <= i,
    ensures
        i <= skip_ws(s, i) <= s.len() || skip_ws(s, i) == i,
        i <= s.len() ==> i <= skip_ws(s, i) <= s.len(),
        spec_lex(s, i) == spec_lex(s, skip_ws(s, i)),
        skip_ws(s, i) < s.len() ==> !is_ws(s[skip_ws(s, i)]),
    decreases s.len() - i,
{
    if 0 <= i < s.len() && is_ws(s[i]) {
        lemma_spec_lex_skip_ws(s, i + 1);
    }
}

/// Relies on `core::char::from_u32`: it returns `Some` exactly on Unicode
/// scalar values — code points up to 0x10FFFF that are not surrogates —
/// and the returned character has the given code point.
pub assume_specification[ core::char::from_u32 ](u: u32) -> (r: Option<char>)
    ensures
        r == (if is_scalar_value(u as int) {
            Some(u as char)
        } else {
            None::<char>
        }),
;

/// Whether `v` already holds `c`.
fn vec_has_char(v: &Vec<char>, c: char) -> (r: bool)
    ensures
        r == v@.contains(c),
{
    let mut k: usize = 0;
    while k < v.len()
        invariant
            k <= v@.len(),
            forall|j: int| 0 <= j < k ==> v@[j] != c,
        decreases v@.len() - k,
    {
        if v[k] == c {
            return true;
        }
        k = k + 1;
    }
    false
}

/// The scanner: a cursor over the pattern text, measured in characters.
#[derive(Debug)]
pub struct Lexer {
    pub source: String,
    pub current: usize,
}

impl Lexer {
    /// The cursor never points past the end of the text.  Every
    /// constructor establishes this and every method keeps it.
    pub open spec fn wf(self) -> bool {
        self.current <= self.source@.len()
    }

    pub fn new(source: &str) -> (l: Lexer)
        ensures
            l.source@ == source@,
            l.current == 0,
            l.wf(),
    {
        Lexer { source: source.to_owned(), current: 0 }
    }

    /// Whether the cursor has passed the last character.
    pub fn is_at_end(&self) -> (r: bool)
        ensures
            r == (self.current >= self.source@.len()),
            self.source@.len() <= usize::MAX,
    {
        self.current >= self.source.as_str().unicode_len()
    }

    /// Scans a double-quoted span.  The cursor stands on the opening
    /// quote; on success the span's distinct characters come back as one
    /// group token and the cursor ends just past the closing quote.  On
    /// failure — no closing quote, or nothing between the quotes — the
    /// cursor is back on the opening quote.
    #[verifier::loop_isolation(false)]
    fn lex_quote(&mut self) -> (r: Option<Token>)
        requires
            old(self).wf(),
            old(self).current < old(self).source@.len(),
            old(self).source@[old(self).current as int] == '"',
            old(self).source@.len() <= usize::MAX,
        ensures
            final(self).source == old(self).source,
            final(self).wf(),
            ({
                let s = old(self).source@;
                let i = old(self).current as int;
                match spec_lex_token(s, i) {
                    None => r is None && final(self).current == old(self).current,
                    Some((t, k)) => (r matches Some(tok) && tok@ == t && final(self).current as int
                        == k),
                }
            }),
    {
        let ghost s = self.source@;
        let start = self.current;
        let ghost i0: int = start as int;
        self.current = start + 1;
        let mut chars: Vec<char> = Vec::new();
        proof {
            assert(s.subrange(i0 + 1, i0 + 1) =~= Seq::<char>::empty());
            assert(chars@ =~= dedup(s.subrange(i0 + 1, i0 + 1)));
        }
        loop
            invariant
                self.source == old(self).source,
                self.source@ == s,
                i0 + 1 <= self.current <= s.len(),
                s.len() <= usize::MAX,
                0 <= i0 < s.len(),
                s[i0] == '"',
                i0 == start as int,
                chars@ == dedup(s.subrange(i0 + 1, self.current as int)),
                spec_quote(s, i0 + 1) == (match spec_quote(s, self.current as int) {
                    None => None::<(Seq<char>, int)>,
                    Some((cs, j)) => Some((s.subrange(i0 + 1, self.current as int) + cs, j)),
                }),
            decreases s.len() - self.current,
        {
            if self.is_at_end() {
                self.current = start;
                return None;
            }
            let c = self.source.as_str().get_char(self.current);
            if c == '"' {
                let ghost raw = s.subrange(i0 + 1, self.current as int);
                self.current = self.current + 1;
                proof {
                    assert(raw + Seq::<char>::empty() =~= raw);
                }
                if chars.len() == 0 {
                    self.current = start;
                    return None;
                }
                return Some(Token::LiteralGroup(chars));
            }
            proof {
                let raw = s.subrange(i0 + 1, self.current as int);
                let raw2 = s.subrange(i0 + 1, self.current + 1);
                assert(raw2.drop_last() =~= raw);
                assert(raw2 =~= raw.push(s[self.current as int]));
                match spec_quote(s, self.current + 1) {
                    Some((cs, j)) => {
                        assert(raw2 + cs =~= raw + (seq![s[self.current as int]] + cs));
                    },
                    None => {},
                }
            }
            if !vec_has_char(&chars, c) {
                chars.push(c);
            }
            self.current = self.current + 1;
        }
    }

    /// Scans a bracketed span.  The cursor stands on the opening bracket;
    /// on success the collected characters — each `a-b` form expanded to
    /// the inclusive range in code-point order — come back as one group
    /// token and the cursor ends just past the closing bracket.  On
    /// failure — no closing bracket, or no characters collected — the
    /// cursor is back on the opening bracket.
    #[verifier::loop_isolation(false)]
    fn lex_bracket(&mut self) -> (r: Option<Token>)
        requires
            old(self).wf(),
            old(self).current < old(self).source@.len(),
            old(self).source@[old(self).current as int] == '[',
            old(self).source@.len() <= usize::MAX,
        ensures
            final(self).source == old(self).source,
            final(self).wf(),
            ({
                let s = old(self).source@;
                let i = old(self).current as int;
                match spec_lex_token(s, i) {
                    None => r is None && final(self).current == old(self).current,
                    Some((t, k)) => (r matches Some(tok) && tok@ == t && final(self).current as int
                        == k),
                }
            }),
    {
        let ghost s = self.source@;
        let start = self.current;
        let ghost i0: int = start as int;
        let n: usize = self.source.as_str().unicode_len();
        self.current = start + 1;
        let mut chars: Vec<char> = Vec::new();
        let ghost mut raw: Seq<char> = Seq::empty();
        proof {
            assert(chars@ =~= dedup(raw));
        }
        loop
            invariant
                self.source == old(self).source,
                self.source@ == s,
                n == s.len(),
                i0 + 1 <= self.current <= s.len(),
                0 <= i0 < s.len(),
                s[i0] == '[',
                i0 == start as int,
                chars@ == dedup(raw),
                spec_bracket(s, i0 + 1) == (match spec_bracket(s, self.current as int) {
                    None => None::<(Seq<char>, int)>,
                    Some((cs, j)) => Some((raw + cs, j)),
                }),
            decreases s.len() - self.current,
        {
            if self.is_at_end() {
                self.current = start;
                return None;
            }
            let c = self.source.as_str().get_char(self.current);
            if c == ']' {
                self.current = self.current + 1;
                proof {
                    assert(raw + Seq::<char>::empty() =~= raw);
                }
                if chars.len() == 0 {
                    self.current = start;
                    return None;
                }
                return Some(Token::LiteralGroup(chars));
            }
            let mut is_range = false;
            let mut hi_char = c;
            if n - self.current > 2 {
                let c1 = self.source.as_str().get_char(self.current + 1);
                if c1 == '-' {
                    let c2 = self.source.as_str().get_char(self.current + 2);
                    if c2 != ']' {
                        is_range = true;
                        hi_char = c2;
                    }
                }
            }
            if is_range {
                let lo: u32 = c as u32;
                let hi: u32 = hi_char as u32;
                let ghost cur_snap: int = self.current as int;
                let mut u: u32 = lo;
                proof {
                    assert(char_range(lo as int, lo as int - 1) =~= Seq::<char>::empty());
                    assert(raw + char_range(lo as int, lo as int - 1) =~= raw);
                }
                while u <= hi
                    invariant
                        self.source == old(self).source,
                        lo <= u <= 0x110000,
                        u == lo || u <= hi + 1,
                        hi <= 0x10FFFF,
                        self.source@ == s,
                        self.current as int == cur_snap,
                        chars@ == dedup(raw + char_range(lo as int, u as int - 1)),
                    decreases 0x110000 - u,
                {
                    proof {
                        let r0 = raw + char_range(lo as int, u as int - 1);
                        let r1 = raw + char_range(lo as int, u as int);
                        if is_scalar_value(u as int) {
                            assert(char_range(lo as int, u as int) =~= char_range(
                                lo as int,
                                u as int - 1,
                            ).push(u as char));
                            assert(r1 =~= r0.push(u as char));
                            assert(r1.drop_last() =~= r0);
                        } else {
                            assert(r1 =~= r0);
                        }
                    }
                    match core::char::from_u32(u) {
                        Some(ch) => {
                            if !vec_has_char(&chars, ch) {
                                chars.push(ch);
                            }
                        },
                        None => {},
                    }
                    u = u + 1;
                }
                proof {
                    assert(char_range(lo as int, u as int - 1) =~= char_range(lo as int, hi as int));
                }
                let ghost target = char_range(lo as int, hi as int);
                self.current = self.current + 3;
                proof {
                    match spec_bracket(s, self.current as int) {
                        Some((cs, j)) => {
                            assert((raw + target) + cs =~= raw + (target + cs));
                        },
                        None => {},
                    }
                    raw = raw + target;
                }
            } else {
                proof {
                    let r1 = raw.push(s[self.current as int]);
                    assert(r1.drop_last() =~= raw);
                    match spec_bracket(s, self.current + 1) {
                        Some((cs, j)) => {
                            assert(r1 + cs =~= raw + (seq![s[self.current as int]] + cs));
                        },
                        None => {},
                    }
                }
                if !vec_has_char(&chars, c) {
                    chars.push(c);
                }
                proof {
                    raw = raw.push(s[self.current as int]);
                }
                self.current = self.current + 1;
            }
        }
    }

    /// Skips whitespace, then scans one token.  Returns `None` either
    /// because only whitespace remained (the cursor is then at the end of
    /// the input) or because the text at the token's start is malformed
    /// (the cursor then stands on that start, short of the end) — the two
    /// outcomes are told apart by where the cursor stops.
    #[verifier::loop_isolation(false)]
    pub fn lex_token(&mut self) -> (r: Option<Token>)
        requires
            old(self).wf(),
        ensures
            final(self).source == old(self).source,
            final(self).wf(),
            ({
                let s = old(self).source@;
                let j = skip_ws(s, old(self).current as int);
                if j >= s.len() {
                    r is None && final(self).current as int == j
                } else {
                    match spec_lex_token(s, j) {
                        None => r is None && final(self).current as int == j,
                        Some((t, k)) => (r matches Some(tok) && tok@ == t
                            && final(self).current as int == k),
                    }
                }
            }),
    {
        let ghost s = self.source@;
        let ghost c0: int = self.current as int;
        proof {
            lemma_spec_lex_skip_ws(s, c0);
        }
        let mut skipping = true;
        while skipping
            invariant
                self.source == old(self).source,
                self.source@ == s,
                self.current <= s.len(),
                skip_ws(s, c0) == skip_ws(s, self.current as int),
                !skipping ==> self.current as int == skip_ws(s, c0),
            decreases s.len() - self.current + (if skipping { 1int } else { 0int }),
        {
            if self.is_at_end() {
                skipping = false;
            } else {
                let c = self.source.as_str().get_char(self.current);
                if c == ' ' || c == '\t' || c == '\r' || c == '\n' {
                    self.current = self.current + 1;
                } else {
                    skipping = false;
                }
            }
        }
        if self.is_at_end() {
            return None;
        }
        let c = self.source.as_str().get_char(self.current);
        if c == '"' {
            return self.lex_quote();
        }
        if c == '[' {
            return self.lex_bracket();
        }
        self.current = self.current + 1;
        if c == '|' {
            Some(Token::Union)
        } else if c == '.' {
            Some(Token::Concatenate)
        } else if c == '*' {
            Some(Token::Star)
        } else if c == '+' {
            Some(Token::Plus)
        } else if c == '?' {
            Some(Token::Question)
        } else if c == '(' {
            Some(Token::LeftParen)
        } else if c == ')' {
            Some(Token::RightParen)
        } else {
            Some(Token::Literal(c))
        }
    }

    /// Tokenizes the whole remaining input: the token sequence terminated
    /// by exactly one `Eof`, or `None` when the text is malformed — an
    /// unterminated quoted or bracketed span, or one that collects no
    /// characters.
    #[verifier::loop_isolation(false)]
    pub fn lex_tokens(&mut self) -> (r: Option<Vec<Token>>)
        requires
            old(self).wf(),
        ensures
            final(self).source == old(self).source,
            final(self).wf(),
            ({
                let s = old(self).source@;
                match spec_lex(s, old(self).current as int) {
                    None => r is None,
                    Some(ts) => (r matches Some(v) && token_views(v@) == ts),
                }
            }),
    {
        let ghost s = self.source@;
        let ghost c0: int = self.current as int;
        let mut tokens: Vec<Token> = Vec::new();
        proof {
            assert(token_views(tokens@) =~= Seq::<SpecToken>::empty());
            match spec_lex(s, c0) {
                Some(ts) => {
                    assert(token_views(tokens@) + ts =~= ts);
                },
                None => {},
            }
        }
        let mut scanning = true;
        while scanning
            invariant
                self.source == old(self).source,
                self.source@ == s,
                self.current <= s.len(),
                c0 <= self.current as int,
                !scanning ==> self.current as int == s.len(),
                ({
                    match spec_lex(s, self.current as int) {
                        None => spec_lex(s, c0) is None,
                        Some(ts) => spec_lex(s, c0) == Some(token_views(tokens@) + ts),
                    }
                }),
            decreases s.len() - self.current + (if scanning { 1int } else { 0int }),
        {
            if self.is_at_end() {
                scanning = false;
                continue;
            }
            let ghost cur_pre: int = self.current as int;
            let got = self.lex_token();
            proof {
                lemma_spec_lex_skip_ws(s, cur_pre);
                lemma_spec_lex_token_advances(s, skip_ws(s, cur_pre));
            }
            match got {
                Some(t) => {
                    proof {
                        let j = skip_ws(s, cur_pre);
                        let k = self.current as int;
                        assert(token_views(tokens@.push(t)) =~= token_views(tokens@) + seq![t@]);
                        match spec_lex(s, k) {
                            Some(ts) => {
                                assert((token_views(tokens@) + seq![t@]) + ts =~= token_views(
                                    tokens@,
                                ) + (seq![t@] + ts));
                            },
                            None => {},
                        }
                    }
                    tokens.push(t);
                },
                None => {
                    if self.is_at_end() {
                        scanning = false;
                    } else {
                        return None;
                    }
                },
            }
        }
        proof {
            assert(token_views(tokens@.push(Token::Eof)) =~= token_views(tokens@) + seq![
                SpecToken::Eof,
            ]);
        }
        tokens.push(Token::Eof);
        Some(tokens)
    }
}

} // verus!
