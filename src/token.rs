//! The lexer: source characters to located tokens.
use vstd::prelude::*;

use crate::number::{pow10, LispNumber};
use crate::text::{chars_of, string_from_chars};

verus! {

/// Whether `c` has the Unicode `White_Space` property: U+0009 to U+000D,
/// U+0020, U+0085, U+00A0, U+1680, U+2000 to U+200A, U+2028, U+2029,
/// U+202F, U+205F and U+3000.
pub open spec fn unicode_whitespace(c: char) -> bool {
    let u = c as u32;
    (0x9 <= u <= 0xD) || u == 0x20 || u == 0x85 || u == 0xA0 || u == 0x1680 || (0x2000 <= u
        <= 0x200A) || u == 0x2028 || u == 0x2029 || u == 0x202F || u == 0x205F || u == 0x3000
}

/// Whether `char::is_alphanumeric` holds of `c` (Unicode `Alphabetic` or
/// `Numeric`).
pub uninterp spec fn unicode_alphanumeric(c: char) -> bool;

/// Relies on `char::is_whitespace`: true exactly for the characters with the
/// Unicode `White_Space` property.
pub assume_specification[ char::is_whitespace ](c: char) -> (r: bool)
    ensures
        r == unicode_whitespace(c),
;

/// Relies on `char::is_alphanumeric`, which tells Unicode letters and
/// numerals; among ASCII characters these are exactly `a-z`, `A-Z` and `0-9`.
pub assume_specification[ char::is_alphanumeric ](c: char) -> (r: bool)
    ensures
        r == unicode_alphanumeric(c),
        (c as u32) < 0x80 ==> (r <==> ('a' <= c <= 'z' || 'A' <= c <= 'Z' || '0' <= c <= '9')),
;

/// A zero-based position in the source text.
#[derive(Clone, Copy, Debug, PartialEq, Eq, Structural)]
pub struct Location {
    pub row: usize,
    pub col: usize,
}

#[derive(Clone, Debug)]
pub enum TokenValue {
    LParen,
    RParen,
    Symbol(String),
    Number(LispNumber),
    String(String),
    Quote,
}

#[derive(Clone, Debug)]
pub struct Token {
    pub value: TokenValue,
    pub location: Location,
}

#[derive(Clone, Copy, Debug, PartialEq, Eq, Structural)]
pub enum LexerError {
    /// A character that starts no token.
    UnrecognizedCharacter,
    /// A string literal that the input ends inside.
    UnterminatedString,
    /// A numeric literal whose digits do not fit in 64 bits, or with more
    /// fractional digits than a `u32` counts.
    NumberTooLarge,
}

/// What a token holds, with its text as a character sequence.
pub enum Lexeme {
    LParen,
    RParen,
    Quote,
    Symbol(Seq<char>),
    Number(LispNumber),
    Str(Seq<char>),
}

pub struct LexedToken {
    pub location: Location,
    pub lexeme: Lexeme,
}

impl TokenValue {
    pub open spec fn view(&self) -> Lexeme {
        match self {
            TokenValue::LParen => Lexeme::LParen,
            TokenValue::RParen => Lexeme::RParen,
            TokenValue::Quote => Lexeme::Quote,
            TokenValue::Symbol(s) => Lexeme::Symbol(s@),
            TokenValue::Number(n) => Lexeme::Number(*n),
            TokenValue::String(s) => Lexeme::Str(s@),
        }
    }
}

impl Token {
    pub open spec fn view(&self) -> LexedToken {
        LexedToken { location: self.location, lexeme: self.value.view() }
    }
}

pub open spec fn token_views(v: Seq<Token>) -> Seq<LexedToken> {
    v.map_values(|t: Token| t.view())
}

/// The row after consuming the first `n` characters of `s`.
pub open spec fn row_after(s: Seq<char>, n: nat) -> nat
    decreases n,
{
    if n == 0 {
        0
    } else if s[n - 1] == '\n' {
        row_after(s, (n - 1) as nat) + 1
    } else {
        row_after(s, (n - 1) as nat)
    }
}

/// The column after consuming the first `n` characters of `s`.
pub open spec fn col_after(s: Seq<char>, n: nat) -> nat
    decreases n,
{
    if n == 0 {
        0
    } else if s[n - 1] == '\n' {
        0
    } else {
        col_after(s, (n - 1) as nat) + 1
    }
}

pub proof fn lemma_location_bounded(s: Seq<char>, n: nat)
    ensures
        row_after(s, n) <= n,
        col_after(s, n) <= n,
    decreases n,
{
    if n > 0 {
        lemma_location_bounded(s, (n - 1) as nat);
    }
}

/// The location of the character at index `n` of `s`.
pub open spec fn loc_at(s: Seq<char>, n: nat) -> Location {
    Location { row: row_after(s, n) as usize, col: col_after(s, n) as usize }
}

pub open spec fn is_digit(c: char) -> bool {
    '0' <= c <= '9'
}

pub open spec fn is_symbol_punct(c: char) -> bool {
    c == '+' || c == '-' || c == '*' || c == '/' || c == '%' || c == '!' || c == '^' || c == '&'
        || c == '|' || c == '~' || c == '<' || c == '=' || c == '>'
}

pub open spec fn is_symbol_char(c: char) -> bool {
    unicode_alphanumeric(c) || is_symbol_punct(c)
}

/// Whether `c` may stand in a symbol: alphanumeric or one of `+-*/%!^&|~<=>`.
pub fn is_symbol(c: char) -> (r: bool)
    ensures
        r == is_symbol_char(c),
{
    c.is_alphanumeric() || c == '+' || c == '-' || c == '*' || c == '/' || c == '%' || c == '!'
        || c == '^' || c == '&' || c == '|' || c == '~' || c == '<' || c == '=' || c == '>'
}

/// The first index at or after `p` whose character is not whitespace.
pub open spec fn skip_ws(s: Seq<char>, p: nat) -> nat
    decreases s.len() - p,
{
    if p < s.len() && unicode_whitespace(s[p as int]) {
        skip_ws(s, p + 1)
    } else {
        p
    }
}

/// The first index at or after `p` whose character is not a decimal digit.
pub open spec fn skip_digits(s: Seq<char>, p: nat) -> nat
    decreases s.len() - p,
{
    if p < s.len() && is_digit(s[p as int]) {
        skip_digits(s, p + 1)
    } else {
        p
    }
}

/// The first index at or after `p` whose character is not a symbol character.
pub open spec fn skip_symbol(s: Seq<char>, p: nat) -> nat
    decreases s.len() - p,
{
    if p < s.len() && is_symbol_char(s[p as int]) {
        skip_symbol(s, p + 1)
    } else {
        p
    }
}

/// The first index at or after `p` holding `"`, or the length of `s`.
pub open spec fn find_quote(s: Seq<char>, p: nat) -> nat
    decreases s.len() - p,
{
    if p < s.len() && s[p as int] != '"' {
        find_quote(s, p + 1)
    } else {
        p
    }
}

proof fn lemma_skips_bounded(s: Seq<char>, p: nat)
    requires
        p <= s.len(),
    ensures
        p <= skip_ws(s, p) <= s.len(),
        p <= skip_digits(s, p) <= s.len(),
        p <= skip_symbol(s, p) <= s.len(),
        p <= find_quote(s, p) <= s.len(),
    decreases s.len() - p,
{
    if p < s.len() {
        lemma_skips_bounded(s, p + 1);
    }
}

/// The value of a string of decimal digits.
pub open spec fn digits_value(d: Seq<char>) -> nat
    decreases d.len(),
{
    if d.len() == 0 {
        0
    } else {
        10 * digits_value(d.drop_last()) + (d.last() as nat - '0' as nat) as nat
    }
}

/// The digits of the numeric literal starting at `q`, the point left out.
pub open spec fn literal_digits(s: Seq<char>, q: nat) -> Seq<char> {
    let a = skip_digits(s, q);
    if a < s.len() && s[a as int] == '.' {
        s.subrange(q as int, a as int) + s.subrange((a + 1) as int, skip_digits(s, a + 1) as int)
    } else {
        s.subrange(q as int, a as int)
    }
}

/// The number of digits after the point of the literal starting at `q`.
pub open spec fn literal_scale(s: Seq<char>, q: nat) -> nat {
    let a = skip_digits(s, q);
    if a < s.len() && s[a as int] == '.' {
        (skip_digits(s, a + 1) - a - 1) as nat
    } else {
        0
    }
}

/// The index just past the numeric literal starting at `q`.
pub open spec fn literal_end(s: Seq<char>, q: nat) -> nat {
    let a = skip_digits(s, q);
    if a < s.len() && s[a as int] == '.' {
        skip_digits(s, a + 1)
    } else {
        a
    }
}

/// The token that starts at index `q < s.len()`, and the index after it.
pub open spec fn lex_token(s: Seq<char>, q: nat) -> Result<(Lexeme, nat), LexerError> {
    let c = s[q as int];
    if c == '(' {
        Ok((Lexeme::LParen, q + 1))
    } else if c == ')' {
        Ok((Lexeme::RParen, q + 1))
    } else if c == '\'' {
        Ok((Lexeme::Quote, q + 1))
    } else if c == '"' {
        let e = find_quote(s, q + 1);
        if e >= s.len() {
            Err(LexerError::UnterminatedString)
        } else {
            Ok((Lexeme::Str(s.subrange((q + 1) as int, e as int)), e + 1))
        }
    } else if is_digit(c) {
        let m = digits_value(literal_digits(s, q));
        let k = literal_scale(s, q);
        if m > u64::MAX || k > u32::MAX {
            Err(LexerError::NumberTooLarge)
        } else {
            Ok((Lexeme::Number(LispNumber { mantissa: m as u64, scale: k as u32 }), literal_end(s, q)))
        }
    } else if is_symbol_char(c) {
        Ok((Lexeme::Symbol(s.subrange(q as int, skip_symbol(s, q) as int)), skip_symbol(s, q)))
    } else {
        Err(LexerError::UnrecognizedCharacter)
    }
}

proof fn lemma_lex_token_advances(s: Seq<char>, q: nat)
    requires
        q < s.len(),
    ensures
        lex_token(s, q) matches Ok((_, r)) ==> q < r <= s.len(),
{
    lemma_skips_bounded(s, q + 1);
    lemma_skips_bounded(s, q);
    let a = skip_digits(s, q);
    if a < s.len() {
        lemma_skips_bounded(s, a + 1);
    }
    if is_symbol_char(s[q as int]) {
        assert(skip_symbol(s, q) == skip_symbol(s, q + 1));
    }
    if is_digit(s[q as int]) {
        assert(skip_digits(s, q) == skip_digits(s, q + 1));
    }
}

/// The tokens of `s` from index `p` on, or the index and kind of the first
/// error.
pub open spec fn lex(s: Seq<char>, p: nat) -> Result<Seq<LexedToken>, (nat, LexerError)>
    decreases s.len() - p,
    via lex_decreases
{
    let q = skip_ws(s, p);
    if q >= s.len() {
        Ok(Seq::empty())
    } else {
        match lex_token(s, q) {
            Err(e) => Err((q, e)),
            Ok((t, r)) => match lex(s, r) {
                Ok(rest) => Ok(seq![LexedToken { location: loc_at(s, q), lexeme: t }] + rest),
                Err(e) => Err(e),
            },
        }
    }
}

#[via_fn]
proof fn lex_decreases(s: Seq<char>, p: nat) {
    let q = skip_ws(s, p);
    if p <= s.len() {
        lemma_skips_bounded(s, p);
    }
    if q < s.len() && p <= s.len() {
        lemma_lex_token_advances(s, q);
    }
}

/// Prepends `prefix` to a successful result.
pub open spec fn after_tokens(
    prefix: Seq<LexedToken>,
    r: Result<Seq<LexedToken>, (nat, LexerError)>,
) -> Result<Seq<LexedToken>, (nat, LexerError)> {
    match r {
        Ok(ts) => Ok(prefix + ts),
        Err(e) => Err(e),
    }
}

pub struct Tokenizer {
    pub input: Vec<char>,
    pub pos: usize,
    pub location: Location,
    pub tokens: Vec<Token>,
}

impl Tokenizer {
    /// The whole source text.
    pub open spec fn source(&self) -> Seq<char> {
        self.input@
    }

    /// How many characters have been consumed.
    pub open spec fn position(&self) -> nat {
        self.pos as nat
    }

    pub open spec fn wf(&self) -> bool {
        &&& self.pos <= self.input.len()
        &&& self.location == loc_at(self.input@, self.pos as nat)
    }

    pub fn new(input: String) -> (r: Tokenizer)
        ensures
            r.wf(),
            r.source() == input@,
            r.position() == 0,
            r.location == (Location { row: 0, col: 0 }),
            r.tokens@.len() == 0,
    {
        let chars = chars_of(input.as_str());
        Tokenizer { input: chars, pos: 0, location: Location { row: 0, col: 0 }, tokens: Vec::new() }
    }

    /// Consumes one character, moving the location past it.
    pub fn next(&mut self) -> (r: Option<char>)
        requires
            old(self).wf(),
        ensures
            final(self).wf(),
            final(self).input == old(self).input,
            final(self).tokens == old(self).tokens,
            final(self).pos == (if old(self).pos < old(self).input.len() {
                old(self).pos + 1
            } else {
                old(self).pos as int
            }),
            r == (if old(self).pos < old(self).input.len() {
                Some(old(self).input@[old(self).pos as int])
            } else {
                None
            }),
            r == Some('\n') ==> final(self).location == (Location {
                row: (old(self).location.row + 1) as usize,
                col: 0,
            }),
            r matches Some(c) && c != '\n' ==> final(self).location == (Location {
                row: old(self).location.row,
                col: (old(self).location.col + 1) as usize,
            }),
            r is None ==> final(self).location == old(self).location,
    {
        if self.pos < self.input.len() {
            let c = self.input[self.pos];
            proof {
                lemma_location_bounded(self.input@, self.pos as nat);
            }
            if c == '\n' {
                self.location.row = self.location.row + 1;
                self.location.col = 0;
            } else {
                self.location.col = self.location.col + 1;
            }
            self.pos = self.pos + 1;
            Some(c)
        } else {
            None
        }
    }

    /// Consumes characters up to index `r`.
    fn advance_to(&mut self, r: usize)
        requires
            old(self).wf(),
            old(self).pos <= r <= old(self).input.len(),
        ensures
            final(self).wf(),
            final(self).input == old(self).input,
            final(self).tokens == old(self).tokens,
            final(self).pos == r,
    {
        while self.pos < r
            invariant
                self.wf(),
                self.pos <= r <= self.input.len(),
                self.input == old(self).input,
                self.tokens == old(self).tokens,
            decreases r - self.pos,
        {
            self.next();
        }
    }

    /// Skips whitespace.
    fn trim(&mut self)
        requires
            old(self).wf(),
        ensures
            final(self).wf(),
            final(self).input == old(self).input,
            final(self).tokens == old(self).tokens,
            final(self).pos == skip_ws(old(self).input@, old(self).pos as nat),
    {
        while self.pos < self.input.len() && self.input[self.pos].is_whitespace()
            invariant
                self.wf(),
                self.input == old(self).input,
                self.tokens == old(self).tokens,
                skip_ws(self.input@, self.pos as nat) == skip_ws(
                    old(self).input@,
                    old(self).pos as nat,
                ),
            decreases self.input.len() - self.pos,
        {
            self.next();
        }
    }

    fn push_token(&mut self, tok: TokenValue)
        ensures
            final(self).input == old(self).input,
            final(self).pos == old(self).pos,
            final(self).location == old(self).location,
            final(self).tokens@ == old(self).tokens@.push(
                Token { value: tok, location: old(self).location },
            ),
    {
        self.tokens.push(Token { location: self.location, value: tok });
    }

    /// Skips whitespace, then reads one token, if any is left. On an error
    /// nothing past the whitespace is consumed, and `location` is where the
    /// offending token starts.
    pub fn try_parse_one(&mut self) -> (r: Result<(), LexerError>)
        requires
            old(self).wf(),
        ensures
            final(self).wf(),
            final(self).source() == old(self).source(),
            ({
                let s = old(self).source();
                let q = skip_ws(s, old(self).position());
                if q >= s.len() {
                    r is Ok && final(self).position() == q && final(self).tokens@ == old(
                        self,
                    ).tokens@
                } else {
                    match lex_token(s, q) {
                        Ok((t, e)) => r is Ok && final(self).position() == e && token_views(
                            final(self).tokens@,
                        ) == token_views(old(self).tokens@).push(
                            LexedToken { location: loc_at(s, q), lexeme: t },
                        ),
                        Err(e) => r == Err::<(), LexerError>(e) && final(self).position() == q
                            && final(self).tokens@ == old(self).tokens@,
                    }
                }
            }),
    {
        self.trim();
        if self.pos >= self.input.len() {
            return Ok(());
        }
        let q = self.pos;
        proof {
            lemma_lex_token_advances(self.input@, q as nat);
        }
        match scan_token(&self.input, q) {
            Ok((tok, e)) => {
                self.push_token(tok);
                self.advance_to(e);
                proof {
                    assert(token_views(self.tokens@) =~= token_views(old(self).tokens@).push(
                        LexedToken { location: loc_at(self.input@, q as nat), lexeme: tok.view() },
                    ));
                }
                Ok(())
            },
            Err(e) => Err(e),
        }
    }

    /// Reads tokens until the input is exhausted. On an error, returns the
    /// location of the offending token and the kind of error.
    pub fn try_parse_all(&mut self) -> (r: Result<(), (Location, LexerError)>)
        requires
            old(self).wf(),
        ensures
            final(self).wf(),
            final(self).source() == old(self).source(),
            r is Ok ==> final(self).position() == final(self).source().len(),
            match lex(old(self).source(), old(self).position()) {
                Ok(ts) => r is Ok && token_views(final(self).tokens@) == token_views(
                    old(self).tokens@,
                ) + ts,
                Err((q, e)) => r == Err::<(), (Location, LexerError)>(
                    (loc_at(old(self).source(), q), e),
                ),
            },
    {
        let ghost s = self.input@;
        loop
            invariant
                self.wf(),
                self.input@ == s,
                s == old(self).source(),
                lex(s, old(self).position()) == after_tokens(
                    token_views(self.tokens@).subrange(
                        old(self).tokens@.len() as int,
                        self.tokens@.len() as int,
                    ),
                    lex(s, self.pos as nat),
                ),
                old(self).tokens@.len() <= self.tokens@.len(),
                token_views(self.tokens@).subrange(0, old(self).tokens@.len() as int)
                    == token_views(old(self).tokens@),
            decreases self.input.len() - self.pos,
        {
            let ghost before = self.tokens@;
            let ghost p = self.pos as nat;
            let ghost old_len = old(self).tokens@.len() as int;
            match self.try_parse_one() {
                Ok(()) => {
                    proof {
                        let q = skip_ws(s, p);
                        lemma_skips_bounded(s, p);
                        if q < s.len() {
                            lemma_lex_token_advances(s, q);
                            let x = LexedToken {
                                location: loc_at(s, q),
                                lexeme: lex_token(s, q)->Ok_0.0,
                            };
                            assert(lex(s, p) == after_tokens(seq![x], lex(s, self.pos as nat)));
                            assert(token_views(self.tokens@) == token_views(before).push(x));
                            lemma_after_tokens_push(
                                token_views(before).subrange(old_len, before.len() as int),
                                x,
                                lex(s, self.pos as nat),
                            );
                            assert(token_views(self.tokens@).subrange(
                                old_len,
                                self.tokens@.len() as int,
                            ) =~= token_views(before).subrange(old_len, before.len() as int).push(
                                x,
                            ));
                            assert(token_views(self.tokens@).subrange(0, old_len)
                                =~= token_views(before).subrange(0, old_len));
                        } else {
                            assert(skip_ws(s, q) == q);
                        }
                        if self.pos >= s.len() {
                            assert(skip_ws(s, self.pos as nat) == self.pos);
                            assert(token_views(self.tokens@) =~= token_views(self.tokens@).subrange(
                                0,
                                old_len,
                            ) + token_views(self.tokens@).subrange(
                                old_len,
                                self.tokens@.len() as int,
                            ));
                        }
                    }
                    if self.pos >= self.input.len() {
                        return Ok(());
                    }
                },
                Err(e) => {
                    let loc = self.location;
                    return Err((loc, e));
                },
            }
        }
    }
}

proof fn lemma_after_tokens_push(
    a: Seq<LexedToken>,
    x: LexedToken,
    r: Result<Seq<LexedToken>, (nat, LexerError)>,
)
    ensures
        after_tokens(a, after_tokens(seq![x], r)) == after_tokens(a.push(x), r),
{
    if let Ok(ts) = r {
        assert(a + (seq![x] + ts) =~= a.push(x) + ts);
    }
}

/// Reads the token that starts at index `q`.
fn scan_token(s: &Vec<char>, q: usize) -> (r: Result<(TokenValue, usize), LexerError>)
    requires
        q < s.len(),
    ensures
        match lex_token(s@, q as nat) {
            Ok((t, e)) => r matches Ok((tok, e2)) && tok.view() == t && e2 == e,
            Err(e) => r == Err::<(TokenValue, usize), LexerError>(e),
        },
{
    let c = s[q];
    if c == '(' {
        Ok((TokenValue::LParen, q + 1))
    } else if c == ')' {
        Ok((TokenValue::RParen, q + 1))
    } else if c == '\'' {
        Ok((TokenValue::Quote, q + 1))
    } else if c == '"' {
        let mut e = q + 1;
        let mut text: Vec<char> = Vec::new();
        while e < s.len() && s[e] != '"'
            invariant
                q < e <= s.len(),
                find_quote(s@, e as nat) == find_quote(s@, q as nat + 1),
                text@ == s@.subrange((q + 1) as int, e as int),
            decreases s.len() - e,
        {
            text.push(s[e]);
            e = e + 1;
            proof {
                assert(text@ =~= s@.subrange((q + 1) as int, e as int));
            }
        }
        if e >= s.len() {
            Err(LexerError::UnterminatedString)
        } else {
            Ok((TokenValue::String(string_from_chars(&text)), e + 1))
        }
    } else if '0' <= c && c <= '9' {
        scan_number(s, q)
    } else if is_symbol(c) {
        let mut e = q;
        let mut text: Vec<char> = Vec::new();
        while e < s.len() && is_symbol(s[e])
            invariant
                q <= e <= s.len(),
                skip_symbol(s@, e as nat) == skip_symbol(s@, q as nat),
                text@ == s@.subrange(q as int, e as int),
            decreases s.len() - e,
        {
            text.push(s[e]);
            e = e + 1;
            proof {
                assert(text@ =~= s@.subrange(q as int, e as int));
            }
        }
        Ok((TokenValue::Symbol(string_from_chars(&text)), e))
    } else {
        Err(LexerError::UnrecognizedCharacter)
    }
}

proof fn lemma_digits_value_grows(d: Seq<char>, extra: Seq<char>)
    ensures
        digits_value(d + extra) >= digits_value(d),
    decreases extra.len(),
{
    if extra.len() > 0 {
        lemma_digits_value_grows(d, extra.drop_last());
        assert((d + extra).drop_last() =~= d + extra.drop_last());
    }
}

/// Reads the numeric literal that starts at index `q`.
fn scan_number(s: &Vec<char>, q: usize) -> (r: Result<(TokenValue, usize), LexerError>)
    requires
        q < s.len(),
        is_digit(s@[q as int]),
    ensures
        match lex_token(s@, q as nat) {
            Ok((t, e)) => r matches Ok((tok, e2)) && tok.view() == t && e2 == e,
            Err(e) => r == Err::<(TokenValue, usize), LexerError>(e),
        },
{
    let mut acc: u64 = 0;
    let mut e = q;
    let ghost a = skip_digits(s@, q as nat);
    proof {
        lemma_skips_bounded(s@, q as nat);
        assert(s@.subrange(q as int, q as int) =~= Seq::<char>::empty());
    }
    while e < s.len() && '0' <= s[e] && s[e] <= '9'
        invariant
            q <= e <= s.len(),
            skip_digits(s@, e as nat) == a,
            a == skip_digits(s@, q as nat),
            acc == digits_value(s@.subrange(q as int, e as int)),
        decreases s.len() - e,
    {
        let d = (s[e] as u32 - 48) as u64;
        let ghost sub1 = s@.subrange(q as int, e + 1);
        proof {
            lemma_skips_bounded(s@, (e + 1) as nat);
            assert(skip_digits(s@, e as nat) == skip_digits(s@, (e + 1) as nat));
            assert(sub1.drop_last() =~= s@.subrange(q as int, e as int));
            assert(sub1.last() == s@[e as int]);
            assert(digits_value(sub1) == 10 * acc + d);
        }
        match acc.checked_mul(10) {
            Some(x) => match x.checked_add(d) {
                Some(y) => {
                    acc = y;
                },
                None => {
                    proof {
                        lemma_number_overflows(s@, q as nat, (e + 1) as nat);
                    }
                    return Err(LexerError::NumberTooLarge);
                },
            },
            None => {
                proof {
                    lemma_number_overflows(s@, q as nat, (e + 1) as nat);
                }
                return Err(LexerError::NumberTooLarge);
            },
        }
        e = e + 1;
    }
    assert(e == a);
    let mut scale: u32 = 0;
    if e < s.len() && s[e] == '.' {
        let dot = e;
        e = e + 1;
        proof {
            lemma_skips_bounded(s@, e as nat);
            assert(s@.subrange(q as int, dot as int) + s@.subrange((dot + 1) as int, e as int)
                =~= s@.subrange(q as int, dot as int));
        }
        while e < s.len() && '0' <= s[e] && s[e] <= '9'
            invariant
                q <= dot < e <= s.len(),
                is_digit(s@[q as int]),
                dot == a,
                a == skip_digits(s@, q as nat),
                s@[dot as int] == '.',
                skip_digits(s@, e as nat) == skip_digits(s@, dot as nat + 1),
                acc == digits_value(
                    s@.subrange(q as int, dot as int) + s@.subrange((dot + 1) as int, e as int),
                ),
                scale == e - dot - 1,
            decreases s.len() - e,
        {
            let d = (s[e] as u32 - 48) as u64;
            let ghost pre = s@.subrange(q as int, dot as int) + s@.subrange(
                (dot + 1) as int,
                e as int,
            );
            let ghost post = s@.subrange(q as int, dot as int) + s@.subrange(
                (dot + 1) as int,
                e + 1,
            );
            proof {
                lemma_skips_bounded(s@, (e + 1) as nat);
                assert(skip_digits(s@, e as nat) == skip_digits(s@, (e + 1) as nat));
                assert(post.drop_last() =~= pre);
                assert(post.last() == s@[e as int]);
                assert(digits_value(post) == 10 * acc + d);
            }
            match acc.checked_mul(10) {
                Some(x) => match x.checked_add(d) {
                    Some(y) => {
                        acc = y;
                    },
                    None => {
                        proof {
                            lemma_fraction_overflows(s@, q as nat, dot as nat, (e + 1) as nat);
                            lemma_number_error(s@, q as nat);
                        }
                        return Err(LexerError::NumberTooLarge);
                    },
                },
                None => {
                    proof {
                        lemma_fraction_overflows(s@, q as nat, dot as nat, (e + 1) as nat);
                        lemma_number_error(s@, q as nat);
                    }
                    return Err(LexerError::NumberTooLarge);
                },
            }
            if scale == u32::MAX {
                proof {
                    assert(literal_scale(s@, q as nat) >= scale + 1);
                    lemma_number_error(s@, q as nat);
                }
                return Err(LexerError::NumberTooLarge);
            }
            scale = scale + 1;
            e = e + 1;
        }
        proof {
            assert(skip_digits(s@, e as nat) == e);
            assert(literal_digits(s@, q as nat) == s@.subrange(q as int, dot as int) + s@.subrange(
                (dot + 1) as int,
                e as int,
            ));
        }
    } else {
        proof {
            assert(literal_digits(s@, q as nat) == s@.subrange(q as int, e as int));
        }
    }
    Ok((TokenValue::Number(LispNumber { mantissa: acc, scale }), e))
}

/// The integer digits of the numeric literal starting at `q`.
pub open spec fn integer_digits(s: Seq<char>, q: nat) -> Seq<char> {
    s.subrange(q as int, skip_digits(s, q) as int)
}

/// The digits after the point of the numeric literal starting at `q`.
pub open spec fn fraction_digits(s: Seq<char>, q: nat) -> Seq<char> {
    let a = skip_digits(s, q);
    if a < s.len() && s[a as int] == '.' {
        s.subrange((a + 1) as int, skip_digits(s, a + 1) as int)
    } else {
        Seq::empty()
    }
}

proof fn lemma_digits_value_concat(a: Seq<char>, b: Seq<char>)
    ensures
        digits_value(a + b) == digits_value(a) * pow10(b.len()) + digits_value(b),
    decreases b.len(),
{
    if b.len() == 0 {
        assert(a + b =~= a);
        assert(pow10(0) == 1);
        assert(digits_value(b) == 0);
        assert(digits_value(a) * 1 == digits_value(a));
    } else {
        let b1 = b.drop_last();
        lemma_digits_value_concat(a, b1);
        assert((a + b).drop_last() =~= a + b1);
        assert((a + b).last() == b.last());
        let d = (b.last() as nat - '0' as nat) as nat;
        let x = digits_value(a);
        let p = pow10(b1.len());
        assert(pow10(b.len()) == 10 * p);
        assert(10 * (x * p + digits_value(b1)) + d == x * (10 * p) + (10 * digits_value(b1) + d))
            by (nonlinear_arith);
        assert(digits_value(a + b) == 10 * digits_value(a + b1) + d);
        assert(digits_value(b) == 10 * digits_value(b1) + d);
    }
}

/// A numeric literal `d1 .. dn . f1 .. fk` is read exactly: its mantissa is
/// the integer part times `10^k` plus the fractional digits, at scale `k`, so
/// that it denotes the decimal value written. It is refused only when that
/// mantissa or `k` does not fit.
pub proof fn lemma_number_literal_exact(s: Seq<char>, q: nat)
    requires
        q < s.len(),
        is_digit(s[q as int]),
    ensures
        ({
            let k = fraction_digits(s, q).len();
            let m = digits_value(integer_digits(s, q)) * pow10(k) + digits_value(
                fraction_digits(s, q),
            );
            &&& m > u64::MAX || k > u32::MAX ==> lex_token(s, q) == Err::<(Lexeme, nat), LexerError>(
                LexerError::NumberTooLarge,
            )
            &&& m <= u64::MAX && k <= u32::MAX ==> (lex_token(s, q) matches Ok(
                (Lexeme::Number(n), _),
            ) && n.mantissa == m && n.scale == k)
        }),
{
    lemma_skips_bounded(s, q);
    let a = skip_digits(s, q);
    if a < s.len() && s[a as int] == '.' {
        lemma_skips_bounded(s, a + 1);
    }
    assert(literal_digits(s, q) =~= integer_digits(s, q) + fraction_digits(s, q));
    lemma_digits_value_concat(integer_digits(s, q), fraction_digits(s, q));
}

/// How many newlines `s` holds.
pub open spec fn count_newlines(s: Seq<char>) -> nat
    decreases s.len(),
{
    if s.len() == 0 {
        0
    } else {
        count_newlines(s.drop_last()) + if s.last() == '\n' {
            1nat
        } else {
            0nat
        }
    }
}

/// The index just after the last newline among the first `n` characters of
/// `s`, or zero.
pub open spec fn line_start(s: Seq<char>, n: nat) -> nat
    decreases n,
{
    if n == 0 {
        0
    } else if s[n - 1] == '\n' {
        n
    } else {
        line_start(s, (n - 1) as nat)
    }
}

/// After the first `n` characters of `s` are consumed, the row is the number
/// of newlines among them and the column the number of characters since the
/// last of them: each newline adds one to the row and sets the column to
/// zero, and each other character adds one to the column.
pub proof fn lemma_location_counts(s: Seq<char>, n: nat)
    requires
        n <= s.len(),
    ensures
        row_after(s, n) == count_newlines(s.subrange(0, n as int)),
        line_start(s, n) <= n,
        col_after(s, n) == n - line_start(s, n),
        n < s.len() && s[n as int] == '\n' ==> row_after(s, n + 1) == row_after(s, n) + 1
            && col_after(s, n + 1) == 0,
        n < s.len() && s[n as int] != '\n' ==> row_after(s, n + 1) == row_after(s, n)
            && col_after(s, n + 1) == col_after(s, n) + 1,
    decreases n,
{
    if n > 0 {
        lemma_location_counts(s, (n - 1) as nat);
        assert(s.subrange(0, n as int).drop_last() =~= s.subrange(0, n - 1));
    } else {
        assert(s.subrange(0, 0) =~= Seq::<char>::empty());
    }
}

proof fn lemma_number_error(s: Seq<char>, q: nat)
    requires
        q < s.len(),
        is_digit(s[q as int]),
        digits_value(literal_digits(s, q)) > u64::MAX || literal_scale(s, q) > u32::MAX,
    ensures
        lex_token(s, q) == Err::<(Lexeme, nat), LexerError>(LexerError::NumberTooLarge),
{
}

/// Once a prefix of the integer digits overflows, the whole literal does.
proof fn lemma_number_overflows(s: Seq<char>, q: nat, e: nat)
    requires
        q < e <= skip_digits(s, q),
        skip_digits(s, q) <= s.len(),
        digits_value(s.subrange(q as int, e as int)) > u64::MAX,
    ensures
        digits_value(literal_digits(s, q)) > u64::MAX,
{
    let a = skip_digits(s, q);
    let full = literal_digits(s, q);
    let rest = full.subrange(e - q, full.len() as int);
    assert(full.len() >= a - q);
    assert(full =~= s.subrange(q as int, e as int) + rest);
    lemma_digits_value_grows(s.subrange(q as int, e as int), rest);
}

/// Once a prefix of the digits overflows, the whole literal does.
proof fn lemma_fraction_overflows(s: Seq<char>, q: nat, dot: nat, e: nat)
    requires
        q <= dot,
        dot == skip_digits(s, q),
        dot < s.len(),
        s[dot as int] == '.',
        dot < e <= skip_digits(s, dot + 1),
        skip_digits(s, dot + 1) <= s.len(),
        digits_value(s.subrange(q as int, dot as int) + s.subrange((dot + 1) as int, e as int)) > u64::MAX,
    ensures
        digits_value(literal_digits(s, q)) > u64::MAX,
{
    let pre = s.subrange(q as int, dot as int) + s.subrange((dot + 1) as int, e as int);
    let rest = s.subrange(e as int, skip_digits(s, dot + 1) as int);
    assert(literal_digits(s, q) =~= pre + rest);
    lemma_digits_value_grows(pre, rest);
}

} // verus!
