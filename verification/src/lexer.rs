//! The scanner: turns a character sequence into an ordered sequence of
//! classified tokens, or fails with a `LexicalError`.
//!
//! The spec-level model is `spec_step`, which gives the token beginning
//! at a position (after any whitespace) together with the position just
//! past it, and `spec_tokenize`, which iterates `spec_step` to the
//! end-of-input token.  The executable scanner is proved to return
//! exactly what the model says, error cases included.

use vstd::prelude::*;
use vstd::string::StrSliceExecFns;
use vstd::string::StringExecFns;

use crate::errors::LexicalError;

verus! {

// ---------------------------------------------------------------------
// Character classes
// ---------------------------------------------------------------------

/// The whitespace characters the scanner discards between tokens.
pub open spec fn is_ws_char(c: char) -> bool {
    c == ' ' || c == '\t' || c == '\n' || c == '\r'
}

/// An ASCII decimal digit.
pub open spec fn is_digit_char(c: char) -> bool {
    48 <= (c as u32) && (c as u32) <= 57
}

/// An ASCII letter or digit; keywords are maximal runs of these.
pub open spec fn is_alnum_char(c: char) -> bool {
    is_digit_char(c) || (65 <= (c as u32) && (c as u32) <= 90) || (97 <= (c as u32) && (c as u32)
        <= 122)
}

// ---------------------------------------------------------------------
// Tokens and their mathematical views
// ---------------------------------------------------------------------

/// The digits of a scanned numeric literal, kept exactly as written.
/// An empty `frac_part` means the literal had no fractional part.
#[derive(Debug, PartialEq, Eq)]
pub struct JsonNumber {
    pub negative: bool,
    pub int_part: String,
    pub frac_part: String,
}

/// View of `JsonNumber`: the same components over character sequences.
pub ghost struct NumV {
    pub negative: bool,
    pub int_part: Seq<char>,
    pub frac_part: Seq<char>,
}

/// The classification of one token.
#[derive(Debug, PartialEq, Eq)]
pub enum TokenKind {
    LeftBracket,
    RightBracket,
    LeftBrace,
    RightBrace,
    Comma,
    Colon,
    Null,
    True,
    False,
    String(String),
    Number(JsonNumber),
    Eof,
}

/// View of `TokenKind` over character sequences.
pub ghost enum TokenKindV {
    LeftBracket,
    RightBracket,
    LeftBrace,
    RightBrace,
    Comma,
    Colon,
    Null,
    True,
    False,
    String(Seq<char>),
    Number(NumV),
    Eof,
}

/// One classified token: its kind and its literal text span.
#[derive(Debug, PartialEq, Eq)]
pub struct Token {
    pub token_type: TokenKind,
    pub lexeme: String,
}

/// View of `Token`.
pub ghost struct TokenV {
    pub kind: TokenKindV,
    pub lexeme: Seq<char>,
}

/// The text a number denotes: its sign, its integer digits, and its
/// fractional digits after a dot if there are any.
pub open spec fn spec_number_text(n: NumV) -> Seq<char> {
    (if n.negative {
        seq!['-']
    } else {
        Seq::empty()
    }) + n.int_part + (if n.frac_part.len() > 0 {
        seq!['.'] + n.frac_part
    } else {
        Seq::empty()
    })
}

impl JsonNumber {
    /// An owned copy with the same components.
    pub fn duplicate(&self) -> (r: JsonNumber)
        ensures
            r@ == self@,
    {
        JsonNumber {
            negative: self.negative,
            int_part: self.int_part.clone(),
            frac_part: self.frac_part.clone(),
        }
    }

    /// The numeric text this number was scanned from.
    pub fn to_text(&self) -> (r: String)
        ensures
            r@ == spec_number_text(self@),
    {
        let mut out = String::new();
        if self.negative {
            out.append("-");
        }
        out.append(self.int_part.as_str());
        if self.frac_part.as_str().unicode_len() > 0 {
            out.append(".");
            out.append(self.frac_part.as_str());
        }
        proof {
            reveal_strlit("-");
            reveal_strlit(".");
            assert(out@ =~= spec_number_text(self@));
        }
        out
    }
}

impl View for JsonNumber {
    type V = NumV;

    open spec fn view(&self) -> NumV {
        NumV { negative: self.negative, int_part: self.int_part@, frac_part: self.frac_part@ }
    }
}

impl View for TokenKind {
    type V = TokenKindV;

    open spec fn view(&self) -> TokenKindV {
        match self {
            TokenKind::LeftBracket => TokenKindV::LeftBracket,
            TokenKind::RightBracket => TokenKindV::RightBracket,
            TokenKind::LeftBrace => TokenKindV::LeftBrace,
            TokenKind::RightBrace => TokenKindV::RightBrace,
            TokenKind::Comma => TokenKindV::Comma,
            TokenKind::Colon => TokenKindV::Colon,
            TokenKind::Null => TokenKindV::Null,
            TokenKind::True => TokenKindV::True,
            TokenKind::False => TokenKindV::False,
            TokenKind::String(s) => TokenKindV::String(s@),
            TokenKind::Number(n) => TokenKindV::Number(n@),
            TokenKind::Eof => TokenKindV::Eof,
        }
    }
}

impl View for Token {
    type V = TokenV;

    open spec fn view(&self) -> TokenV {
        TokenV { kind: self.token_type@, lexeme: self.lexeme@ }
    }
}

impl DeepView for Token {
    type V = TokenV;

    open spec fn deep_view(&self) -> TokenV {
        self.view()
    }
}

// ---------------------------------------------------------------------
// The scanner's spec-level model
// ---------------------------------------------------------------------

/// Index of the first `"` at or after `i`, if any.
pub open spec fn spec_close_quote(s: Seq<char>, i: int) -> Option<int>
    decreases s.len() - i,
{
    if i < 0 || i >= s.len() {
        None
    } else if s[i] == '"' {
        Some(i)
    } else {
        spec_close_quote(s, i + 1)
    }
}

/// Index just past the run of digits beginning at `i`.
pub open spec fn spec_digit_run_end(s: Seq<char>, i: int) -> int
    decreases s.len() - i,
{
    if 0 <= i && i < s.len() && is_digit_char(s[i]) {
        spec_digit_run_end(s, i + 1)
    } else {
        i
    }
}

/// Index just past the run of alphanumeric characters beginning at `i`.
pub open spec fn spec_alnum_run_end(s: Seq<char>, i: int) -> int
    decreases s.len() - i,
{
    if 0 <= i && i < s.len() && is_alnum_char(s[i]) {
        spec_alnum_run_end(s, i + 1)
    } else {
        i
    }
}

/// The string token beginning at the `"` at position `i`: its text is
/// everything up to the next `"`, which is consumed; there is no escape
/// processing.  Fails if the closing quote never arrives.
pub open spec fn spec_scan_string(s: Seq<char>, i: int) -> Result<(TokenV, int), LexicalError> {
    match spec_close_quote(s, i + 1) {
        Option::None => Result::Err(LexicalError::UnterminatedString),
        Option::Some(q) => Result::Ok(
            (TokenV { kind: TokenKindV::String(s.subrange(i + 1, q)), lexeme: s.subrange(i + 1, q) },
            q + 1),
        ),
    }
}

/// The number token beginning at position `i` (a digit or `-`): an
/// optional sign, one or more digits, optionally a dot with one or more
/// digits.  A sign or a dot with no digits after it is a lexical error.
pub open spec fn spec_scan_number(s: Seq<char>, i: int) -> Result<(TokenV, int), LexicalError> {
    let digits_start = if s[i] == '-' {
        i + 1
    } else {
        i
    };
    let int_end = spec_digit_run_end(s, digits_start);
    if int_end == digits_start {
        Result::Err(LexicalError::MalformedNumber)
    } else if int_end < s.len() && s[int_end] == '.' {
        let frac_end = spec_digit_run_end(s, int_end + 1);
        if frac_end == int_end + 1 {
            Result::Err(LexicalError::MalformedNumber)
        } else {
            Result::Ok(
                (TokenV {
                    kind: TokenKindV::Number(
                        NumV {
                            negative: s[i] == '-',
                            int_part: s.subrange(digits_start, int_end),
                            frac_part: s.subrange(int_end + 1, frac_end),
                        },
                    ),
                    lexeme: s.subrange(i, frac_end),
                }, frac_end),
            )
        }
    } else {
        Result::Ok(
            (TokenV {
                kind: TokenKindV::Number(
                    NumV {
                        negative: s[i] == '-',
                        int_part: s.subrange(digits_start, int_end),
                        frac_part: Seq::empty(),
                    },
                ),
                lexeme: s.subrange(i, int_end),
            }, int_end),
        )
    }
}

/// The keyword token beginning at position `i` (`t`, `f` or `n`): a
/// maximal alphanumeric run matched exactly against the three keywords.
pub open spec fn spec_scan_word(s: Seq<char>, i: int) -> Result<(TokenV, int), LexicalError> {
    let end = spec_alnum_run_end(s, i);
    let word = s.subrange(i, end);
    if word == seq!['t', 'r', 'u', 'e'] {
        Result::Ok((TokenV { kind: TokenKindV::True, lexeme: word }, end))
    } else if word == seq!['f', 'a', 'l', 's', 'e'] {
        Result::Ok((TokenV { kind: TokenKindV::False, lexeme: word }, end))
    } else if word == seq!['n', 'u', 'l', 'l'] {
        Result::Ok((TokenV { kind: TokenKindV::Null, lexeme: word }, end))
    } else {
        Result::Err(LexicalError::UnknownKeyword)
    }
}

/// The token beginning at position `i`, whitespace skipped, together
/// with the position just past it.  At the end of input the result is
/// the end-of-input token, which consumes nothing.
pub open spec fn spec_step(s: Seq<char>, i: int) -> Result<(TokenV, int), LexicalError>
    decreases s.len() - i,
{
    if i < 0 {
        Result::Err(LexicalError::UnexpectedCharacter)
    } else if i >= s.len() {
        Result::Ok((TokenV { kind: TokenKindV::Eof, lexeme: Seq::empty() }, i))
    } else if is_ws_char(s[i]) {
        spec_step(s, i + 1)
    } else if s[i] == '{' {
        Result::Ok((TokenV { kind: TokenKindV::LeftBrace, lexeme: seq!['{'] }, i + 1))
    } else if s[i] == '}' {
        Result::Ok((TokenV { kind: TokenKindV::RightBrace, lexeme: seq!['}'] }, i + 1))
    } else if s[i] == '[' {
        Result::Ok((TokenV { kind: TokenKindV::LeftBracket, lexeme: seq!['['] }, i + 1))
    } else if s[i] == ']' {
        Result::Ok((TokenV { kind: TokenKindV::RightBracket, lexeme: seq![']'] }, i + 1))
    } else if s[i] == ',' {
        Result::Ok((TokenV { kind: TokenKindV::Comma, lexeme: seq![','] }, i + 1))
    } else if s[i] == ':' {
        Result::Ok((TokenV { kind: TokenKindV::Colon, lexeme: seq![':'] }, i + 1))
    } else if s[i] == '"' {
        spec_scan_string(s, i)
    } else if s[i] == '-' || is_digit_char(s[i]) {
        spec_scan_number(s, i)
    } else if s[i] == 't' || s[i] == 'f' || s[i] == 'n' {
        spec_scan_word(s, i)
    } else {
        Result::Err(LexicalError::UnexpectedCharacter)
    }
}

/// Bounds of `spec_close_quote`: a found quote lies at or after `i` and
/// inside the sequence.
pub proof fn lemma_close_quote_bounds(s: Seq<char>, i: int)
    ensures
        match spec_close_quote(s, i) {
            Option::Some(q) => i <= q < s.len() && s[q] == '"',
            Option::None => true,
        },
    decreases s.len() - i,
{
    if i < 0 || i >= s.len() {
    } else if s[i] == '"' {
    } else {
        lemma_close_quote_bounds(s, i + 1);
    }
}

/// Bounds of `spec_digit_run_end`: the run ends at or after `i`, inside
/// the sequence whenever `i` is, and every character in it is a digit.
pub proof fn lemma_digit_run_bounds(s: Seq<char>, i: int)
    ensures
        i <= spec_digit_run_end(s, i),
        i <= s.len() ==> spec_digit_run_end(s, i) <= s.len(),
        forall|k: int| i <= k < spec_digit_run_end(s, i) ==> is_digit_char(s[k]),
    decreases s.len() - i,
{
    if 0 <= i && i < s.len() && is_digit_char(s[i]) {
        lemma_digit_run_bounds(s, i + 1);
    }
}

/// Bounds of `spec_alnum_run_end`, as for the digit run.
pub proof fn lemma_alnum_run_bounds(s: Seq<char>, i: int)
    ensures
        i <= spec_alnum_run_end(s, i),
        i <= s.len() ==> spec_alnum_run_end(s, i) <= s.len(),
        forall|k: int| i <= k < spec_alnum_run_end(s, i) ==> is_alnum_char(s[k]),
    decreases s.len() - i,
{
    if 0 <= i && i < s.len() && is_alnum_char(s[i]) {
        lemma_alnum_run_bounds(s, i + 1);
    }
}

/// A digit run over digits ends exactly where the digits end.
pub proof fn lemma_digit_run_stops(s: Seq<char>, a: int, b: int)
    requires
        0 <= a <= b <= s.len(),
        forall|k: int| a <= k < b ==> is_digit_char(s[k]),
        b == s.len() || !is_digit_char(s[b]),
    ensures
        spec_digit_run_end(s, a) == b,
    decreases b - a,
{
    if a < b {
        lemma_digit_run_stops(s, a + 1, b);
    }
}

/// An alphanumeric run over alphanumerics ends exactly where they end.
pub proof fn lemma_alnum_run_stops(s: Seq<char>, a: int, b: int)
    requires
        0 <= a <= b <= s.len(),
        forall|k: int| a <= k < b ==> is_alnum_char(s[k]),
        b == s.len() || !is_alnum_char(s[b]),
    ensures
        spec_alnum_run_end(s, a) == b,
    decreases b - a,
{
    if a < b {
        lemma_alnum_run_stops(s, a + 1, b);
    }
}

/// The first quote after a run without quotes is the one that ends it.
pub proof fn lemma_close_quote_finds(s: Seq<char>, a: int, b: int)
    requires
        0 <= a <= b < s.len(),
        forall|k: int| a <= k < b ==> s[k] != '"',
        s[b] == '"',
    ensures
        spec_close_quote(s, a) == Some(b),
    decreases b - a,
{
    if a < b {
        lemma_close_quote_finds(s, a + 1, b);
    }
}

/// Every successful step other than end-of-input consumes at least one
/// character and stays inside the sequence.
pub proof fn lemma_step_bounds(s: Seq<char>, i: int)
    ensures
        match spec_step(s, i) {
            Result::Ok((t, j)) => (t.kind is Eof && i <= j) || (i < j <= s.len()),
            Result::Err(_) => true,
        },
    decreases s.len() - i,
{
    if i < 0 || i >= s.len() {
    } else if is_ws_char(s[i]) {
        lemma_step_bounds(s, i + 1);
    } else if s[i] == '"' {
        lemma_close_quote_bounds(s, i + 1);
    } else if s[i] == '-' || is_digit_char(s[i]) {
        let digits_start = if s[i] == '-' {
            i + 1
        } else {
            i
        };
        lemma_digit_run_bounds(s, digits_start);
        let int_end = spec_digit_run_end(s, digits_start);
        if int_end != digits_start && int_end < s.len() && s[int_end] == '.' {
            lemma_digit_run_bounds(s, int_end + 1);
        }
    } else if s[i] == 't' || s[i] == 'f' || s[i] == 'n' {
        lemma_alnum_run_bounds(s, i);
        let end = spec_alnum_run_end(s, i);
        assert(s.subrange(i, end).len() == end - i);
    } else {
    }
}

/// The whole token sequence from position `i` on: tokens in input
/// order, ending with the end-of-input token, or the first lexical
/// error encountered left-to-right.
pub open spec fn spec_tokenize(s: Seq<char>, i: int) -> Result<Seq<TokenV>, LexicalError>
    decreases s.len() - i,
    via spec_tokenize_decreases
{
    match spec_step(s, i) {
        Result::Err(e) => Result::Err(e),
        Result::Ok((t, j)) => if t.kind is Eof {
            Result::Ok(seq![t])
        } else {
            match spec_tokenize(s, j) {
                Result::Err(e) => Result::Err(e),
                Result::Ok(rest) => Result::Ok(seq![t] + rest),
            }
        },
    }
}

#[via_fn]
proof fn spec_tokenize_decreases(s: Seq<char>, i: int) {
    lemma_step_bounds(s, i);
}

/// Numbers carry their value exactly: any number token the scanner
/// yields has components that print back, via `spec_number_text`, to
/// the very characters the token was scanned from.
pub proof fn lemma_number_token_text(s: Seq<char>, i: int)
    requires
        0 <= i,
    ensures
        match spec_step(s, i) {
            Result::Ok((t, j)) => match t.kind {
                TokenKindV::Number(nv) => t.lexeme == spec_number_text(nv),
                _ => true,
            },
            Result::Err(_) => true,
        },
    decreases s.len() - i,
{
    if i < s.len() && is_ws_char(s[i]) {
        lemma_number_token_text(s, i + 1);
    } else if 0 <= i < s.len() && (s[i] == '-' || is_digit_char(s[i])) {
        let digits_start = if s[i] == '-' {
            i + 1
        } else {
            i
        };
        lemma_digit_run_bounds(s, digits_start);
        let int_end = spec_digit_run_end(s, digits_start);
        if int_end != digits_start {
            if int_end < s.len() && s[int_end] == '.' {
                lemma_digit_run_bounds(s, int_end + 1);
                let frac_end = spec_digit_run_end(s, int_end + 1);
                if frac_end != int_end + 1 {
                    match spec_step(s, i) {
                        Result::Ok((t, j)) => match t.kind {
                            TokenKindV::Number(nv) => {
                                assert(t.lexeme =~= spec_number_text(nv));
                            },
                            _ => {},
                        },
                        Result::Err(_) => {},
                    }
                }
            } else {
                match spec_step(s, i) {
                    Result::Ok((t, j)) => match t.kind {
                        TokenKindV::Number(nv) => {
                            assert(t.lexeme =~= spec_number_text(nv));
                        },
                        _ => {},
                    },
                    Result::Err(_) => {},
                }
            }
        }
    }
}

/// Every number token the scanner yields is well formed: at least one
/// integer digit, digits only in both parts, so its text denotes a
/// decimal number.
pub proof fn lemma_number_token_wf(s: Seq<char>, i: int)
    requires
        0 <= i,
    ensures
        match spec_step(s, i) {
            Result::Ok((t, j)) => match t.kind {
                TokenKindV::Number(nv) => nv.int_part.len() > 0 && (forall|k: int|
                    0 <= k < nv.int_part.len() ==> is_digit_char(nv.int_part[k])) && (forall|k: int|
                    0 <= k < nv.frac_part.len() ==> is_digit_char(nv.frac_part[k])),
                _ => true,
            },
            Result::Err(_) => true,
        },
    decreases s.len() - i,
{
    if i < s.len() && is_ws_char(s[i]) {
        lemma_number_token_wf(s, i + 1);
    } else if 0 <= i < s.len() && (s[i] == '-' || is_digit_char(s[i])) {
        let digits_start = if s[i] == '-' {
            i + 1
        } else {
            i
        };
        lemma_digit_run_bounds(s, digits_start);
        let int_end = spec_digit_run_end(s, digits_start);
        if int_end != digits_start && int_end < s.len() && s[int_end] == '.' {
            lemma_digit_run_bounds(s, int_end + 1);
        }
    }
}

/// Tokenization is repeatable: it is a function of the input
/// characters alone, so two scans of one input yield equal outcomes,
/// token for token, or the same error.
pub proof fn lemma_tokenize_deterministic(
    s: Seq<char>,
    r1: Result<Seq<TokenV>, LexicalError>,
    r2: Result<Seq<TokenV>, LexicalError>,
)
    requires
        r1 == spec_tokenize(s, 0),
        r2 == spec_tokenize(s, 0),
    ensures
        r1 == r2,
{
}

/// A token sequence prefixed to the outcome of scanning a rest.
pub open spec fn spec_prepend(ts: Seq<TokenV>, r: Result<Seq<TokenV>, LexicalError>) -> Result<
    Seq<TokenV>,
    LexicalError,
> {
    match r {
        Result::Ok(rest) => Result::Ok(ts + rest),
        Result::Err(e) => Result::Err(e),
    }
}

// ---------------------------------------------------------------------
// Executable character classes
// ---------------------------------------------------------------------

fn is_ws_exec(c: char) -> (r: bool)
    ensures
        r == is_ws_char(c),
{
    c == ' ' || c == '\t' || c == '\n' || c == '\r'
}

fn is_digit_exec(c: char) -> (r: bool)
    ensures
        r == is_digit_char(c),
{
    let u: u32 = c as u32;
    48 <= u && u <= 57
}

fn is_alnum_exec(c: char) -> (r: bool)
    ensures
        r == is_alnum_char(c),
{
    let u: u32 = c as u32;
    (48 <= u && u <= 57) || (65 <= u && u <= 90) || (97 <= u && u <= 122)
}

// ---------------------------------------------------------------------
// The executable scanner
// ---------------------------------------------------------------------

/// Scanner state: the source characters and a forward-only cursor,
/// created once per call and discarded after token extraction.
#[derive(Debug)]
pub struct Lexer {
    input: String,
    current: usize,
}

impl Lexer {
    /// The source character sequence.
    pub closed spec fn src(self) -> Seq<char> {
        self.input@
    }

    /// The cursor position.
    pub closed spec fn pos(self) -> int {
        self.current as int
    }

    /// The cursor never leaves the source.
    pub open spec fn wf(self) -> bool {
        0 <= self.pos() <= self.src().len()
    }

    pub fn new(source: &str) -> (lexer: Lexer)
        ensures
            lexer.src() == source@,
            lexer.pos() == 0,
            lexer.wf(),
    {
        Lexer { input: String::from_str(source), current: 0 }
    }

    fn text_len(&self) -> (n: usize)
        ensures
            n == self.src().len(),
    {
        self.input.as_str().unicode_len()
    }

    /// The character under the cursor, if any.
    fn get_current(&self) -> (c: Option<char>)
        requires
            self.wf(),
        ensures
            match c {
                Some(ch) => self.pos() < self.src().len() && ch == self.src()[self.pos()],
                None => self.pos() == self.src().len(),
            },
    {
        if self.current < self.text_len() {
            Some(self.input.as_str().get_char(self.current))
        } else {
            None
        }
    }

    fn advance_current(&mut self)
        requires
            old(self).wf(),
            old(self).pos() < old(self).src().len(),
        ensures
            final(self).src() == old(self).src(),
            final(self).pos() == old(self).pos() + 1,
            final(self).wf(),
    {
        let _n: usize = self.text_len();
        self.current = self.current + 1;
    }

    /// The characters of `[a, b)` as an owned string.
    fn slice_text(&self, a: usize, b: usize) -> (r: String)
        requires
            a <= b <= self.src().len(),
        ensures
            r@ == self.src().subrange(a as int, b as int),
    {
        String::from_str(self.input.as_str().substring_char(a, b))
    }

    /// Skips the run of whitespace under the cursor, which changes no
    /// outcome of the scan.
    fn ignore_whitespace(&mut self)
        requires
            old(self).wf(),
        ensures
            final(self).src() == old(self).src(),
            final(self).wf(),
            old(self).pos() <= final(self).pos(),
            spec_step(final(self).src(), old(self).pos()) == spec_step(
                final(self).src(),
                final(self).pos(),
            ),
            final(self).pos() < final(self).src().len() ==> !is_ws_char(
                final(self).src()[final(self).pos()],
            ),
        decreases old(self).src().len() - old(self).pos(),
    {
        match self.get_current() {
            Some(c) => {
                if is_ws_exec(c) {
                    self.advance_current();
                    self.ignore_whitespace();
                }
            },
            None => {},
        }
    }

    fn scan_string_end(&self, i: usize) -> (r: Option<usize>)
        requires
            i <= self.src().len(),
        ensures
            match r {
                Some(q) => spec_close_quote(self.src(), i as int) == Some(q as int) && i <= q
                    < self.src().len(),
                None => spec_close_quote(self.src(), i as int) is None,
            },
        decreases self.src().len() - i,
    {
        if i >= self.text_len() {
            None
        } else if self.input.as_str().get_char(i) == '"' {
            Some(i)
        } else {
            self.scan_string_end(i + 1)
        }
    }

    fn digit_run_end_exec(&self, i: usize) -> (r: usize)
        requires
            i <= self.src().len(),
        ensures
            r as int == spec_digit_run_end(self.src(), i as int),
            i <= r <= self.src().len(),
        decreases self.src().len() - i,
    {
        if i < self.text_len() && is_digit_exec(self.input.as_str().get_char(i)) {
            self.digit_run_end_exec(i + 1)
        } else {
            i
        }
    }

    fn alnum_run_end_exec(&self, i: usize) -> (r: usize)
        requires
            i <= self.src().len(),
        ensures
            r as int == spec_alnum_run_end(self.src(), i as int),
            i <= r <= self.src().len(),
        decreases self.src().len() - i,
    {
        if i < self.text_len() && is_alnum_exec(self.input.as_str().get_char(i)) {
            self.alnum_run_end_exec(i + 1)
        } else {
            i
        }
    }

    /// Scans the string token whose opening quote is under the cursor.
    fn string_tokenize(&mut self) -> (r: Result<Token, LexicalError>)
        requires
            old(self).wf(),
            old(self).pos() < old(self).src().len(),
            old(self).src()[old(self).pos()] == '"',
        ensures
            final(self).src() == old(self).src(),
            final(self).wf(),
            match r {
                Ok(t) => spec_scan_string(old(self).src(), old(self).pos()) == Result::Ok::<
                    (TokenV, int),
                    LexicalError,
                >((t@, final(self).pos())) && old(self).pos() < final(self).pos(),
                Err(e) => spec_scan_string(old(self).src(), old(self).pos()) == Result::Err::<
                    (TokenV, int),
                    LexicalError,
                >(e),
            },
    {
        let n: usize = self.text_len();
        let start: usize = self.current + 1;
        match self.scan_string_end(start) {
            None => Err(LexicalError::UnterminatedString),
            Some(q) => {
                let content = self.slice_text(start, q);
                let lexeme = self.slice_text(start, q);
                self.current = q + 1;
                Ok(Token { token_type: TokenKind::String(content), lexeme })
            },
        }
    }

    /// Scans the number token beginning under the cursor.
    fn number_tokenize(&mut self) -> (r: Result<Token, LexicalError>)
        requires
            old(self).wf(),
            old(self).pos() < old(self).src().len(),
            old(self).src()[old(self).pos()] == '-' || is_digit_char(
                old(self).src()[old(self).pos()],
            ),
        ensures
            final(self).src() == old(self).src(),
            final(self).wf(),
            match r {
                Ok(t) => spec_scan_number(old(self).src(), old(self).pos()) == Result::Ok::<
                    (TokenV, int),
                    LexicalError,
                >((t@, final(self).pos())) && old(self).pos() < final(self).pos(),
                Err(e) => spec_scan_number(old(self).src(), old(self).pos()) == Result::Err::<
                    (TokenV, int),
                    LexicalError,
                >(e),
            },
    {
        let number_start: usize = self.current;
        let n: usize = self.text_len();
        let negative: bool = self.input.as_str().get_char(self.current) == '-';
        let digits_start: usize = if negative {
            self.current + 1
        } else {
            self.current
        };
        let int_end: usize = self.digit_run_end_exec(digits_start);
        if int_end == digits_start {
            return Err(LexicalError::MalformedNumber);
        }
        if int_end < n && self.input.as_str().get_char(int_end) == '.' {
            let frac_start: usize = int_end + 1;
            let frac_end: usize = self.digit_run_end_exec(frac_start);
            if frac_end == frac_start {
                return Err(LexicalError::MalformedNumber);
            }
            let number = JsonNumber {
                negative,
                int_part: self.slice_text(digits_start, int_end),
                frac_part: self.slice_text(frac_start, frac_end),
            };
            let lexeme = self.slice_text(number_start, frac_end);
            self.current = frac_end;
            Ok(Token { token_type: TokenKind::Number(number), lexeme })
        } else {
            let number = JsonNumber {
                negative,
                int_part: self.slice_text(digits_start, int_end),
                frac_part: String::new(),
            };
            let lexeme = self.slice_text(number_start, int_end);
            self.current = int_end;
            Ok(Token { token_type: TokenKind::Number(number), lexeme })
        }
    }

    /// Scans the keyword token beginning under the cursor.
    fn bool_or_null_tokenize(&mut self) -> (r: Result<Token, LexicalError>)
        requires
            old(self).wf(),
        ensures
            final(self).src() == old(self).src(),
            final(self).wf(),
            match r {
                Ok(t) => spec_scan_word(old(self).src(), old(self).pos()) == Result::Ok::<
                    (TokenV, int),
                    LexicalError,
                >((t@, final(self).pos())) && old(self).pos() < final(self).pos(),
                Err(e) => spec_scan_word(old(self).src(), old(self).pos()) == Result::Err::<
                    (TokenV, int),
                    LexicalError,
                >(e),
            },
    {
        proof {
            lemma_alnum_run_bounds(self.src(), self.pos());
        }
        let end: usize = self.alnum_run_end_exec(self.current);
        let word = self.slice_text(self.current, end);
        proof {
            reveal_strlit("true");
            reveal_strlit("false");
            reveal_strlit("null");
            assert("true"@ =~= seq!['t', 'r', 'u', 'e']);
            assert("false"@ =~= seq!['f', 'a', 'l', 's', 'e']);
            assert("null"@ =~= seq!['n', 'u', 'l', 'l']);
        }
        proof {
            assert(word@.len() == end - self.pos());
        }
        if word == String::from_str("true") {
            self.current = end;
            Ok(Token { token_type: TokenKind::True, lexeme: word })
        } else if word == String::from_str("false") {
            self.current = end;
            Ok(Token { token_type: TokenKind::False, lexeme: word })
        } else if word == String::from_str("null") {
            self.current = end;
            Ok(Token { token_type: TokenKind::Null, lexeme: word })
        } else {
            Err(LexicalError::UnknownKeyword)
        }
    }

    /// Classifies and returns the next token, or the first lexical
    /// error, exactly as `spec_step` says.
    pub fn next_token(&mut self) -> (r: Result<Token, LexicalError>)
        requires
            old(self).wf(),
        ensures
            final(self).src() == old(self).src(),
            final(self).wf(),
            match r {
                Ok(t) => spec_step(old(self).src(), old(self).pos()) == Result::Ok::<
                    (TokenV, int),
                    LexicalError,
                >((t@, final(self).pos())) && old(self).pos() <= final(self).pos() && (!(t@.kind
                    is Eof) ==> old(self).pos() < final(self).pos()),
                Err(e) => spec_step(old(self).src(), old(self).pos()) == Result::Err::<
                    (TokenV, int),
                    LexicalError,
                >(e),
            },
    {
        self.ignore_whitespace();
        match self.get_current() {
            None => Ok(Token { token_type: TokenKind::Eof, lexeme: String::new() }),
            Some(c) => {
                if c == '{' {
                    self.advance_current();
                    let lexeme = String::from_str("{");
                    proof {
                        reveal_strlit("{");
                        assert(lexeme@ =~= seq!['{']);
                    }
                    Ok(Token { token_type: TokenKind::LeftBrace, lexeme })
                } else if c == '}' {
                    self.advance_current();
                    let lexeme = String::from_str("}");
                    proof {
                        reveal_strlit("}");
                        assert(lexeme@ =~= seq!['}']);
                    }
                    Ok(Token { token_type: TokenKind::RightBrace, lexeme })
                } else if c == '[' {
                    self.advance_current();
                    let lexeme = String::from_str("[");
                    proof {
                        reveal_strlit("[");
                        assert(lexeme@ =~= seq!['[']);
                    }
                    Ok(Token { token_type: TokenKind::LeftBracket, lexeme })
                } else if c == ']' {
                    self.advance_current();
                    let lexeme = String::from_str("]");
                    proof {
                        reveal_strlit("]");
                        assert(lexeme@ =~= seq![']']);
                    }
                    Ok(Token { token_type: TokenKind::RightBracket, lexeme })
                } else if c == ',' {
                    self.advance_current();
                    let lexeme = String::from_str(",");
                    proof {
                        reveal_strlit(",");
                        assert(lexeme@ =~= seq![',']);
                    }
                    Ok(Token { token_type: TokenKind::Comma, lexeme })
                } else if c == ':' {
                    self.advance_current();
                    let lexeme = String::from_str(":");
                    proof {
                        reveal_strlit(":");
                        assert(lexeme@ =~= seq![':']);
                    }
                    Ok(Token { token_type: TokenKind::Colon, lexeme })
                } else if c == '"' {
                    self.string_tokenize()
                } else if c == '-' || is_digit_exec(c) {
                    self.number_tokenize()
                } else if c == 't' || c == 'f' || c == 'n' {
                    self.bool_or_null_tokenize()
                } else {
                    Err(LexicalError::UnexpectedCharacter)
                }
            },
        }
    }

    /// Scans the whole source into tokens ending with the end-of-input
    /// token, or fails with the first lexical error, exactly as
    /// `spec_tokenize` says.
    pub fn get_tokens(&mut self) -> (r: Result<Vec<Token>, LexicalError>)
        requires
            old(self).wf(),
        ensures
            match r {
                Ok(tokens) => spec_tokenize(old(self).src(), old(self).pos()) == Result::Ok::<
                    Seq<TokenV>,
                    LexicalError,
                >(tokens.deep_view()),
                Err(e) => spec_tokenize(old(self).src(), old(self).pos()) == Result::Err::<
                    Seq<TokenV>,
                    LexicalError,
                >(e),
            },
    {
        let ghost src0 = self.src();
        let ghost pos0 = self.pos();
        let mut tokens: Vec<Token> = Vec::new();
        proof {
            assert(tokens.deep_view() =~= Seq::<TokenV>::empty());
        }
        loop
            invariant
                old(self).src() == src0,
                old(self).pos() == pos0,
                self.wf(),
                self.src() == src0,
                spec_prepend(tokens.deep_view(), spec_tokenize(src0, self.pos())) == spec_tokenize(
                    src0,
                    pos0,
                ),
            decreases src0.len() - self.pos(),
        {
            let ghost p = self.pos();
            let ghost dv0 = tokens.deep_view();
            match self.next_token() {
                Err(e) => {
                    proof {
                        assert(spec_tokenize(src0, p) == Result::Err::<Seq<TokenV>, LexicalError>(
                            e,
                        ));
                        assert(spec_tokenize(src0, pos0) == Result::Err::<
                            Seq<TokenV>,
                            LexicalError,
                        >(e));
                    }
                    return Err(e);
                },
                Ok(t) => {
                    let is_eof = match &t.token_type {
                        TokenKind::Eof => true,
                        _ => false,
                    };
                    let ghost tv = t@;
                    let ghost newpos = self.pos();
                    tokens.push(t);
                    proof {
                        assert(tokens.deep_view() =~= dv0.push(tv));
                        assert(dv0 + seq![tv] =~= tokens.deep_view());
                        assert(spec_step(src0, p) == Result::Ok::<(TokenV, int), LexicalError>(
                            (tv, newpos),
                        ));
                    }
                    if is_eof {
                        proof {
                            assert(tv.kind is Eof);
                            assert(spec_tokenize(src0, p) == Result::Ok::<
                                Seq<TokenV>,
                                LexicalError,
                            >(seq![tv]));
                            assert(spec_tokenize(src0, pos0) == Result::Ok::<
                                Seq<TokenV>,
                                LexicalError,
                            >(dv0 + seq![tv]));
                            assert(spec_tokenize(src0, pos0) == Result::Ok::<
                                Seq<TokenV>,
                                LexicalError,
                            >(tokens.deep_view()));
                        }
                        return Ok(tokens);
                    }
                    proof {
                        assert(!(tv.kind is Eof));
                        match spec_tokenize(src0, newpos) {
                            Result::Ok(rest) => {
                                assert(spec_tokenize(src0, p) == Result::Ok::<
                                    Seq<TokenV>,
                                    LexicalError,
                                >(seq![tv] + rest));
                                assert(dv0 + (seq![tv] + rest) =~= (dv0 + seq![tv]) + rest);
                            },
                            Result::Err(e2) => {
                                assert(spec_tokenize(src0, p) == Result::Err::<
                                    Seq<TokenV>,
                                    LexicalError,
                                >(e2));
                            },
                        }
                    }
                },
            }
        }
    }
}

/// Converts a textual document into its token sequence, or fails with
/// the first lexical error, exactly as `spec_tokenize` says.  An empty
/// input yields just the end-of-input token.
pub fn tokenize(source: &str) -> (r: Result<Vec<Token>, LexicalError>)
    ensures
        match r {
            Ok(tokens) => spec_tokenize(source@, 0) == Result::Ok::<Seq<TokenV>, LexicalError>(
                tokens.deep_view(),
            ),
            Err(e) => spec_tokenize(source@, 0) == Result::Err::<Seq<TokenV>, LexicalError>(e),
        },
{
    let mut lexer = Lexer::new(source);
    lexer.get_tokens()
}

} // verus!
