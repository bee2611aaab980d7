use vstd::prelude::*;

use crate::span::{Loc, Span};
use crate::text::{byte_offset, lemma_byte_offset_grows, push_char, width_of};

verus! {

/// A located token. String and number tokens keep their source text.
#[derive(Debug, PartialEq)]
pub enum Token {
    LeftBrace(LeftBraceToken),
    RightBrace(RightBraceToken),
    LeftBracket(LeftBracketToken),
    RightBracket(RightBracketToken),
    Colon(ColonToken),
    Comma(CommaToken),
    String(StringToken),
    Number(NumberToken),
    Boolean(BoolToken),
    Null(NullToken),
}

#[derive(Debug, PartialEq)]
pub struct LeftBraceToken {
    pub span: Span,
}

#[derive(Debug, PartialEq)]
pub struct RightBraceToken {
    pub span: Span,
}

#[derive(Debug, PartialEq)]
pub struct LeftBracketToken {
    pub span: Span,
}

#[derive(Debug, PartialEq)]
pub struct RightBracketToken {
    pub span: Span,
}

#[derive(Debug, PartialEq)]
pub struct ColBracketToken {
    pub span: Span,
}

#[derive(Debug, PartialEq)]
pub struct ColonToken {
    pub span: Span,
}

#[derive(Debug, PartialEq)]
pub struct CommaToken {
    pub span: Span,
}

/// A string literal; `value` is the raw lexeme, quotes and escapes included.
#[derive(Debug, PartialEq)]
pub struct StringToken {
    pub value: String,
    pub span: Span,
}

/// A number literal; `value` is its lexeme, which follows the JSON number grammar.
#[derive(Debug, PartialEq)]
pub struct NumberToken {
    pub value: String,
    pub span: Span,
}

#[derive(Debug, PartialEq)]
pub struct BoolToken {
    pub value: bool,
    pub span: Span,
}

#[derive(Debug, PartialEq)]
pub struct NullToken {
    pub span: Span,
}

/// What kind of token a token is; a boolean carries its value.
#[derive(Debug, PartialEq, Eq, Clone, Copy)]
pub enum Kind {
    LeftBrace,
    RightBrace,
    LeftBracket,
    RightBracket,
    Colon,
    Comma,
    Str,
    Number,
    Boolean(bool),
    Null,
}

/// The mathematical picture of a token: its kind, its text (the lexeme for
/// strings and numbers, empty otherwise) and its span.
pub struct TokenView {
    pub kind: Kind,
    pub text: Seq<char>,
    pub span: Span,
}

impl View for Token {
    type V = TokenView;

    open spec fn view(&self) -> TokenView {
        match self {
            Token::LeftBrace(t) => TokenView { kind: Kind::LeftBrace, text: Seq::empty(), span: t.span },
            Token::RightBrace(t) => TokenView { kind: Kind::RightBrace, text: Seq::empty(), span: t.span },
            Token::LeftBracket(t) => TokenView { kind: Kind::LeftBracket, text: Seq::empty(), span: t.span },
            Token::RightBracket(t) => TokenView { kind: Kind::RightBracket, text: Seq::empty(), span: t.span },
            Token::Colon(t) => TokenView { kind: Kind::Colon, text: Seq::empty(), span: t.span },
            Token::Comma(t) => TokenView { kind: Kind::Comma, text: Seq::empty(), span: t.span },
            Token::String(t) => TokenView { kind: Kind::Str, text: t.value@, span: t.span },
            Token::Number(t) => TokenView { kind: Kind::Number, text: t.value@, span: t.span },
            Token::Boolean(t) => TokenView { kind: Kind::Boolean(t.value), text: Seq::empty(), span: t.span },
            Token::Null(t) => TokenView { kind: Kind::Null, text: Seq::empty(), span: t.span },
        }
    }
}

/// The views of a sequence of tokens.
pub open spec fn views(ts: Seq<Token>) -> Seq<TokenView> {
    ts.map_values(|t: Token| t@)
}

impl Token {
    pub fn kind(&self) -> (r: Kind)
        ensures
            r == self@.kind,
    {
        match self {
            Token::LeftBrace(_) => Kind::LeftBrace,
            Token::RightBrace(_) => Kind::RightBrace,
            Token::LeftBracket(_) => Kind::LeftBracket,
            Token::RightBracket(_) => Kind::RightBracket,
            Token::Colon(_) => Kind::Colon,
            Token::Comma(_) => Kind::Comma,
            Token::String(_) => Kind::Str,
            Token::Number(_) => Kind::Number,
            Token::Boolean(token) => Kind::Boolean(token.value),
            Token::Null(_) => Kind::Null,
        }
    }

    pub fn get_span(&self) -> (r: &Span)
        ensures
            *r == self@.span,
    {
        match self {
            Token::LeftBrace(token) => &token.span,
            Token::RightBrace(token) => &token.span,
            Token::LeftBracket(token) => &token.span,
            Token::RightBracket(token) => &token.span,
            Token::Colon(token) => &token.span,
            Token::Comma(token) => &token.span,
            Token::String(token) => &token.span,
            Token::Number(token) => &token.span,
            Token::Boolean(token) => &token.span,
            Token::Null(token) => &token.span,
        }
    }
}

/// Why tokenization stopped.
#[derive(Debug, PartialEq, Eq, Clone, Copy)]
pub enum LexError {
    /// No token starts with this character.
    UnexpectedChar { ch: char, line: usize, column: usize },
    /// A string literal that starts here has no closing quote.
    UnterminatedString { line: usize, column: usize },
    /// A backslash in a string literal is followed by this character, which starts no escape.
    InvalidEscape { ch: char, line: usize, column: usize },
}

// ---------------------------------------------------------------------------
// The lexical grammar, over the characters of the text.

pub open spec fn punct_at(c: char) -> Option<Kind> {
    if c == '{' {
        Some(Kind::LeftBrace)
    } else if c == '}' {
        Some(Kind::RightBrace)
    } else if c == '[' {
        Some(Kind::LeftBracket)
    } else if c == ']' {
        Some(Kind::RightBracket)
    } else if c == ':' {
        Some(Kind::Colon)
    } else if c == ',' {
        Some(Kind::Comma)
    } else {
        None
    }
}

pub open spec fn hex_digit(c: char) -> bool {
    ('0' <= c && c <= '9') || ('a' <= c && c <= 'f') || ('A' <= c && c <= 'F')
}

/// The characters that may follow a backslash, `u` aside.
pub open spec fn simple_escape(c: char) -> bool {
    c == '"' || c == '\\' || c == '/' || c == 'b' || c == 'f' || c == 'n' || c == 'r' || c == 't'
}

/// Four hex digits at `j`.
pub open spec fn hex4_at(s: Seq<char>, j: int) -> bool {
    0 <= j && j + 4 <= s.len() && hex_digit(s[j]) && hex_digit(s[j + 1]) && hex_digit(s[j + 2])
        && hex_digit(s[j + 3])
}

/// How the body of a string literal ends.
#[derive(Debug, PartialEq, Eq, Clone, Copy)]
pub enum StrScan {
    /// The closing quote stands just before this index.
    Closed(usize),
    /// The text ends inside the literal.
    Unterminated,
    /// The character at this index, after a backslash, starts no escape.
    BadEscape(usize),
}

/// Scans the body of a string literal from index `j`, just after the opening quote
/// or after a complete character or escape.
pub open spec fn scan_string(s: Seq<char>, j: int) -> StrScan
    decreases s.len() - j,
{
    if j < 0 || j >= s.len() {
        StrScan::Unterminated
    } else if s[j] == '"' {
        StrScan::Closed((j + 1) as usize)
    } else if s[j] == '\\' {
        if j + 1 >= s.len() {
            StrScan::Unterminated
        } else if simple_escape(s[j + 1]) {
            scan_string(s, j + 2)
        } else if s[j + 1] == 'u' && hex4_at(s, j + 2) {
            scan_string(s, j + 6)
        } else {
            StrScan::BadEscape((j + 1) as usize)
        }
    } else {
        scan_string(s, j + 1)
    }
}

/// The states of the number grammar.
#[derive(Debug, PartialEq, Eq, Clone, Copy)]
pub enum NumberState {
    Start,
    Minus,
    Zero,
    Integer,
    Point,
    Fraction,
    Exp,
    ExpSign,
    ExpDigits,
}

pub open spec fn digit(c: char) -> bool {
    '0' <= c && c <= '9'
}

/// One transition of the number grammar; `None` where the lexeme cannot go on.
pub open spec fn number_step(st: NumberState, c: char) -> Option<NumberState> {
    match st {
        NumberState::Start => if c == '-' {
            Some(NumberState::Minus)
        } else if c == '0' {
            Some(NumberState::Zero)
        } else if digit(c) {
            Some(NumberState::Integer)
        } else {
            None
        },
        NumberState::Minus => if c == '0' {
            Some(NumberState::Zero)
        } else if digit(c) {
            Some(NumberState::Integer)
        } else {
            None
        },
        NumberState::Zero => if c == '.' {
            Some(NumberState::Point)
        } else if c == 'e' || c == 'E' {
            Some(NumberState::Exp)
        } else {
            None
        },
        NumberState::Integer => if digit(c) {
            Some(NumberState::Integer)
        } else if c == '.' {
            Some(NumberState::Point)
        } else if c == 'e' || c == 'E' {
            Some(NumberState::Exp)
        } else {
            None
        },
        NumberState::Point => if digit(c) {
            Some(NumberState::Fraction)
        } else {
            None
        },
        NumberState::Fraction => if digit(c) {
            Some(NumberState::Fraction)
        } else if c == 'e' || c == 'E' {
            Some(NumberState::Exp)
        } else {
            None
        },
        NumberState::Exp => if c == '-' || c == '+' {
            Some(NumberState::ExpSign)
        } else if digit(c) {
            Some(NumberState::ExpDigits)
        } else {
            None
        },
        NumberState::ExpSign => if digit(c) {
            Some(NumberState::ExpDigits)
        } else {
            None
        },
        NumberState::ExpDigits => if digit(c) {
            Some(NumberState::ExpDigits)
        } else {
            None
        },
    }
}

/// The states in which the characters read so far form a complete number.
pub open spec fn number_accepts(st: NumberState) -> bool {
    st == NumberState::Zero || st == NumberState::Integer || st == NumberState::Fraction || st
        == NumberState::ExpDigits
}

/// Runs the number grammar from index `j` in state `st`; `last` is the end of
/// the longest complete number seen so far. Returns the end of the longest one.
pub open spec fn number_end(s: Seq<char>, j: int, st: NumberState, last: int) -> int
    decreases s.len() - j,
{
    if 0 <= j < s.len() && number_step(st, s[j]) is Some {
        let next = number_step(st, s[j])->0;
        number_end(s, j + 1, next, if number_accepts(next) { j + 1 } else { last })
    } else {
        last
    }
}

/// The end of the longest number that starts at `i`; `i` itself where none does.
pub open spec fn number_match(s: Seq<char>, i: int) -> int {
    number_end(s, i, NumberState::Start, i)
}

pub open spec fn true_at(s: Seq<char>, i: int) -> bool {
    0 <= i && i + 4 <= s.len() && s[i] == 't' && s[i + 1] == 'r' && s[i + 2] == 'u' && s[i + 3]
        == 'e'
}

pub open spec fn false_at(s: Seq<char>, i: int) -> bool {
    0 <= i && i + 5 <= s.len() && s[i] == 'f' && s[i + 1] == 'a' && s[i + 2] == 'l' && s[i + 3]
        == 's' && s[i + 4] == 'e'
}

pub open spec fn null_at(s: Seq<char>, i: int) -> bool {
    0 <= i && i + 4 <= s.len() && s[i] == 'n' && s[i + 1] == 'u' && s[i + 2] == 'l' && s[i + 3]
        == 'l'
}

/// The location of index `i`, on `line` at `column`.
pub open spec fn loc_of(s: Seq<char>, i: int, line: int, column: int) -> Loc {
    Loc { line: line as usize, column: column as usize, offset: byte_offset(s, i) as usize }
}

/// The span of the characters `[i, end)`, which lie on one line that starts
/// at `column` for index `i`.
pub open spec fn span_of(s: Seq<char>, i: int, end: int, line: int, column: int) -> Span {
    Span { start: loc_of(s, i, line, column), end: loc_of(s, end, line, column + (end - i)) }
}

/// The token of kind `kind` over the characters `[i, end)`.
pub open spec fn token_of(kind: Kind, s: Seq<char>, i: int, end: int, line: int, column: int) -> TokenView {
    TokenView {
        kind,
        text: if kind == Kind::Str || kind == Kind::Number { s.subrange(i, end) } else { Seq::empty() },
        span: span_of(s, i, end, line, column),
    }
}

/// The token that starts at index `i` (no whitespace there), with the index where it ends;
/// the alternatives are tried in a fixed order.
pub open spec fn token_at(s: Seq<char>, i: int, line: int, column: int) -> Result<(TokenView, int), LexError>
    recommends
        0 <= i < s.len(),
{
    if punct_at(s[i]) is Some {
        Ok((token_of(punct_at(s[i])->0, s, i, i + 1, line, column), i + 1))
    } else if s[i] == '"' {
        match scan_string(s, i + 1) {
            StrScan::Closed(end) => Ok((token_of(Kind::Str, s, i, end as int, line, column), end as int)),
            StrScan::Unterminated => Err(LexError::UnterminatedString { line: line as usize, column: column as usize }),
            StrScan::BadEscape(p) => Err(
                LexError::InvalidEscape {
                    ch: s[p as int],
                    line: line as usize,
                    column: (column + (p - i)) as usize,
                },
            ),
        }
    } else if number_match(s, i) > i {
        let end = number_match(s, i);
        Ok((token_of(Kind::Number, s, i, end, line, column), end))
    } else if true_at(s, i) {
        Ok((token_of(Kind::Boolean(true), s, i, i + 4, line, column), i + 4))
    } else if false_at(s, i) {
        Ok((token_of(Kind::Boolean(false), s, i, i + 5, line, column), i + 5))
    } else if null_at(s, i) {
        Ok((token_of(Kind::Null, s, i, i + 4, line, column), i + 4))
    } else {
        Err(LexError::UnexpectedChar { ch: s[i], line: line as usize, column: column as usize })
    }
}

/// The whitespace at index `i`, if any: where the next position is, and its line and column.
/// A line break (LF, CR, or CR LF) starts a new line at column 1.
pub open spec fn whitespace_at(s: Seq<char>, i: int, line: int, column: int) -> Option<(int, int, int)> {
    if i < 0 || i >= s.len() {
        None
    } else if s[i] == ' ' || s[i] == '\t' {
        Some((i + 1, line, column + 1))
    } else if s[i] == '\r' && i + 1 < s.len() && s[i + 1] == '\n' {
        Some((i + 2, line + 1, 1))
    } else if s[i] == '\r' || s[i] == '\n' {
        Some((i + 1, line + 1, 1))
    } else {
        None
    }
}

/// Puts `prefix` in front of the tokens of a successful result.
pub open spec fn prepend(prefix: Seq<TokenView>, r: Result<Seq<TokenView>, LexError>) -> Result<Seq<TokenView>, LexError> {
    match r {
        Ok(ts) => Ok(prefix + ts),
        Err(e) => Err(e),
    }
}

/// The tokens of `s` from index `i` on, where index `i` stands on `line` at `column`.
/// Whitespace separates tokens.
pub open spec fn lex_from(s: Seq<char>, i: int, line: int, column: int) -> Result<Seq<TokenView>, LexError>
    decreases s.len() - i,
{
    if i < 0 || i >= s.len() {
        Ok(Seq::empty())
    } else if whitespace_at(s, i, line, column) is Some {
        let (j, l, c) = whitespace_at(s, i, line, column)->0;
        lex_from(s, j, l, c)
    } else {
        match token_at(s, i, line, column) {
            // a token always takes at least one character
            Ok((t, end)) => if i < end <= s.len() {
                prepend(seq![t], lex_from(s, end, line, column + (end - i)))
            } else {
                Ok(Seq::empty())
            },
            Err(e) => Err(e),
        }
    }
}

/// `r` holds the tokens that `expected` describes, or its error.
pub open spec fn tokenized(expected: Result<Seq<TokenView>, LexError>, r: Result<Vec<Token>, LexError>) -> bool {
    match expected {
        Ok(ts) => r is Ok && views(r->Ok_0@) == ts,
        Err(e) => r == Err::<Vec<Token>, LexError>(e),
    }
}

/// The tokens of the whole text.
pub open spec fn lex(s: Seq<char>) -> Result<Seq<TokenView>, LexError> {
    lex_from(s, 0, 1, 1)
}

/// The number of bytes of the whole text.
pub open spec fn text_bytes(s: Seq<char>) -> nat {
    byte_offset(s, s.len() as int)
}


/// The tokens come in source order: each span is non-empty or empty but never
/// reversed, and each ends before the next one starts (byte offsets).
pub open spec fn ordered(ts: Seq<TokenView>) -> bool {
    &&& forall|k: int| 0 <= k < ts.len() ==> #[trigger] ts[k].span.start.offset <= ts[k].span.end.offset
    &&& forall|k: int, l: int|
        0 <= k < l < ts.len() ==> #[trigger] ts[k].span.end.offset <= #[trigger] ts[l].span.start.offset
}

/// The tokens from index `i` on are ordered and start no earlier than index `i`.
pub proof fn lemma_lex_ordered(s: Seq<char>, i: int, line: int, column: int)
    requires
        0 <= i <= s.len(),
        text_bytes(s) <= isize::MAX,
        lex_from(s, i, line, column) is Ok,
    ensures
        ordered(lex_from(s, i, line, column)->Ok_0),
        forall|k: int|
            0 <= k < lex_from(s, i, line, column)->Ok_0.len() ==> byte_offset(s, i) <= #[trigger] lex_from(
                s,
                i,
                line,
                column,
            )->Ok_0[k].span.start.offset,
    decreases s.len() - i,
{
    if i < s.len() {
        if whitespace_at(s, i, line, column) is Some {
            let (j, l, c) = whitespace_at(s, i, line, column)->0;
            lemma_lex_ordered(s, j, l, c);
            lemma_byte_offset_grows(s, i, j);
        } else {
            let (t, end) = token_at(s, i, line, column)->Ok_0;
            if i < end <= s.len() {
                let rest = lex_from(s, end, line, column + (end - i));
                lemma_lex_ordered(s, end, line, column + (end - i));
                lemma_byte_offset_grows(s, i, end);
                lemma_byte_offset_grows(s, end, s.len() as int);
                let ts = lex_from(s, i, line, column)->Ok_0;
                assert(ts =~= seq![t] + rest->Ok_0);
                assert(t.span == span_of(s, i, end, line, column));
                assert forall|k: int| 0 <= k < ts.len() implies byte_offset(s, i) <= #[trigger] ts[k].span.start.offset by {
                    if k > 0 {
                        assert(ts[k] == rest->Ok_0[k - 1]);
                    }
                }
                assert forall|k: int, l: int|
                    0 <= k < l < ts.len() implies #[trigger] ts[k].span.end.offset <= #[trigger] ts[l].span.start.offset by {
                    assert(ts[l] == rest->Ok_0[l - 1]);
                    if k > 0 {
                        assert(ts[k] == rest->Ok_0[k - 1]);
                    }
                }
                assert forall|k: int| 0 <= k < ts.len() implies #[trigger] ts[k].span.start.offset <= ts[k].span.end.offset by {
                    if k > 0 {
                        assert(ts[k] == rest->Ok_0[k - 1]);
                    }
                }
            }
        }
    }
}

/// The whitespace characters.
pub open spec fn is_blank(c: char) -> bool {
    c == ' ' || c == '\t' || c == '\r' || c == '\n'
}

/// The characters `[a, b)` are all whitespace.
pub open spec fn blank(s: Seq<char>, a: int, b: int) -> bool {
    forall|k: int| a <= k < b ==> is_blank(#[trigger] s[k])
}

/// A closed string literal ends within the text, at a quote.
pub proof fn lemma_scan_string_end(s: Seq<char>, j: int)
    requires
        0 <= j,
        s.len() <= usize::MAX,
    ensures
        scan_string(s, j) is Closed ==> j < scan_string(s, j)->Closed_0 <= s.len() && s[scan_string(s, j)->Closed_0 - 1] == '"',
    decreases s.len() - j,
{
    if 0 <= j < s.len() && s[j] != '"' {
        if s[j] == '\\' {
            if j + 1 < s.len() && simple_escape(s[j + 1]) {
                lemma_scan_string_end(s, j + 2);
            } else if j + 1 < s.len() && s[j + 1] == 'u' && hex4_at(s, j + 2) {
                lemma_scan_string_end(s, j + 6);
            }
        } else {
            lemma_scan_string_end(s, j + 1);
        }
    }
}

/// The longest number ends within the text; where it is longer than `last`, at a digit.
pub proof fn lemma_number_end(s: Seq<char>, j: int, st: NumberState, last: int)
    requires
        0 <= j,
        last <= j,
        last <= s.len(),
    ensures
        last <= number_end(s, j, st, last) <= s.len(),
        number_end(s, j, st, last) == last || (j < number_end(s, j, st, last) && digit(s[number_end(s, j, st, last) - 1])),
    decreases s.len() - j,
{
    if 0 <= j < s.len() && number_step(st, s[j]) is Some {
        let next = number_step(st, s[j])->0;
        let l = if number_accepts(next) { j + 1 } else { last };
        lemma_number_end(s, j + 1, next, l);
        if number_accepts(next) {
            assert(digit(s[j]));
        }
    }
}

/// A token lies within the text, starts and ends on a character that is not whitespace,
/// and has the span of its characters.
pub proof fn lemma_token_at(s: Seq<char>, i: int, line: int, column: int)
    requires
        0 <= i < s.len(),
        s.len() <= usize::MAX,
        whitespace_at(s, i, line, column) is None,
        token_at(s, i, line, column) is Ok,
    ensures
        ({
            let (t, end) = token_at(s, i, line, column)->Ok_0;
            &&& i < end <= s.len()
            &&& t.span == span_of(s, i, end, line, column)
            &&& !is_blank(s[i])
            &&& !is_blank(s[end - 1])
        }),
{
    lemma_scan_string_end(s, i + 1);
    lemma_number_end(s, i, NumberState::Start, i);
}

/// Where the tokens from index `i` on start and end: the first at a character
/// `a` with only whitespace before it, the last at `b` with only whitespace after it.
/// Where there are none, only whitespace follows `i`.
pub proof fn lemma_lex_edges(s: Seq<char>, i: int, line: int, column: int) -> (r: (int, int))
    requires
        0 <= i <= s.len(),
        text_bytes(s) <= isize::MAX,
        lex_from(s, i, line, column) is Ok,
    ensures
        ({
            let ts = lex_from(s, i, line, column)->Ok_0;
            let (a, b) = r;
            &&& ts.len() == 0 ==> blank(s, i, s.len() as int)
            &&& ts.len() > 0 ==> {
                &&& i <= a < b <= s.len()
                &&& blank(s, i, a)
                &&& !is_blank(s[a])
                &&& ts[0].span.start.offset == byte_offset(s, a)
                &&& blank(s, b, s.len() as int)
                &&& !is_blank(s[b - 1])
                &&& ts[ts.len() - 1].span.end.offset == byte_offset(s, b)
            }
        }),
    decreases s.len() - i,
{
    if i >= s.len() {
        (i, i)
    } else if whitespace_at(s, i, line, column) is Some {
        let (j, l, c) = whitespace_at(s, i, line, column)->0;
        let r = lemma_lex_edges(s, j, l, c);
        assert(is_blank(s[i]));
        if j == i + 2 {
            assert(is_blank(s[i + 1]));
        }
        r
    } else {
        lemma_byte_offset_grows(s, 0, s.len() as int);
        lemma_token_at(s, i, line, column);
        let (t, end) = token_at(s, i, line, column)->Ok_0;
        let rest = lex_from(s, end, line, column + (end - i))->Ok_0;
        let (a2, b2) = lemma_lex_edges(s, end, line, column + (end - i));
        lemma_byte_offset_grows(s, i, s.len() as int);
        lemma_byte_offset_grows(s, end, s.len() as int);
        let ts = lex_from(s, i, line, column)->Ok_0;
        assert(ts =~= seq![t] + rest);
        if rest.len() > 0 {
            assert(ts[ts.len() - 1] == rest[rest.len() - 1]);
            (i, b2)
        } else {
            (i, end)
        }
    }
}

/// Putting `b` and then `a` in front is putting `a + b` in front.
pub proof fn lemma_prepend_assoc(a: Seq<TokenView>, b: Seq<TokenView>, r: Result<Seq<TokenView>, LexError>)
    ensures
        prepend(a, prepend(b, r)) == prepend(a + b, r),
{
    if let Ok(ts) = r {
        assert(a + (b + ts) =~= (a + b) + ts);
    }
}

/// Whether `c` is a hex digit.
pub fn is_hex(c: &char) -> (r: bool)
    ensures
        r == hex_digit(*c),
{
    *c >= '0' && *c <= '9' || *c >= 'a' && *c <= 'f' || *c >= 'A' && *c <= 'F'
}

fn is_simple_escape(c: char) -> (r: bool)
    ensures
        r == simple_escape(c),
{
    c == '"' || c == '\\' || c == '/' || c == 'b' || c == 'f' || c == 'n' || c == 'r' || c == 't'
}

fn is_digit(c: char) -> (r: bool)
    ensures
        r == digit(c),
{
    c >= '0' && c <= '9'
}

fn step(st: NumberState, c: char) -> (r: Option<NumberState>)
    ensures
        r == number_step(st, c),
{
    match st {
        NumberState::Start => if c == '-' {
            Some(NumberState::Minus)
        } else if c == '0' {
            Some(NumberState::Zero)
        } else if is_digit(c) {
            Some(NumberState::Integer)
        } else {
            None
        },
        NumberState::Minus => if c == '0' {
            Some(NumberState::Zero)
        } else if is_digit(c) {
            Some(NumberState::Integer)
        } else {
            None
        },
        NumberState::Zero => if c == '.' {
            Some(NumberState::Point)
        } else if c == 'e' || c == 'E' {
            Some(NumberState::Exp)
        } else {
            None
        },
        NumberState::Integer => if is_digit(c) {
            Some(NumberState::Integer)
        } else if c == '.' {
            Some(NumberState::Point)
        } else if c == 'e' || c == 'E' {
            Some(NumberState::Exp)
        } else {
            None
        },
        NumberState::Point => if is_digit(c) {
            Some(NumberState::Fraction)
        } else {
            None
        },
        NumberState::Fraction => if is_digit(c) {
            Some(NumberState::Fraction)
        } else if c == 'e' || c == 'E' {
            Some(NumberState::Exp)
        } else {
            None
        },
        NumberState::Exp => if c == '-' || c == '+' {
            Some(NumberState::ExpSign)
        } else if is_digit(c) {
            Some(NumberState::ExpDigits)
        } else {
            None
        },
        NumberState::ExpSign => if is_digit(c) {
            Some(NumberState::ExpDigits)
        } else {
            None
        },
        NumberState::ExpDigits => if is_digit(c) {
            Some(NumberState::ExpDigits)
        } else {
            None
        },
    }
}

fn accepts(st: NumberState) -> (r: bool)
    ensures
        r == number_accepts(st),
{
    match st {
        NumberState::Zero | NumberState::Integer | NumberState::Fraction | NumberState::ExpDigits => true,
        _ => false,
    }
}

/// A single forward scanner over the characters of a text.
pub struct Tokenizer {
    chars: Vec<char>,
    index: usize,
    line: usize,
    column: usize,
    offset: usize,
}

impl Tokenizer {
    /// The characters of the text.
    pub closed spec fn text(&self) -> Seq<char> {
        self.chars@
    }

    /// The index of the next character to read.
    pub closed spec fn index(&self) -> int {
        self.index as int
    }

    pub closed spec fn line(&self) -> int {
        self.line as int
    }

    pub closed spec fn column(&self) -> int {
        self.column as int
    }

    pub closed spec fn wf(&self) -> bool {
        &&& self.index <= self.chars.len()
        &&& 1 <= self.line <= self.index + 1
        &&& 1 <= self.column <= self.index + 1
        &&& self.offset == byte_offset(self.chars@, self.index as int)
        &&& text_bytes(self.chars@) <= isize::MAX
    }

    /// `other` is `self` moved forward to index `end` on the same line.
    pub closed spec fn moved(&self, other: &Self, end: int) -> bool {
        &&& other.chars@ == self.chars@
        &&& other.index == end
        &&& other.line == self.line
        &&& other.column == self.column + (end - self.index)
        &&& other.wf()
    }

    pub fn new(input: &str) -> (r: Self)
        ensures
            r.wf(),
            r.text() == input@,
            r.index() == 0,
            r.line() == 1,
            r.column() == 1,
    {
        let chars = crate::text::chars_of(input);
        Tokenizer { chars, index: 0, line: 1, column: 1, offset: 0 }
    }

    /// The span from the current position to index `end_index`, on the current line.
    pub fn line_span(&self, end_index: usize) -> (r: Span)
        requires
            self.wf(),
            self.index() <= end_index <= self.text().len(),
        ensures
            r == span_of(self.text(), self.index(), end_index as int, self.line(), self.column()),
    {
        let ghost s = self.chars@;
        proof {
            lemma_byte_offset_grows(s, 0, s.len() as int);
        }
        let mut off = self.offset;
        let mut k = self.index;
        while k < end_index
            invariant
                self.wf(),
                s == self.chars@,
                self.index <= k <= end_index <= s.len(),
                off == byte_offset(s, k as int),
            decreases end_index - k,
        {
            proof {
                lemma_byte_offset_grows(s, k + 1, s.len() as int);
            }
            off = off + width_of(self.chars[k]);
            k = k + 1;
        }
        let start = Loc { line: self.line, column: self.column, offset: self.offset };
        let end = Loc { line: self.line, column: self.column + (end_index - self.index), offset: off };
        Span { start, end }
    }

    /// The characters `[start, end)` as a string.
    pub fn substring(&self, start: usize, end: usize) -> (r: String)
        requires
            start <= end <= self.text().len(),
        ensures
            r@ == self.text().subrange(start as int, end as int),
    {
        let mut r = String::new();
        let mut k = start;
        while k < end
            invariant
                start <= k <= end <= self.chars.len(),
                r@ == self.chars@.subrange(start as int, k as int),
            decreases end - k,
        {
            push_char(&mut r, self.chars[k]);
            k = k + 1;
            assert(r@ =~= self.chars@.subrange(start as int, k as int));
        }
        r
    }

    /// Moves to index `end`, where `span`, made by `line_span`, ends.
    fn finish(&mut self, end: usize, span: &Span)
        requires
            old(self).wf(),
            old(self).index <= end <= old(self).chars.len(),
            *span == span_of(old(self).text(), old(self).index(), end as int, old(self).line(), old(self).column()),
        ensures
            old(self).moved(final(self), end as int),
    {
        proof {
            lemma_byte_offset_grows(self.chars@, 0, self.chars@.len() as int);
            lemma_byte_offset_grows(self.chars@, end as int, self.chars@.len() as int);
        }
        self.index = end;
        self.column = span.end.column;
        self.offset = span.end.offset;
    }

    /// Skips one whitespace character (CR LF counts as one).
    pub fn whitespace(&mut self) -> (r: Option<()>)
        requires
            old(self).wf(),
            old(self).index() < old(self).text().len(),
        ensures
            final(self).wf(),
            final(self).text() == old(self).text(),
            match whitespace_at(old(self).text(), old(self).index(), old(self).line(), old(self).column()) {
                Some((j, l, c)) => r is Some && final(self).index() == j && final(self).line() == l
                    && final(self).column() == c,
                None => r is None && *final(self) == *old(self),
            },
    {
        let ghost s = self.chars@;
        proof {
            lemma_byte_offset_grows(s, 0, s.len() as int);
            lemma_byte_offset_grows(s, self.index + 1, s.len() as int);
        }
        let c = self.chars[self.index];
        if c == ' ' || c == '\t' {
            self.offset = self.offset + 1;
            self.index = self.index + 1;
            self.column = self.column + 1;
            Some(())
        } else if c == '\r' || c == '\n' {
            self.offset = self.offset + 1;
            self.index = self.index + 1;
            if c == '\r' && self.index < self.chars.len() && self.chars[self.index] == '\n' {
                proof {
                    lemma_byte_offset_grows(s, self.index + 1, s.len() as int);
                }
                self.offset = self.offset + 1;
                self.index = self.index + 1;
            }
            self.line = self.line + 1;
            self.column = 1;
            Some(())
        } else {
            None
        }
    }

    fn punctuation(&mut self) -> (r: Option<Token>)
        requires
            old(self).wf(),
            old(self).index < old(self).chars.len(),
        ensures
            match punct_at(old(self).text()[old(self).index()]) {
                Some(k) => r is Some && r->0@ == token_of(k, old(self).text(), old(self).index(), old(self).index() + 1, old(self).line(), old(self).column())
                    && old(self).moved(final(self), old(self).index() + 1),
                None => r is None && *final(self) == *old(self),
            },
    {
        let c = self.chars[self.index];
        let end = self.index + 1;
        let span = self.line_span(end);
        let token = if c == '{' {
            Some(Token::LeftBrace(LeftBraceToken { span }))
        } else if c == '}' {
            Some(Token::RightBrace(RightBraceToken { span }))
        } else if c == '[' {
            Some(Token::LeftBracket(LeftBracketToken { span }))
        } else if c == ']' {
            Some(Token::RightBracket(RightBracketToken { span }))
        } else if c == ':' {
            Some(Token::Colon(ColonToken { span }))
        } else if c == ',' {
            Some(Token::Comma(CommaToken { span }))
        } else {
            None
        };
        if token.is_some() {
            self.finish(end, &span);
        }
        token
    }

    /// Four hex digits at index `j`.
    fn hex4(&self, j: usize) -> (r: bool)
        requires
            j <= self.chars.len(),
        ensures
            r == hex4_at(self.text(), j as int),
    {
        self.chars.len() - j >= 4 && is_hex(&self.chars[j]) && is_hex(&self.chars[j + 1]) && is_hex(
            &self.chars[j + 2],
        ) && is_hex(&self.chars[j + 3])
    }

    /// Scans the body of a string literal from index `start`.
    fn string_body(&self, start: usize) -> (r: StrScan)
        requires
            start <= self.chars.len(),
        ensures
            r == scan_string(self.text(), start as int),
            r is Closed ==> start < r->Closed_0 <= self.chars.len(),
            r is BadEscape ==> start < r->BadEscape_0 < self.chars.len(),
    {
        let len = self.chars.len();
        let mut j = start;
        while j < len
            invariant
                start <= j <= len == self.chars.len(),
                scan_string(self.text(), start as int) == scan_string(self.text(), j as int),
            decreases len - j,
        {
            let c = self.chars[j];
            if c == '"' {
                return StrScan::Closed(j + 1);
            } else if c == '\\' {
                if j + 1 >= len {
                    return StrScan::Unterminated;
                }
                let e = self.chars[j + 1];
                if is_simple_escape(e) {
                    j = j + 2;
                } else if e == 'u' && self.hex4(j + 2) {
                    j = j + 6;
                } else {
                    return StrScan::BadEscape(j + 1);
                }
            } else {
                j = j + 1;
            }
        }
        StrScan::Unterminated
    }

    fn string(&mut self) -> (r: Result<Option<Token>, LexError>)
        requires
            old(self).wf(),
            old(self).index < old(self).chars.len(),
        ensures
            old(self).text()[old(self).index()] != '"' ==> r == Ok::<Option<Token>, LexError>(None) && *final(self) == *old(self),
            old(self).text()[old(self).index()] == '"' ==> match scan_string(old(self).text(), old(self).index() + 1) {
                StrScan::Closed(end) => r is Ok && r->Ok_0 is Some
                    && r->Ok_0->0@ == token_of(Kind::Str, old(self).text(), old(self).index(), end as int, old(self).line(), old(self).column())
                    && old(self).moved(final(self), end as int) && old(self).index() < end,
                StrScan::Unterminated => r == Err::<Option<Token>, LexError>(
                    LexError::UnterminatedString { line: old(self).line, column: old(self).column },
                ),
                StrScan::BadEscape(p) => r == Err::<Option<Token>, LexError>(
                    LexError::InvalidEscape {
                        ch: old(self).text()[p as int],
                        line: old(self).line,
                        column: (old(self).column() + (p - old(self).index())) as usize,
                    },
                ),
            },
    {
        if self.chars[self.index] != '"' {
            return Ok(None);
        }
        match self.string_body(self.index + 1) {
            StrScan::Closed(end) => {
                let value = self.substring(self.index, end);
                let span = self.line_span(end);
                self.finish(end, &span);
                Ok(Some(Token::String(StringToken { value, span })))
            },
            StrScan::Unterminated => Err(LexError::UnterminatedString { line: self.line, column: self.column }),
            StrScan::BadEscape(p) => {
                proof {
                    lemma_byte_offset_grows(self.chars@, 0, self.chars@.len() as int);
                }
                Err(
                    LexError::InvalidEscape {
                        ch: self.chars[p],
                        line: self.line,
                        column: self.column + (p - self.index),
                    },
                )
            },
        }
    }

    fn number(&mut self) -> (r: Option<Token>)
        requires
            old(self).wf(),
            old(self).index < old(self).chars.len(),
        ensures
            ({
                let end = number_match(old(self).text(), old(self).index());
                if end > old(self).index() {
                    r is Some && r->0@ == token_of(Kind::Number, old(self).text(), old(self).index(), end, old(self).line(), old(self).column())
                        && old(self).moved(final(self), end)
                } else {
                    r is None && *final(self) == *old(self)
                }
            }),
    {
        let len = self.chars.len();
        let mut st = NumberState::Start;
        let mut j = self.index;
        let mut last = self.index;
        let mut going = true;
        while going && j < len
            invariant
                self.index <= last <= j <= len == self.chars.len(),
                number_match(self.text(), self.index()) == if going {
                    number_end(self.text(), j as int, st, last as int)
                } else {
                    last as int
                },
            decreases len - j + if going { 1int } else { 0int },
        {
            match step(st, self.chars[j]) {
                Some(next) => {
                    st = next;
                    j = j + 1;
                    if accepts(next) {
                        last = j;
                    }
                },
                None => {
                    going = false;
                },
            }
        }
        if last > self.index {
            let value = self.substring(self.index, last);
            let span = self.line_span(last);
            self.finish(last, &span);
            Some(Token::Number(NumberToken { value, span }))
        } else {
            None
        }
    }

    fn boolean(&mut self) -> (r: Option<Token>)
        requires
            old(self).wf(),
            old(self).index < old(self).chars.len(),
        ensures
            if true_at(old(self).text(), old(self).index()) {
                r is Some && r->0@ == token_of(Kind::Boolean(true), old(self).text(), old(self).index(), old(self).index() + 4, old(self).line(), old(self).column())
                    && old(self).moved(final(self), old(self).index() + 4)
            } else if false_at(old(self).text(), old(self).index()) {
                r is Some && r->0@ == token_of(Kind::Boolean(false), old(self).text(), old(self).index(), old(self).index() + 5, old(self).line(), old(self).column())
                    && old(self).moved(final(self), old(self).index() + 5)
            } else {
                r is None && *final(self) == *old(self)
            },
    {
        let i = self.index;
        let len = self.chars.len();
        if len - i >= 4 && self.chars[i] == 't' && self.chars[i + 1] == 'r' && self.chars[i + 2] == 'u'
            && self.chars[i + 3] == 'e' {
            let span = self.line_span(i + 4);
            self.finish(i + 4, &span);
            Some(Token::Boolean(BoolToken { value: true, span }))
        } else if len - i >= 5 && self.chars[i] == 'f' && self.chars[i + 1] == 'a' && self.chars[i + 2]
            == 'l' && self.chars[i + 3] == 's' && self.chars[i + 4] == 'e' {
            let span = self.line_span(i + 5);
            self.finish(i + 5, &span);
            Some(Token::Boolean(BoolToken { value: false, span }))
        } else {
            None
        }
    }

    fn null(&mut self) -> (r: Option<Token>)
        requires
            old(self).wf(),
            old(self).index < old(self).chars.len(),
        ensures
            if null_at(old(self).text(), old(self).index()) {
                r is Some && r->0@ == token_of(Kind::Null, old(self).text(), old(self).index(), old(self).index() + 4, old(self).line(), old(self).column())
                    && old(self).moved(final(self), old(self).index() + 4)
            } else {
                r is None && *final(self) == *old(self)
            },
    {
        let i = self.index;
        let len = self.chars.len();
        if len - i >= 4 && self.chars[i] == 'n' && self.chars[i + 1] == 'u' && self.chars[i + 2] == 'l'
            && self.chars[i + 3] == 'l' {
            let span = self.line_span(i + 4);
            self.finish(i + 4, &span);
            Some(Token::Null(NullToken { span }))
        } else {
            None
        }
    }

    /// Reads the token at the current position, which holds no whitespace.
    fn next_token(&mut self) -> (r: Result<Token, LexError>)
        requires
            old(self).wf(),
            old(self).index < old(self).chars.len(),
        ensures
            match token_at(old(self).text(), old(self).index(), old(self).line(), old(self).column()) {
                Ok((t, end)) => r is Ok && r->Ok_0@ == t && old(self).moved(final(self), end) && old(self).index() < end,
                Err(e) => r == Err::<Token, LexError>(e),
            },
    {
        if let Some(t) = self.punctuation() {
            return Ok(t);
        }
        match self.string() {
            Err(e) => {
                return Err(e);
            },
            Ok(Some(t)) => {
                return Ok(t);
            },
            Ok(None) => {},
        }
        if let Some(t) = self.number() {
            return Ok(t);
        }
        if let Some(t) = self.boolean() {
            return Ok(t);
        }
        if let Some(t) = self.null() {
            return Ok(t);
        }
        Err(LexError::UnexpectedChar { ch: self.chars[self.index], line: self.line, column: self.column })
    }

    /// Reads every token from the current position to the end of the text.
    pub fn tokenize(&mut self) -> (r: Result<Vec<Token>, LexError>)
        requires
            old(self).wf(),
        ensures
            tokenized(lex_from(old(self).text(), old(self).index(), old(self).line(), old(self).column()), r),
    {
        let ghost s = self.chars@;
        let ghost whole = lex_from(s, self.index(), self.line(), self.column());
        let mut tokens: Vec<Token> = Vec::new();
        assert(views(tokens@) =~= Seq::<TokenView>::empty());
        assert(prepend(Seq::empty(), whole) == whole) by {
            if let Ok(ts) = whole {
                assert(Seq::<TokenView>::empty() + ts =~= ts);
            }
        }
        while self.index < self.chars.len()
            invariant
                self.wf(),
                self.chars@ == s,
                whole == lex_from(old(self).text(), old(self).index(), old(self).line(), old(self).column()),
                whole == prepend(views(tokens@), lex_from(s, self.index(), self.line(), self.column())),
            decreases s.len() - self.index,
        {
            if self.whitespace().is_some() {
                continue;
            }
            let ghost (i0, l0, c0) = (self.index(), self.line(), self.column());
            match self.next_token() {
                Ok(t) => {
                    let ghost before = views(tokens@);
                    proof {
                        lemma_prepend_assoc(before, seq![t@], lex_from(s, self.index(), self.line(), self.column()));
                    }
                    tokens.push(t);
                    assert(views(tokens@) =~= before + seq![t@]);
                },
                Err(e) => {
                    assert(lex_from(s, i0, l0, c0) == Err::<Seq<TokenView>, LexError>(e));
                    return Err(e);
                },
            }
        }
        proof {
            if let Ok(ts) = whole {
                assert(views(tokens@) + Seq::<TokenView>::empty() =~= views(tokens@));
            }
        }
        Ok(tokens)
    }
}

} // verus!
