use vstd::prelude::*;
use crate::token::{Loc, LocV, Token, TokenKind, TokenV, loc_next};

verus! {

// ---------------------------------------------------------------------------
// Byte classes
// ---------------------------------------------------------------------------

/// ASCII whitespace: space, tab, newline, carriage return, form feed.
pub open spec fn is_ws(c: u8) -> bool {
    c == 32 || c == 9 || c == 10 || c == 13 || c == 12
}

/// A byte that may start an identifier.
pub open spec fn is_ident_start(c: u8) -> bool {
    (97 <= c && c <= 122) || (65 <= c && c <= 90) || c == 95
}

/// A decimal digit.
pub open spec fn is_digit(c: u8) -> bool {
    48 <= c && c <= 57
}

/// A byte that may continue an identifier.
pub open spec fn is_ident_cont(c: u8) -> bool {
    is_ident_start(c) || is_digit(c)
}

/// An ASCII letter or digit (the underscore is not included).
pub open spec fn is_alnum(c: u8) -> bool {
    (97 <= c && c <= 122) || (65 <= c && c <= 90) || is_digit(c)
}

/// The byte at position `i`, or 0 past either end of the input.
pub open spec fn byte_at(data: Seq<u8>, i: int) -> u8 {
    if 0 <= i && i < data.len() {
        data[i]
    } else {
        0
    }
}

// ---------------------------------------------------------------------------
// The keyword set
// ---------------------------------------------------------------------------

/// The fixed keyword set; the distinction between keyword and identifier is
/// informational at this layer (the block parser matches identifier text).
pub open spec fn is_keyword(s: Seq<u8>) -> bool {
    ||| (s.len() == 3 && s[0] == 108 && s[1] == 101 && s[2] == 116)  // let
    ||| (s.len() == 2 && s[0] == 102 && s[1] == 110)  // fn
    ||| (s.len() == 2 && s[0] == 105 && s[1] == 102)  // if
    ||| (s.len() == 4 && s[0] == 101 && s[1] == 108 && s[2] == 115 && s[3] == 101)  // else
    ||| (s.len() == 6 && s[0] == 114 && s[1] == 101 && s[2] == 116 && s[3] == 117 && s[4] == 114
        && s[5] == 110)  // return
    ||| (s.len() == 5 && s[0] == 119 && s[1] == 104 && s[2] == 105 && s[3] == 108 && s[4] == 101)  // while
    ||| (s.len() == 3 && s[0] == 102 && s[1] == 111 && s[2] == 114)  // for
}

/// Whether `ident` is one of the fixed keywords.
pub fn is_keyword_default(ident: &[u8]) -> (r: bool)
    ensures
        r == is_keyword(ident@),
{
    let n = ident.len();
    if n == 2 {
        (ident[0] == 102 && ident[1] == 110) || (ident[0] == 105 && ident[1] == 102)
    } else if n == 3 {
        (ident[0] == 108 && ident[1] == 101 && ident[2] == 116) || (ident[0] == 102 && ident[1]
            == 111 && ident[2] == 114)
    } else if n == 4 {
        ident[0] == 101 && ident[1] == 108 && ident[2] == 115 && ident[3] == 101
    } else if n == 5 {
        ident[0] == 119 && ident[1] == 104 && ident[2] == 105 && ident[3] == 108 && ident[4] == 101
    } else if n == 6 {
        ident[0] == 114 && ident[1] == 101 && ident[2] == 116 && ident[3] == 117 && ident[4] == 114
            && ident[5] == 110
    } else {
        false
    }
}

// ---------------------------------------------------------------------------
// Errors
// ---------------------------------------------------------------------------

/// Why tokenization failed.
#[derive(Debug, Clone, Copy, PartialEq, Eq, Structural)]
pub enum LexErrKind {
    /// A byte no rule matches, carrying the byte.
    UnexpectedChar(u8),
    /// An alphanumeric run after a number that is not one of the width suffixes.
    UnknownIntegerSuffix,
    /// End of input before the closing quote of a string literal.
    UnterminatedString,
    /// A backslash escape outside the supported set, carrying the escape byte.
    InvalidEscape(u8),
    /// End of input inside a macro name.
    UnterminatedMacro,
    /// End of input inside a macro's parenthesized argument text.
    UnterminatedMacroArgs,
}

/// A tokenization failure and where it happened.
#[derive(Debug, Clone, Copy)]
pub struct LexError {
    pub loc: Loc,
    pub kind: LexErrKind,
}

/// Mathematical model of a `LexError`.
pub struct LexErrV {
    pub loc: LocV,
    pub kind: LexErrKind,
}

impl View for LexError {
    type V = LexErrV;

    open spec fn view(&self) -> LexErrV {
        LexErrV { loc: self.loc@, kind: self.kind }
    }
}

// ---------------------------------------------------------------------------
// Scanning, as mathematics: each scan walks the byte sequence
// ---------------------------------------------------------------------------

/// First position at or after `i` whose byte cannot continue an identifier.
pub open spec fn scan_ident_end(data: Seq<u8>, i: int) -> int
    decreases data.len() - i,
{
    if i >= data.len() {
        i
    } else if is_ident_cont(data[i]) {
        scan_ident_end(data, i + 1)
    } else {
        i
    }
}

/// First position at or after `i` whose byte is not a decimal digit.
pub open spec fn scan_digits_end(data: Seq<u8>, i: int) -> int
    decreases data.len() - i,
{
    if i >= data.len() {
        i
    } else if is_digit(data[i]) {
        scan_digits_end(data, i + 1)
    } else {
        i
    }
}

/// First position at or after `i` whose byte is not alphanumeric.
pub open spec fn scan_alnum_end(data: Seq<u8>, i: int) -> int
    decreases data.len() - i,
{
    if i >= data.len() {
        i
    } else if is_alnum(data[i]) {
        scan_alnum_end(data, i + 1)
    } else {
        i
    }
}

/// Position and location after a line comment: everything up to and including
/// the next newline is consumed; a comment that reaches the end of input is
/// accepted and consumes the rest.
pub open spec fn skip_comment(data: Seq<u8>, i: int, l: LocV) -> (int, LocV)
    decreases data.len() - i,
{
    if i >= data.len() {
        (i, l)
    } else if data[i] == 10 {
        (i + 1, loc_next(l, 10))
    } else {
        skip_comment(data, i + 1, loc_next(l, data[i]))
    }
}

/// The location after consuming bytes `i..j`, starting from `l`.
pub open spec fn advance_loc(data: Seq<u8>, i: int, j: int, l: LocV) -> LocV
    decreases j - i,
{
    if i >= j {
        l
    } else {
        advance_loc(data, i + 1, j, loc_next(l, byte_at(data, i)))
    }
}

/// The unescaped byte an escape character stands for, if the escape is valid.
pub open spec fn escape_of(e: u8) -> Option<u8> {
    if e == 114 {
        Some(13u8)  // \r
    } else if e == 110 {
        Some(10u8)  // \n
    } else if e == 34 {
        Some(34u8)  // \"
    } else if e == 39 {
        Some(39u8)  // \'
    } else if e == 92 {
        Some(92u8)  // \\
    } else if e == 48 {
        Some(0u8)  // \0
    } else {
        None
    }
}

/// Result of scanning a string literal body.
pub enum StrScan {
    /// The unescaped content and the position after the closing quote.
    Done { content: Seq<u8>, end: int },
    /// End of input (or a stray NUL byte) before the closing quote.
    Unterminated,
    /// An unsupported escape, carrying the byte after the backslash.
    BadEscape(u8),
}

/// Scan a string literal body starting just after the opening quote.
pub open spec fn scan_string(data: Seq<u8>, i: int) -> StrScan
    decreases data.len() - i,
{
    let c = byte_at(data, i);
    if c == 34 {
        StrScan::Done { content: Seq::empty(), end: i + 1 }
    } else if c == 0 {
        StrScan::Unterminated
    } else if c == 92 {
        let e = byte_at(data, i + 1);
        match escape_of(e) {
            None => StrScan::BadEscape(e),
            Some(u) => match scan_string(data, i + 2) {
                StrScan::Done { content, end } => StrScan::Done {
                    content: seq![u] + content,
                    end,
                },
                other => other,
            },
        }
    } else {
        match scan_string(data, i + 1) {
            StrScan::Done { content, end } => StrScan::Done { content: seq![c] + content, end },
            other => other,
        }
    }
}

/// Result of scanning a parenthesized macro argument text.
pub enum ParenScan {
    /// The captured text (closing parenthesis included) and the position after it.
    Done { text: Seq<u8>, end: int },
    /// End of input before the parentheses balanced.
    Unterminated,
}

/// Scan macro argument text just after the opening parenthesis, at nesting
/// `depth` (1 when only the opening parenthesis has been seen).
pub open spec fn scan_parens(data: Seq<u8>, i: int, depth: int) -> ParenScan
    decreases data.len() - i,
{
    let c = byte_at(data, i);
    if c == 0 {
        ParenScan::Unterminated
    } else if c == 41 && depth == 1 {
        ParenScan::Done { text: seq![41u8], end: i + 1 }
    } else {
        let d2 = if c == 40 {
            depth + 1
        } else if c == 41 {
            depth - 1
        } else {
            depth
        };
        match scan_parens(data, i + 1, d2) {
            ParenScan::Done { text, end } => ParenScan::Done { text: seq![c] + text, end },
            ParenScan::Unterminated => ParenScan::Unterminated,
        }
    }
}

/// Result of scanning a macro reference after the `@`.
pub enum MacScan {
    /// A bare macro name; the whitespace that ended it is consumed.
    Bare { name: Seq<u8>, end: int },
    /// A macro with argument text; the text keeps its surrounding parentheses.
    WithArgs { text: Seq<u8>, end: int },
    /// End of input inside the name.
    Unterminated,
    /// End of input inside the argument text.
    UnterminatedArgs,
}

/// Scan a macro reference starting just after the `@`.
pub open spec fn scan_macro(data: Seq<u8>, i: int) -> MacScan
    decreases data.len() - i,
{
    let c = byte_at(data, i);
    if c == 0 {
        MacScan::Unterminated
    } else if is_ws(c) {
        MacScan::Bare { name: Seq::empty(), end: i + 1 }
    } else if c == 40 {
        match scan_parens(data, i + 1, 1) {
            ParenScan::Done { text, end } => MacScan::WithArgs { text: seq![40u8] + text, end },
            ParenScan::Unterminated => MacScan::UnterminatedArgs,
        }
    } else {
        match scan_macro(data, i + 1) {
            MacScan::Bare { name, end } => MacScan::Bare { name: seq![c] + name, end },
            MacScan::WithArgs { text, end } => MacScan::WithArgs { text: seq![c] + text, end },
            other => other,
        }
    }
}

// ---------------------------------------------------------------------------
// Token dispatch
// ---------------------------------------------------------------------------

/// The numeric token kind a width suffix selects.
pub open spec fn suffix_kind(s: Seq<u8>) -> Option<TokenKind> {
    if s.len() == 3 && s[0] == 105 && s[1] == 51 && s[2] == 50 {
        Some(TokenKind::IntegerNumber)  // i32
    } else if s.len() == 3 && s[0] == 117 && s[1] == 51 && s[2] == 50 {
        Some(TokenKind::UnsignedIntegerNumber)  // u32
    } else if s.len() == 3 && s[0] == 105 && s[1] == 54 && s[2] == 52 {
        Some(TokenKind::LongIntegerNumber)  // i64
    } else if s.len() == 3 && s[0] == 117 && s[1] == 54 && s[2] == 52 {
        Some(TokenKind::LongUnsignedIntegerNumber)  // u64
    } else {
        None
    }
}

/// Two-byte operators, matched greedily before their one-byte prefixes.
pub open spec fn two_char_kind(c: u8, d: u8) -> Option<TokenKind> {
    if c == 45 && d == 62 {
        Some(TokenKind::Arrow)  // ->
    } else if c == 61 && d == 61 {
        Some(TokenKind::Eq)  // ==
    } else if c == 33 && d == 61 {
        Some(TokenKind::NotEq)  // !=
    } else if c == 38 && d == 38 {
        Some(TokenKind::DoubleAmpersand)  // &&
    } else if c == 124 && d == 124 {
        Some(TokenKind::DoublePipe)  // ||
    } else if c == 58 && d == 58 {
        Some(TokenKind::DoubleColon)  // ::
    } else {
        None
    }
}

/// One-byte tokens, including the fallbacks of unmatched two-byte prefixes.
pub open spec fn single_kind(c: u8) -> Option<TokenKind> {
    if c == 44 {
        Some(TokenKind::Comma)
    } else if c == 59 {
        Some(TokenKind::SemiColon)
    } else if c == 58 {
        Some(TokenKind::Colon)
    } else if c == 61 {
        Some(TokenKind::Assign)
    } else if c == 60 {
        Some(TokenKind::Lt)
    } else if c == 62 {
        Some(TokenKind::Gt)
    } else if c == 33 {
        Some(TokenKind::Bang)
    } else if c == 43 {
        Some(TokenKind::Plus)
    } else if c == 45 {
        Some(TokenKind::Minus)
    } else if c == 42 {
        Some(TokenKind::Asterisk)
    } else if c == 47 {
        Some(TokenKind::Slash)
    } else if c == 37 {
        Some(TokenKind::Mod)
    } else if c == 36 {
        Some(TokenKind::Dollar)
    } else if c == 38 {
        Some(TokenKind::Ampersand)
    } else if c == 124 {
        Some(TokenKind::Pipe)
    } else if c == 40 {
        Some(TokenKind::OpenParen)
    } else if c == 41 {
        Some(TokenKind::CloseParen)
    } else if c == 91 {
        Some(TokenKind::OpenSquare)
    } else if c == 93 {
        Some(TokenKind::CloseSquare)
    } else if c == 123 {
        Some(TokenKind::OpenBrace)
    } else if c == 125 {
        Some(TokenKind::CloseBrace)
    } else if c == 46 {
        Some(TokenKind::Dot)
    } else {
        None
    }
}

/// One step of the tokenizer: the token (or error) and the state after it.
/// On an error the recorded position and location are those reached when the
/// error was detected, but callers abort, so only the error itself matters.
pub struct LexOut {
    pub token: Result<TokenV, LexErrV>,
    pub pos: int,
    pub loc: LocV,
}

/// Build a successful `LexOut`.
pub open spec fn lex_ok(k: TokenKind, l: LocV, src: Seq<u8>, pos2: int, loc2: LocV) -> LexOut {
    LexOut { token: Ok(TokenV { kind: k, loc: l, source: src }), pos: pos2, loc: loc2 }
}

/// Build a failed `LexOut`.
pub open spec fn lex_fail(k: LexErrKind, l: LocV, pos2: int, loc2: LocV) -> LexOut {
    LexOut { token: Err(LexErrV { loc: l, kind: k }), pos: pos2, loc: loc2 }
}

/// What one call of the tokenizer returns, given the input, the current
/// position and the current location. This is the tokenizer's whole contract:
/// whitespace and comments are skipped, end of input yields an EOF token and
/// leaves the state unchanged (so the EOF tail is idempotent), and otherwise
/// the longest matching rule at the position decides the token.
pub open spec fn spec_next(data: Seq<u8>, pos: int, loc: LocV) -> LexOut
    decreases data.len() - pos,
    via spec_next_decreases
{
    if pos < 0 || pos >= data.len() {
        lex_ok(TokenKind::EOF, loc, Seq::empty(), pos, loc)
    } else {
        let c = data[pos];
        let l1 = loc_next(loc, c);
        if is_ws(c) {
            spec_next(data, pos + 1, l1)
        } else if c == 47 && byte_at(data, pos + 1) == 47 {
            let skipped = skip_comment(data, pos + 1, l1);
            spec_next(data, skipped.0, skipped.1)
        } else if two_char_kind(c, byte_at(data, pos + 1)) is Some {
            let k = two_char_kind(c, byte_at(data, pos + 1))->Some_0;
            lex_ok(
                k,
                l1,
                data.subrange(pos, pos + 2),
                pos + 2,
                loc_next(l1, byte_at(data, pos + 1)),
            )
        } else if c == 46 && byte_at(data, pos + 1) == 46 && byte_at(data, pos + 2) == 46 {
            lex_ok(
                TokenKind::Splat,
                l1,
                data.subrange(pos, pos + 3),
                pos + 3,
                advance_loc(data, pos + 1, pos + 3, l1),
            )
        } else if is_ident_start(c) {
            let end = scan_ident_end(data, pos + 1);
            let src = data.subrange(pos, end);
            let k = if is_keyword(src) {
                TokenKind::Keyword
            } else {
                TokenKind::Identifier
            };
            lex_ok(k, l1, src, end, advance_loc(data, pos, end, loc))
        } else if is_digit(c) {
            let dend = scan_digits_end(data, pos + 1);
            let aend = scan_alnum_end(data, dend);
            let send = if aend > dend + 4 {
                dend + 4
            } else {
                aend
            };
            let sfx = data.subrange(dend, send);
            if sfx.len() == 0 {
                lex_ok(
                    TokenKind::Integer,
                    l1,
                    data.subrange(pos, dend),
                    dend,
                    advance_loc(data, pos, dend, loc),
                )
            } else {
                match suffix_kind(sfx) {
                    Some(k) => lex_ok(
                        k,
                        l1,
                        data.subrange(pos, dend),
                        dend + 3,
                        advance_loc(data, pos, dend + 3, loc),
                    ),
                    None => lex_fail(
                        LexErrKind::UnknownIntegerSuffix,
                        l1,
                        dend,
                        advance_loc(data, pos, dend, loc),
                    ),
                }
            }
        } else if c == 34 {
            match scan_string(data, pos + 1) {
                StrScan::Done { content, end } => lex_ok(
                    TokenKind::StringLiteral,
                    l1,
                    content,
                    end,
                    advance_loc(data, pos, end, loc),
                ),
                StrScan::Unterminated => lex_fail(LexErrKind::UnterminatedString, l1, pos + 1, l1),
                StrScan::BadEscape(e) => lex_fail(LexErrKind::InvalidEscape(e), l1, pos + 1, l1),
            }
        } else if c == 64 {
            match scan_macro(data, pos + 1) {
                MacScan::Bare { name, end } => lex_ok(
                    TokenKind::MacroCall,
                    l1,
                    name,
                    end,
                    advance_loc(data, pos, end, loc),
                ),
                MacScan::WithArgs { text, end } => lex_ok(
                    TokenKind::MacroCallWithArgs,
                    l1,
                    text,
                    end,
                    advance_loc(data, pos, end, loc),
                ),
                MacScan::Unterminated => lex_fail(LexErrKind::UnterminatedMacro, l1, pos + 1, l1),
                MacScan::UnterminatedArgs => lex_fail(
                    LexErrKind::UnterminatedMacroArgs,
                    l1,
                    pos + 1,
                    l1,
                ),
            }
        } else {
            match single_kind(c) {
                Some(k) => lex_ok(k, l1, data.subrange(pos, pos + 1), pos + 1, l1),
                None => lex_fail(LexErrKind::UnexpectedChar(c), l1, pos + 1, l1),
            }
        }
    }
}

#[via_fn]
proof fn spec_next_decreases(data: Seq<u8>, pos: int, loc: LocV) {
    if 0 <= pos && pos < data.len() {
        let c = data[pos];
        if !is_ws(c) && c == 47 && byte_at(data, pos + 1) == 47 {
            lemma_skip_comment_bounds(data, pos + 1, loc_next(loc, c));
        }
    }
}

// ---------------------------------------------------------------------------
// Bounds of the scans
// ---------------------------------------------------------------------------

pub proof fn lemma_skip_comment_bounds(data: Seq<u8>, i: int, l: LocV)
    ensures
        skip_comment(data, i, l).0 >= i,
        i <= data.len() ==> skip_comment(data, i, l).0 <= data.len(),
    decreases data.len() - i,
{
    if i < data.len() && data[i] != 10 {
        lemma_skip_comment_bounds(data, i + 1, loc_next(l, data[i]));
    }
}

pub proof fn lemma_scan_ident_bounds(data: Seq<u8>, i: int)
    ensures
        scan_ident_end(data, i) >= i,
        i <= data.len() ==> scan_ident_end(data, i) <= data.len(),
    decreases data.len() - i,
{
    if i < data.len() && is_ident_cont(data[i]) {
        lemma_scan_ident_bounds(data, i + 1);
    }
}

pub proof fn lemma_scan_digits_bounds(data: Seq<u8>, i: int)
    ensures
        scan_digits_end(data, i) >= i,
        i <= data.len() ==> scan_digits_end(data, i) <= data.len(),
    decreases data.len() - i,
{
    if i < data.len() && is_digit(data[i]) {
        lemma_scan_digits_bounds(data, i + 1);
    }
}

pub proof fn lemma_scan_alnum_bounds(data: Seq<u8>, i: int)
    ensures
        scan_alnum_end(data, i) >= i,
        i <= data.len() ==> scan_alnum_end(data, i) <= data.len(),
    decreases data.len() - i,
{
    if i < data.len() && is_alnum(data[i]) {
        lemma_scan_alnum_bounds(data, i + 1);
    }
}

pub proof fn lemma_scan_string_bounds(data: Seq<u8>, i: int)
    ensures
        scan_string(data, i) matches StrScan::Done { end, .. } ==> i < end <= data.len(),
    decreases data.len() - i,
{
    let c = byte_at(data, i);
    if c == 34 {
    } else if c == 0 {
    } else if c == 92 {
        if escape_of(byte_at(data, i + 1)) is Some {
            lemma_scan_string_bounds(data, i + 2);
        }
    } else {
        lemma_scan_string_bounds(data, i + 1);
    }
}

pub proof fn lemma_scan_parens_bounds(data: Seq<u8>, i: int, depth: int)
    ensures
        scan_parens(data, i, depth) matches ParenScan::Done { end, .. } ==> i < end <= data.len(),
    decreases data.len() - i,
{
    let c = byte_at(data, i);
    if c != 0 && !(c == 41 && depth == 1) {
        let d2 = if c == 40 {
            depth + 1
        } else if c == 41 {
            depth - 1
        } else {
            depth
        };
        lemma_scan_parens_bounds(data, i + 1, d2);
    }
}

pub proof fn lemma_scan_macro_bounds(data: Seq<u8>, i: int)
    ensures
        scan_macro(data, i) matches MacScan::Bare { end, .. } ==> i < end <= data.len(),
        scan_macro(data, i) matches MacScan::WithArgs { end, .. } ==> i < end <= data.len(),
    decreases data.len() - i,
{
    let c = byte_at(data, i);
    if c == 0 {
    } else if is_ws(c) {
    } else if c == 40 {
        lemma_scan_parens_bounds(data, i + 1, 1);
    } else {
        lemma_scan_macro_bounds(data, i + 1);
    }
}

/// Progress: the tokenizer never moves backwards, stops exactly at end of
/// input for EOF, and consumes at least one byte for every other token.
pub proof fn lemma_spec_next_progress(data: Seq<u8>, pos: int, loc: LocV)
    requires
        0 <= pos <= data.len(),
    ensures
        ({
            let o = spec_next(data, pos, loc);
            &&& (o.token matches Ok(t) ==> pos <= o.pos <= data.len())
            &&& (o.token matches Ok(t) && t.kind == TokenKind::EOF ==> spec_next(
                data,
                o.pos,
                o.loc,
            ) == o)
            &&& (o.token matches Ok(t) && t.kind != TokenKind::EOF ==> pos < o.pos)
        }),
    decreases data.len() - pos,
{
    if pos < data.len() {
        let c = data[pos];
        let l1 = loc_next(loc, c);
        if is_ws(c) {
            lemma_spec_next_progress(data, pos + 1, l1);
        } else if c == 47 && byte_at(data, pos + 1) == 47 {
            let skipped = skip_comment(data, pos + 1, l1);
            lemma_skip_comment_bounds(data, pos + 1, l1);
            lemma_spec_next_progress(data, skipped.0, skipped.1);
        } else if two_char_kind(c, byte_at(data, pos + 1)) is Some {
        } else if c == 46 && byte_at(data, pos + 1) == 46 && byte_at(data, pos + 2) == 46 {
        } else if is_ident_start(c) {
            lemma_scan_ident_bounds(data, pos + 1);
        } else if is_digit(c) {
            lemma_scan_digits_bounds(data, pos + 1);
            lemma_scan_alnum_bounds(data, scan_digits_end(data, pos + 1));
        } else if c == 34 {
            lemma_scan_string_bounds(data, pos + 1);
        } else if c == 64 {
            lemma_scan_macro_bounds(data, pos + 1);
        }
    }
}


/// Joining consumed ranges: consuming `i..j` and then the byte at `j` is
/// consuming `i..j+1`.
pub proof fn lemma_advance_loc_snoc(data: Seq<u8>, i: int, j: int, l: LocV)
    requires
        i <= j,
    ensures
        advance_loc(data, i, j + 1, l) == loc_next(advance_loc(data, i, j, l), byte_at(data, j)),
    decreases j - i,
{
    if i < j {
        lemma_advance_loc_snoc(data, i + 1, j, loc_next(l, byte_at(data, i)));
    } else {
        reveal_with_fuel(advance_loc, 2);
    }
}

/// Consumed ranges concatenate: `i..k` is `i..j` then `j..k`.
pub proof fn lemma_advance_loc_concat(data: Seq<u8>, i: int, j: int, k: int, l: LocV)
    requires
        i <= j <= k,
    ensures
        advance_loc(data, i, k, l) == advance_loc(data, j, k, advance_loc(data, i, j, l)),
    decreases j - i,
{
    if i < j {
        lemma_advance_loc_concat(data, i + 1, j, k, loc_next(l, byte_at(data, i)));
    }
}

/// Prefixing string-literal content already unescaped onto a scan result.
pub open spec fn str_prepend(b: Seq<u8>, s: StrScan) -> StrScan {
    match s {
        StrScan::Done { content, end } => StrScan::Done { content: b + content, end },
        other => other,
    }
}

/// Prefixing macro text already read onto a scan result.
pub open spec fn mac_prepend(b: Seq<u8>, m: MacScan) -> MacScan {
    match m {
        MacScan::Bare { name, end } => MacScan::Bare { name: b + name, end },
        MacScan::WithArgs { text, end } => MacScan::WithArgs { text: b + text, end },
        other => other,
    }
}

// ---------------------------------------------------------------------------
// The executable tokenizer
// ---------------------------------------------------------------------------

/// Sources above this size are rejected up front, which keeps every position
/// and column computation comfortably inside `usize`.
pub const MAX_SOURCE_LEN: usize = 0x1000_0000;

fn is_ws_b(c: u8) -> (r: bool)
    ensures
        r == is_ws(c),
{
    c == 32 || c == 9 || c == 10 || c == 13 || c == 12
}

fn is_ident_start_b(c: u8) -> (r: bool)
    ensures
        r == is_ident_start(c),
{
    (97 <= c && c <= 122) || (65 <= c && c <= 90) || c == 95
}

fn is_digit_b(c: u8) -> (r: bool)
    ensures
        r == is_digit(c),
{
    48 <= c && c <= 57
}

fn is_ident_cont_b(c: u8) -> (r: bool)
    ensures
        r == is_ident_cont(c),
{
    is_ident_start_b(c) || is_digit_b(c)
}

fn is_alnum_b(c: u8) -> (r: bool)
    ensures
        r == is_alnum(c),
{
    (97 <= c && c <= 122) || (65 <= c && c <= 90) || is_digit_b(c)
}

fn two_char_b(c: u8, d: u8) -> (r: Option<TokenKind>)
    ensures
        r == two_char_kind(c, d),
{
    if c == 45 && d == 62 {
        Some(TokenKind::Arrow)
    } else if c == 61 && d == 61 {
        Some(TokenKind::Eq)
    } else if c == 33 && d == 61 {
        Some(TokenKind::NotEq)
    } else if c == 38 && d == 38 {
        Some(TokenKind::DoubleAmpersand)
    } else if c == 124 && d == 124 {
        Some(TokenKind::DoublePipe)
    } else if c == 58 && d == 58 {
        Some(TokenKind::DoubleColon)
    } else {
        None
    }
}

fn single_b(c: u8) -> (r: Option<TokenKind>)
    ensures
        r == single_kind(c),
{
    if c == 44 {
        Some(TokenKind::Comma)
    } else if c == 59 {
        Some(TokenKind::SemiColon)
    } else if c == 58 {
        Some(TokenKind::Colon)
    } else if c == 61 {
        Some(TokenKind::Assign)
    } else if c == 60 {
        Some(TokenKind::Lt)
    } else if c == 62 {
        Some(TokenKind::Gt)
    } else if c == 33 {
        Some(TokenKind::Bang)
    } else if c == 43 {
        Some(TokenKind::Plus)
    } else if c == 45 {
        Some(TokenKind::Minus)
    } else if c == 42 {
        Some(TokenKind::Asterisk)
    } else if c == 47 {
        Some(TokenKind::Slash)
    } else if c == 37 {
        Some(TokenKind::Mod)
    } else if c == 36 {
        Some(TokenKind::Dollar)
    } else if c == 38 {
        Some(TokenKind::Ampersand)
    } else if c == 124 {
        Some(TokenKind::Pipe)
    } else if c == 40 {
        Some(TokenKind::OpenParen)
    } else if c == 41 {
        Some(TokenKind::CloseParen)
    } else if c == 91 {
        Some(TokenKind::OpenSquare)
    } else if c == 93 {
        Some(TokenKind::CloseSquare)
    } else if c == 123 {
        Some(TokenKind::OpenBrace)
    } else if c == 125 {
        Some(TokenKind::CloseBrace)
    } else if c == 46 {
        Some(TokenKind::Dot)
    } else {
        None
    }
}

fn escape_b(e: u8) -> (r: Option<u8>)
    ensures
        r == escape_of(e),
{
    if e == 114 {
        Some(13)
    } else if e == 110 {
        Some(10)
    } else if e == 34 {
        Some(34)
    } else if e == 39 {
        Some(39)
    } else if e == 92 {
        Some(92)
    } else if e == 48 {
        Some(0)
    } else {
        None
    }
}

/// The tokenizer: the input bytes, the current position, and the current
/// source location. It yields one token per call of `next_token` and keeps no
/// token history.
pub struct Lexer {
    data: Vec<u8>,
    pos: usize,
    loc: Loc,
}

/// Mathematical model of the tokenizer state.
pub struct LexerV {
    pub data: Seq<u8>,
    pub pos: int,
    pub loc: LocV,
}

impl View for Lexer {
    type V = LexerV;

    closed spec fn view(&self) -> LexerV {
        LexerV { data: self.data@, pos: self.pos as int, loc: self.loc@ }
    }
}

impl Lexer {
    /// The tokenizer's invariant: the position stays inside the input and the
    /// location stays far from the `usize` bounds.
    pub closed spec fn wf(self) -> bool {
        &&& self.pos <= self.data@.len()
        &&& self.data@.len() <= MAX_SOURCE_LEN
        &&& 1 <= self.loc@.line <= self.pos + 1
        &&& 1 <= self.loc@.col <= 8 * self.pos + 9
    }

    pub fn new(source: Vec<u8>) -> (r: Lexer)
        requires
            source@.len() <= MAX_SOURCE_LEN,
        ensures
            r.wf(),
            r@.data == source@,
            r@.pos == 0,
            r@.loc == (LocV { line: 1, col: 1 }),
    {
        Lexer { data: source, pos: 0, loc: Loc::new(1, 1) }
    }

    pub fn loc(&self) -> (r: Loc)
        ensures
            r@ == self@.loc,
    {
        self.loc
    }

    /// Consume one byte, returning it and advancing the location.
    fn advance(&mut self) -> (c: u8)
        requires
            old(self).wf(),
            old(self)@.pos < old(self)@.data.len(),
        ensures
            final(self).wf(),
            final(self)@.data == old(self)@.data,
            c == old(self)@.data[old(self)@.pos],
            final(self)@.pos == old(self)@.pos + 1,
            final(self)@.loc == loc_next(old(self)@.loc, c),
    {
        let c = self.data[self.pos];
        self.pos = self.pos + 1;
        self.loc.next(c);
        c
    }

    /// The byte at the current position, or 0 at end of input.
    fn read_char(&self) -> (c: u8)
        ensures
            c == byte_at(self@.data, self@.pos),
    {
        if self.pos >= self.data.len() {
            0
        } else {
            self.data[self.pos]
        }
    }

    /// The byte at an arbitrary position, or 0 outside the input.
    fn byte_at_b(&self, i: usize) -> (c: u8)
        ensures
            c == byte_at(self@.data, i as int),
    {
        if i >= self.data.len() {
            0
        } else {
            self.data[i]
        }
    }

    /// An owned copy of the input bytes `from..to`.
    fn source_slice(&self, from: usize, to: usize) -> (r: Vec<u8>)
        requires
            from <= to,
            to <= self@.data.len(),
        ensures
            r@ == self@.data.subrange(from as int, to as int),
    {
        vstd::slice::slice_to_vec(vstd::slice::slice_subrange(self.data.as_slice(), from, to))
    }

    /// Consume `n` bytes.
    fn advance_n(&mut self, n: usize)
        requires
            old(self).wf(),
            old(self)@.pos + n <= old(self)@.data.len(),
        ensures
            final(self).wf(),
            final(self)@.data == old(self)@.data,
            final(self)@.pos == old(self)@.pos + n,
            final(self)@.loc == advance_loc(
                old(self)@.data,
                old(self)@.pos,
                old(self)@.pos + n,
                old(self)@.loc,
            ),
    {
        let mut k: usize = 0;
        while k < n
            invariant
                self.wf(),
                self@.data == old(self)@.data,
                k <= n,
                old(self)@.pos + n <= self@.data.len(),
                self@.pos == old(self)@.pos + k,
                self@.loc == advance_loc(self@.data, old(self)@.pos, self@.pos, old(self)@.loc),
            decreases n - k,
        {
            proof {
                lemma_advance_loc_snoc(self@.data, old(self)@.pos, self@.pos, old(self)@.loc);
            }
            let _ = self.advance();
            k = k + 1;
        }
    }

    /// Skip whitespace and line comments; afterwards the position is at end of
    /// input or at the first byte of a token, and the next token is unchanged.
    fn skip_trivia(&mut self)
        requires
            old(self).wf(),
        ensures
            final(self).wf(),
            final(self)@.data == old(self)@.data,
            final(self)@.pos >= old(self)@.pos,
            spec_next(old(self)@.data, old(self)@.pos, old(self)@.loc) == spec_next(
                final(self)@.data,
                final(self)@.pos,
                final(self)@.loc,
            ),
            final(self)@.pos >= final(self)@.data.len() || (!is_ws(
                final(self)@.data[final(self)@.pos],
            ) && !(final(self)@.data[final(self)@.pos] == 47 && byte_at(
                final(self)@.data,
                final(self)@.pos + 1,
            ) == 47)),
    {
        loop
            invariant
                self.wf(),
                self@.data == old(self)@.data,
                self@.pos >= old(self)@.pos,
                spec_next(old(self)@.data, old(self)@.pos, old(self)@.loc) == spec_next(
                    self@.data,
                    self@.pos,
                    self@.loc,
                ),
            ensures
                self.wf(),
                self@.data == old(self)@.data,
                self@.pos >= old(self)@.pos,
                spec_next(old(self)@.data, old(self)@.pos, old(self)@.loc) == spec_next(
                    self@.data,
                    self@.pos,
                    self@.loc,
                ),
                self@.pos >= self@.data.len() || (!is_ws(self@.data[self@.pos]) && !(
                self@.data[self@.pos] == 47 && byte_at(self@.data, self@.pos + 1) == 47)),
            decreases self@.data.len() - self@.pos,
        {
            if self.pos >= self.data.len() {
                break;
            }
            let c = self.data[self.pos];
            if is_ws_b(c) {
                let _ = self.advance();
            } else if c == 47 && self.byte_at_b(self.pos + 1) == 47 {
                let ghost pcm = self@.pos;
                let _ = self.advance();
                let ghost l1 = self@.loc;
                loop
                    invariant_except_break
                        skip_comment(self@.data, pcm + 1, l1) == skip_comment(
                            self@.data,
                            self@.pos,
                            self@.loc,
                        ),
                    invariant
                        self.wf(),
                        self@.data == old(self)@.data,
                        self@.pos > pcm,
                    ensures
                        self.wf(),
                        self@.data == old(self)@.data,
                        self@.pos > pcm,
                        skip_comment(self@.data, pcm + 1, l1).0 == self@.pos,
                        skip_comment(self@.data, pcm + 1, l1).1 == self@.loc,
                    decreases self@.data.len() - self@.pos,
                {
                    if self.pos >= self.data.len() {
                        break;
                    }
                    let ch = self.advance();
                    if ch == 10 {
                        break;
                    }
                }
            } else {
                break;
            }
        }
    }

    /// Read the rest of an identifier whose first byte was just consumed, and
    /// classify it against the keyword set.
    fn lex_identfier_or_keyword(&mut self, begin: usize) -> (t: Token)
        requires
            old(self).wf(),
            begin < old(self)@.data.len(),
            old(self)@.pos == begin + 1,
        ensures
            final(self).wf(),
            final(self)@.data == old(self)@.data,
            ({
                let data = old(self)@.data;
                let end = scan_ident_end(data, begin + 1);
                &&& final(self)@.pos == end
                &&& final(self)@.loc == advance_loc(data, begin + 1, end, old(self)@.loc)
                &&& t@.loc == old(self)@.loc
                &&& t@.source == data.subrange(begin as int, end)
                &&& t@.kind == (if is_keyword(data.subrange(begin as int, end)) {
                    TokenKind::Keyword
                } else {
                    TokenKind::Identifier
                })
            }),
    {
        let tloc = self.loc;
        while self.pos < self.data.len() && is_ident_cont_b(self.data[self.pos])
            invariant
                self.wf(),
                self@.data == old(self)@.data,
                begin + 1 <= self@.pos,
                scan_ident_end(self@.data, begin + 1) == scan_ident_end(self@.data, self@.pos),
                self@.loc == advance_loc(self@.data, begin + 1, self@.pos, old(self)@.loc),
            decreases self@.data.len() - self@.pos,
        {
            proof {
                lemma_advance_loc_snoc(self@.data, begin + 1, self@.pos, old(self)@.loc);
            }
            let _ = self.advance();
        }
        let src = self.source_slice(begin, self.pos);
        let kind = if is_keyword_default(src.as_slice()) {
            TokenKind::Keyword
        } else {
            TokenKind::Identifier
        };
        Token::new(kind, tloc, src)
    }

    /// Look (without consuming) at the alphanumeric run after a number and
    /// recognize a width suffix.
    fn peek_suffix(&self) -> (r: Option<TokenKind>)
        requires
            self.wf(),
        ensures
            ({
                let data = self@.data;
                let p = self@.pos;
                let aend = scan_alnum_end(data, p);
                let send = if aend > p + 4 {
                    p + 4
                } else {
                    aend
                };
                r == suffix_kind(data.subrange(p, send))
            }),
    {
        let p = self.pos;
        let mut i = self.pos;
        let mut n: usize = 0;
        while n < 4 && i < self.data.len() && is_alnum_b(self.data[i])
            invariant
                self.wf(),
                n <= 4,
                i == p + n,
                i <= self@.data.len(),
                p == self@.pos,
                scan_alnum_end(self@.data, p as int) == scan_alnum_end(self@.data, i as int),
            decreases 4 - n,
        {
            i = i + 1;
            n = n + 1;
        }
        proof {
            lemma_scan_alnum_bounds(self@.data, i as int);
        }
        if n == 3 {
            let a = self.data[p];
            let b = self.data[p + 1];
            let c = self.data[p + 2];
            if a == 105 && b == 51 && c == 50 {
                Some(TokenKind::IntegerNumber)
            } else if a == 117 && b == 51 && c == 50 {
                Some(TokenKind::UnsignedIntegerNumber)
            } else if a == 105 && b == 54 && c == 52 {
                Some(TokenKind::LongIntegerNumber)
            } else if a == 117 && b == 54 && c == 52 {
                Some(TokenKind::LongUnsignedIntegerNumber)
            } else {
                None
            }
        } else {
            None
        }
    }

    /// Read the rest of a number whose first digit was just consumed,
    /// consuming a recognized width suffix and rejecting any other
    /// alphanumeric run after the digits.
    fn lex_number(&mut self, begin: usize) -> (r: Result<Token, LexError>)
        requires
            old(self).wf(),
            begin < old(self)@.data.len(),
            old(self)@.pos == begin + 1,
        ensures
            final(self).wf(),
            final(self)@.data == old(self)@.data,
            ({
                let data = old(self)@.data;
                let dend = scan_digits_end(data, begin + 1);
                let aend = scan_alnum_end(data, dend);
                let send = if aend > dend + 4 {
                    dend + 4
                } else {
                    aend
                };
                let sfx = data.subrange(dend, send);
                match r {
                    Ok(t) => {
                        &&& t@.loc == old(self)@.loc
                        &&& t@.source == data.subrange(begin as int, dend)
                        &&& (sfx.len() == 0 ==> t@.kind == TokenKind::Integer && final(self)@.pos
                            == dend && final(self)@.loc == advance_loc(
                            data,
                            begin + 1,
                            dend,
                            old(self)@.loc,
                        ))
                        &&& (sfx.len() != 0 ==> suffix_kind(sfx) == Some(t@.kind)
                            && final(self)@.pos == dend + 3 && final(self)@.loc == advance_loc(
                            data,
                            begin + 1,
                            dend + 3,
                            old(self)@.loc,
                        ))
                    },
                    Err(e) => {
                        &&& sfx.len() > 0
                        &&& suffix_kind(sfx) is None
                        &&& e@.loc == old(self)@.loc
                        &&& e@.kind == LexErrKind::UnknownIntegerSuffix
                    },
                }
            }),
    {
        let tloc = self.loc;
        while self.pos < self.data.len() && is_digit_b(self.data[self.pos])
            invariant
                self.wf(),
                self@.data == old(self)@.data,
                begin + 1 <= self@.pos,
                scan_digits_end(self@.data, begin + 1) == scan_digits_end(self@.data, self@.pos),
                self@.loc == advance_loc(self@.data, begin + 1, self@.pos, old(self)@.loc),
            decreases self@.data.len() - self@.pos,
        {
            proof {
                lemma_advance_loc_snoc(self@.data, begin + 1, self@.pos, old(self)@.loc);
            }
            let _ = self.advance();
        }
        proof {
            lemma_scan_alnum_bounds(self@.data, self@.pos);
        }
        match self.peek_suffix() {
            Some(k) => {
                let src = self.source_slice(begin, self.pos);
                let ghost dend = self@.pos;
                self.advance_n(3);
                proof {
                    lemma_advance_loc_concat(
                        self@.data,
                        begin + 1,
                        dend,
                        dend + 3,
                        old(self)@.loc,
                    );
                }
                Ok(Token::new(k, tloc, src))
            },
            None => {
                if self.pos < self.data.len() && is_alnum_b(self.data[self.pos]) {
                    proof {
                        lemma_scan_alnum_bounds(self@.data, self@.pos + 1);
                    }
                    Err(LexError { loc: tloc, kind: LexErrKind::UnknownIntegerSuffix })
                } else {
                    let src = self.source_slice(begin, self.pos);
                    Ok(Token::new(TokenKind::Integer, tloc, src))
                }
            },
        }
    }

    /// Read the rest of a string literal whose opening quote was just
    /// consumed, unescaping as it goes.
    fn lex_string(&mut self) -> (r: Result<Token, LexError>)
        requires
            old(self).wf(),
        ensures
            final(self).wf(),
            final(self)@.data == old(self)@.data,
            ({
                let data = old(self)@.data;
                let start = old(self)@.pos;
                match r {
                    Ok(t) => {
                        &&& scan_string(data, start) matches StrScan::Done { content, end }
                        &&& t@.kind == TokenKind::StringLiteral
                        &&& t@.loc == old(self)@.loc
                        &&& t@.source == scan_string(data, start)->Done_content
                        &&& final(self)@.pos == scan_string(data, start)->Done_end
                        &&& final(self)@.loc == advance_loc(
                            data,
                            start,
                            scan_string(data, start)->Done_end,
                            old(self)@.loc,
                        )
                    },
                    Err(e) => {
                        &&& e@.loc == old(self)@.loc
                        &&& (scan_string(data, start) is Unterminated ==> e@.kind
                            == LexErrKind::UnterminatedString)
                        &&& (scan_string(data, start) matches StrScan::BadEscape(x) ==> e@.kind
                            == LexErrKind::InvalidEscape(x))
                        &&& !(scan_string(data, start) is Done)
                    },
                }
            }),
    {
        let tloc = self.loc;
        let ghost start = self@.pos;
        let ghost l0 = self@.loc;
        let mut content: Vec<u8> = Vec::new();
        loop
            invariant_except_break
                scan_string(self@.data, start) == str_prepend(
                    content@,
                    scan_string(self@.data, self@.pos),
                ),
            invariant
                self.wf(),
                self@.data == old(self)@.data,
                start == old(self)@.pos,
                l0 == old(self)@.loc,
                tloc@ == l0,
                start <= self@.pos,
                self@.loc == advance_loc(self@.data, start, self@.pos, l0),
            ensures
                self.wf(),
                self@.data == old(self)@.data,
                start == old(self)@.pos,
                scan_string(self@.data, start) matches StrScan::Done { content: cc, end } && cc
                    == content@ && end == self@.pos,
                self@.loc == advance_loc(self@.data, start, self@.pos, l0),
            decreases self@.data.len() - self@.pos,
        {
            if self.pos >= self.data.len() {
                return Err(LexError { loc: tloc, kind: LexErrKind::UnterminatedString });
            }
            let c = self.data[self.pos];
            if c == 34 {
                proof {
                    lemma_advance_loc_snoc(self@.data, start, self@.pos, l0);
                    assert(content@ + Seq::<u8>::empty() =~= content@);
                }
                let _ = self.advance();
                break;
            } else if c == 0 {
                return Err(LexError { loc: tloc, kind: LexErrKind::UnterminatedString });
            } else if c == 92 {
                let ghost oldc = content@;
                let ghost rest = scan_string(self@.data, self@.pos + 2);
                proof {
                    lemma_advance_loc_snoc(self@.data, start, self@.pos, l0);
                }
                let _ = self.advance();
                let e = self.read_char();
                match escape_b(e) {
                    None => {
                        return Err(LexError { loc: tloc, kind: LexErrKind::InvalidEscape(e) });
                    },
                    Some(u) => {
                        proof {
                            lemma_advance_loc_snoc(self@.data, start, self@.pos, l0);
                        }
                        content.push(u);
                        let _ = self.advance();
                        proof {
                            if let StrScan::Done { content: c2, end } = rest {
                                assert(oldc + (seq![u] + c2) =~= oldc.push(u) + c2);
                            }
                        }
                    },
                }
            } else {
                let ghost oldc = content@;
                let ghost rest = scan_string(self@.data, self@.pos + 1);
                proof {
                    lemma_advance_loc_snoc(self@.data, start, self@.pos, l0);
                }
                content.push(c);
                let _ = self.advance();
                proof {
                    if let StrScan::Done { content: c2, end } = rest {
                        assert(oldc + (seq![c] + c2) =~= oldc.push(c) + c2);
                    }
                }
            }
        }
        Ok(Token::new(TokenKind::StringLiteral, tloc, content))
    }

    /// Read a macro reference whose `@` was just consumed: a name ended by
    /// whitespace, or a name followed by parenthesized argument text captured
    /// verbatim.
    fn lex_macro(&mut self) -> (r: Result<Token, LexError>)
        requires
            old(self).wf(),
        ensures
            final(self).wf(),
            final(self)@.data == old(self)@.data,
            ({
                let data = old(self)@.data;
                let start = old(self)@.pos;
                match r {
                    Ok(t) => {
                        &&& t@.loc == old(self)@.loc
                        &&& (scan_macro(data, start) matches MacScan::Bare { name, end } ==> t@.kind
                            == TokenKind::MacroCall && t@.source == name && final(self)@.pos == end)
                        &&& (scan_macro(data, start) matches MacScan::WithArgs { text, end }
                            ==> t@.kind == TokenKind::MacroCallWithArgs && t@.source == text
                            && final(self)@.pos == end)
                        &&& (scan_macro(data, start) is Bare || scan_macro(data, start) is WithArgs)
                        &&& final(self)@.loc == advance_loc(
                            data,
                            start,
                            final(self)@.pos,
                            old(self)@.loc,
                        )
                    },
                    Err(e) => {
                        &&& e@.loc == old(self)@.loc
                        &&& (scan_macro(data, start) is Unterminated ==> e@.kind
                            == LexErrKind::UnterminatedMacro)
                        &&& (scan_macro(data, start) is UnterminatedArgs ==> e@.kind
                            == LexErrKind::UnterminatedMacroArgs)
                        &&& (scan_macro(data, start) is Unterminated || scan_macro(data, start)
                            is UnterminatedArgs)
                    },
                }
            }),
    {
        let tloc = self.loc;
        let ghost start = self@.pos;
        let ghost l0 = self@.loc;
        let mut buf: Vec<u8> = Vec::new();
        loop
            invariant_except_break
                scan_macro(self@.data, start) == mac_prepend(
                    buf@,
                    scan_macro(self@.data, self@.pos),
                ),
            invariant
                self.wf(),
                self@.data == old(self)@.data,
                start == old(self)@.pos,
                l0 == old(self)@.loc,
                tloc@ == l0,
                start <= self@.pos,
                self@.loc == advance_loc(self@.data, start, self@.pos, l0),
            ensures
                self.wf(),
                self@.data == old(self)@.data,
                start == old(self)@.pos,
                scan_macro(self@.data, start) matches MacScan::Bare { name, end } && name == buf@
                    && end == self@.pos,
                self@.loc == advance_loc(self@.data, start, self@.pos, l0),
            decreases self@.data.len() - self@.pos,
        {
            if self.pos >= self.data.len() {
                return Err(LexError { loc: tloc, kind: LexErrKind::UnterminatedMacro });
            }
            let c = self.data[self.pos];
            if c == 0 {
                return Err(LexError { loc: tloc, kind: LexErrKind::UnterminatedMacro });
            } else if is_ws_b(c) {
                proof {
                    lemma_advance_loc_snoc(self@.data, start, self@.pos, l0);
                    assert(buf@ + Seq::<u8>::empty() =~= buf@);
                }
                let _ = self.advance();
                break;
            } else if c == 40 {
                proof {
                    lemma_advance_loc_snoc(self@.data, start, self@.pos, l0);
                }
                let ghost oldb = buf@;
                buf.push(40);
                let _ = self.advance();
                let mut depth: usize = 1;
                proof {
                    if let ParenScan::Done { text: t2, end } = scan_parens(
                        self@.data,
                        self@.pos,
                        1,
                    ) {
                        assert(oldb + (seq![40u8] + t2) =~= oldb.push(40u8) + t2);
                    }
                }
                loop
                    invariant_except_break
                        (match scan_parens(self@.data, self@.pos, depth as int) {
                            ParenScan::Done { text, end } => scan_macro(self@.data, start)
                                == (MacScan::WithArgs { text: buf@ + text, end }),
                            ParenScan::Unterminated => scan_macro(self@.data, start)
                                == MacScan::UnterminatedArgs,
                        }),
                    invariant
                        self.wf(),
                        self@.data == old(self)@.data,
                        start == old(self)@.pos,
                        l0 == old(self)@.loc,
                        tloc@ == l0,
                        start <= self@.pos,
                        1 <= depth <= self@.pos + 1,
                        self@.loc == advance_loc(self@.data, start, self@.pos, l0),
                    ensures
                        self.wf(),
                        self@.data == old(self)@.data,
                        start == old(self)@.pos,
                        scan_macro(self@.data, start) matches MacScan::WithArgs { text, end }
                            && text == buf@ && end == self@.pos,
                        self@.loc == advance_loc(self@.data, start, self@.pos, l0),
                    decreases self@.data.len() - self@.pos,
                {
                    if self.pos >= self.data.len() {
                        return Err(LexError { loc: tloc, kind: LexErrKind::UnterminatedMacroArgs });
                    }
                    let c2 = self.data[self.pos];
                    if c2 == 0 {
                        return Err(LexError { loc: tloc, kind: LexErrKind::UnterminatedMacroArgs });
                    }
                    proof {
                        lemma_advance_loc_snoc(self@.data, start, self@.pos, l0);
                    }
                    if c2 == 41 && depth == 1 {
                        let ghost oldb = buf@;
                        buf.push(41);
                        let _ = self.advance();
                        proof {
                            assert(oldb + seq![41u8] =~= oldb.push(41u8));
                        }
                        break;
                    }
                    let ghost oldb = buf@;
                    let ghost d2: int = if c2 == 40 {
                        depth + 1
                    } else if c2 == 41 {
                        depth - 1
                    } else {
                        depth as int
                    };
                    let ghost rest = scan_parens(self@.data, self@.pos + 1, d2);
                    buf.push(c2);
                    let _ = self.advance();
                    if c2 == 40 {
                        depth = depth + 1;
                    } else if c2 == 41 {
                        depth = depth - 1;
                    }
                    proof {
                        if let ParenScan::Done { text: t2, end } = rest {
                            assert(oldb + (seq![c2] + t2) =~= oldb.push(c2) + t2);
                        }
                    }
                }
                return Ok(Token::new(TokenKind::MacroCallWithArgs, tloc, buf));
            } else {
                proof {
                    lemma_advance_loc_snoc(self@.data, start, self@.pos, l0);
                }
                let ghost oldb = buf@;
                let ghost rest = scan_macro(self@.data, self@.pos + 1);
                buf.push(c);
                let _ = self.advance();
                proof {
                    if let MacScan::Bare { name: n2, end } = rest {
                        assert(oldb + (seq![c] + n2) =~= oldb.push(c) + n2);
                    }
                    if let MacScan::WithArgs { text: t2, end } = rest {
                        assert(oldb + (seq![c] + t2) =~= oldb.push(c) + t2);
                    }
                }
            }
        }
        Ok(Token::new(TokenKind::MacroCall, tloc, buf))
    }

    /// Produce the next token. The returned token, the error when there is
    /// one, and the state left behind are exactly those of `spec_next` on the
    /// state the call started from.
    pub fn next_token(&mut self) -> (r: Result<Token, LexError>)
        requires
            old(self).wf(),
        ensures
            final(self).wf(),
            final(self)@.data == old(self)@.data,
            ({
                let o = spec_next(old(self)@.data, old(self)@.pos, old(self)@.loc);
                match r {
                    Ok(t) => o.token matches Ok(tv) && t@ == tv && final(self)@.pos == o.pos
                        && final(self)@.loc == o.loc,
                    Err(e) => o.token matches Err(ev) && e@ == ev,
                }
            }),
    {
        self.skip_trivia();
        if self.pos >= self.data.len() {
            return Ok(Token::new(TokenKind::EOF, self.loc, Vec::new()));
        }
        let ghost s1 = self@;
        let begin = self.pos;
        let c = self.advance();
        let tloc = self.loc;
        if is_ident_start_b(c) {
            proof {
                lemma_scan_ident_bounds(s1.data, s1.pos + 1);
            }
            let t = self.lex_identfier_or_keyword(begin);
            return Ok(t);
        }
        if is_digit_b(c) {
            proof {
                lemma_scan_digits_bounds(s1.data, s1.pos + 1);
            }
            return self.lex_number(begin);
        }
        if c == 34 {
            proof {
                lemma_scan_string_bounds(s1.data, s1.pos + 1);
            }
            return self.lex_string();
        }
        if c == 64 {
            proof {
                lemma_scan_macro_bounds(s1.data, s1.pos + 1);
            }
            return self.lex_macro();
        }
        let d = self.read_char();
        match two_char_b(c, d) {
            Some(k) => {
                let _ = self.advance();
                let src = self.source_slice(begin, self.pos);
                return Ok(Token::new(k, tloc, src));
            },
            None => {},
        }
        if c == 46 && d == 46 && self.byte_at_b(self.pos + 1) == 46 {
            let _ = self.advance();
            let _ = self.advance();
            let src = self.source_slice(begin, self.pos);
            proof {
                lemma_advance_loc_snoc(self@.data, begin + 1, begin + 2, tloc@);
                lemma_advance_loc_snoc(self@.data, begin + 1, begin + 1, tloc@);
            }
            return Ok(Token::new(TokenKind::Splat, tloc, src));
        }
        match single_b(c) {
            Some(k) => {
                let src = self.source_slice(begin, self.pos);
                return Ok(Token::new(k, tloc, src));
            },
            None => {},
        }
        Err(LexError { loc: tloc, kind: LexErrKind::UnexpectedChar(c) })
    }
}


// ---------------------------------------------------------------------------
// One-token lookahead
// ---------------------------------------------------------------------------

/// Mathematical model of a `PeekableLexer`: the tokenizer state plus at most
/// one buffered token.
pub struct PLexerV {
    pub data: Seq<u8>,
    pub pos: int,
    pub loc: LocV,
    pub peeked: Option<TokenV>,
}

/// What pulling one token from the buffered tokenizer returns and leaves.
pub open spec fn pl_next(st: PLexerV) -> (Result<TokenV, LexErrV>, PLexerV) {
    match st.peeked {
        Some(t) => (Ok(t), PLexerV { data: st.data, pos: st.pos, loc: st.loc, peeked: None }),
        None => {
            let o = spec_next(st.data, st.pos, st.loc);
            (o.token, PLexerV { data: st.data, pos: o.pos, loc: o.loc, peeked: None })
        },
    }
}

/// The input not yet handed out; it shrinks with every non-EOF token.
pub open spec fn pl_measure(st: PLexerV) -> int {
    st.data.len() - st.pos + (if st.peeked is Some {
        1int
    } else {
        0int
    })
}

/// Well-formed lookahead states keep the position inside the input.
pub open spec fn pl_wf_at(st: PLexerV) -> bool {
    0 <= st.pos <= st.data.len()
}

/// Progress: pulling a token never grows the measure, and strictly shrinks it
/// for every token but EOF.
pub proof fn lemma_pl_next_progress(st: PLexerV)
    requires
        pl_wf_at(st),
    ensures
        ({
            let (t, st2) = pl_next(st);
            &&& st2.data == st.data
            &&& (t matches Ok(tok) ==> pl_wf_at(st2) && pl_measure(st2) <= pl_measure(st))
            &&& (t matches Ok(tok) && tok.kind != TokenKind::EOF ==> pl_measure(st2) < pl_measure(
                st,
            ))
        }),
{
    if st.peeked is None {
        lemma_spec_next_progress(st.data, st.pos, st.loc);
    }
}

/// A tokenizer with one token of lookahead, so a parser can peek before it
/// consumes.
pub struct PeekableLexer {
    peeked: Option<Token>,
    lexer: Lexer,
}

impl View for PeekableLexer {
    type V = PLexerV;

    closed spec fn view(&self) -> PLexerV {
        PLexerV {
            data: self.lexer@.data,
            pos: self.lexer@.pos,
            loc: self.lexer@.loc,
            peeked: match self.peeked {
                Some(t) => Some(t@),
                None => None,
            },
        }
    }
}

impl PeekableLexer {
    pub closed spec fn wf(self) -> bool {
        self.lexer.wf()
    }

    pub fn new(source: Vec<u8>) -> (r: PeekableLexer)
        requires
            source@.len() <= MAX_SOURCE_LEN,
        ensures
            r.wf(),
            r@ == (PLexerV {
                data: source@,
                pos: 0,
                loc: LocV { line: 1, col: 1 },
                peeked: None::<TokenV>,
            }),
    {
        PeekableLexer { peeked: None, lexer: Lexer::new(source) }
    }

    /// Pull the next token: the buffered one if present, else fresh from the
    /// tokenizer.
    pub fn next_token(&mut self) -> (r: Result<Token, LexError>)
        requires
            old(self).wf(),
        ensures
            final(self).wf(),
            final(self)@.data == old(self)@.data,
            ({
                let (rt, st2) = pl_next(old(self)@);
                match r {
                    Ok(t) => rt matches Ok(tv) && t@ == tv && final(self)@ == st2,
                    Err(e) => rt matches Err(ev) && e@ == ev && final(self)@.peeked
                        is None,
                }
            }),
    {
        match self.peeked.take() {
            Some(t) => Ok(t),
            None => self.lexer.next_token(),
        }
    }

    /// Look at the next token without consuming it.
    pub fn peek_token(&mut self) -> (r: Result<&Token, LexError>)
        requires
            old(self).wf(),
        ensures
            final(self).wf(),
            final(self)@.data == old(self)@.data,
            ({
                let (rt, st2) = pl_next(old(self)@);
                match r {
                    Ok(t) => {
                        &&& rt matches Ok(tv) && t@ == tv
                        &&& final(self)@.peeked == Some(t@)
                        &&& pl_next(final(self)@) == (rt, st2)
                        &&& pl_wf_at(old(self)@) && t@.kind != TokenKind::EOF ==> pl_measure(
                            final(self)@,
                        ) <= pl_measure(old(self)@)
                        &&& pl_wf_at(old(self)@) ==> pl_wf_at(final(self)@)
                    },
                    Err(e) => rt matches Err(ev) && e@ == ev,
                }
            }),
    {
        proof {
            if pl_wf_at(old(self)@) {
                lemma_pl_next_progress(old(self)@);
            }
        }
        if self.peeked.is_none() {
            let t = self.lexer.next_token()?;
            proof {
                if pl_wf_at(old(self)@) {
                    lemma_spec_next_progress(old(self)@.data, old(self)@.pos, old(self)@.loc);
                }
            }
            self.peeked = Some(t);
        }
        Ok(self.peeked.as_ref().unwrap())
    }
}


// ---------------------------------------------------------------------------
// Self-consistency of the tokenizer
// ---------------------------------------------------------------------------

/// The kinds whose recorded source text is not the exact matched input:
/// string literals record unescaped content, macro calls record the name or
/// argument text without the `@`, and suffixed numbers record the digits
/// without the suffix. Re-tokenizing their recorded text cannot reproduce
/// them.
pub open spec fn reprocessed_kind(k: TokenKind) -> bool {
    ||| k == TokenKind::StringLiteral
    ||| k == TokenKind::MacroCall
    ||| k == TokenKind::MacroCallWithArgs
    ||| k == TokenKind::IntegerNumber
    ||| k == TokenKind::UnsignedIntegerNumber
    ||| k == TokenKind::LongIntegerNumber
    ||| k == TokenKind::LongUnsignedIntegerNumber
}

proof fn lemma_scan_ident_chars(data: Seq<u8>, i: int)
    requires
        0 <= i <= data.len(),
    ensures
        forall|j: int| i <= j < scan_ident_end(data, i) ==> is_ident_cont(#[trigger] data[j]),
        scan_ident_end(data, i) < data.len() ==> !is_ident_cont(data[scan_ident_end(data, i)]),
    decreases data.len() - i,
{
    if i < data.len() && is_ident_cont(data[i]) {
        lemma_scan_ident_chars(data, i + 1);
    }
}

proof fn lemma_scan_ident_full(data: Seq<u8>, i: int)
    requires
        0 <= i <= data.len(),
        forall|j: int| i <= j < data.len() ==> is_ident_cont(#[trigger] data[j]),
    ensures
        scan_ident_end(data, i) == data.len(),
    decreases data.len() - i,
{
    if i < data.len() {
        lemma_scan_ident_full(data, i + 1);
    }
}

proof fn lemma_scan_digits_chars(data: Seq<u8>, i: int)
    requires
        0 <= i <= data.len(),
    ensures
        forall|j: int| i <= j < scan_digits_end(data, i) ==> is_digit(#[trigger] data[j]),
    decreases data.len() - i,
{
    if i < data.len() && is_digit(data[i]) {
        lemma_scan_digits_chars(data, i + 1);
    }
}

proof fn lemma_scan_digits_full(data: Seq<u8>, i: int)
    requires
        0 <= i <= data.len(),
        forall|j: int| i <= j < data.len() ==> is_digit(#[trigger] data[j]),
    ensures
        scan_digits_end(data, i) == data.len(),
    decreases data.len() - i,
{
    if i < data.len() {
        lemma_scan_digits_full(data, i + 1);
    }
}

/// The tokenizer is self-consistent: re-tokenizing the exact source text
/// recorded in a token yields a token of the same kind (and the same text),
/// for every kind whose recorded text is the matched input. String literals,
/// macro calls and suffixed numbers record processed text and are left out.
pub proof fn lemma_token_self_consistent(data: Seq<u8>, pos: int, loc: LocV, loc2: LocV)
    requires
        0 <= pos <= data.len(),
    ensures
        ({
            let o = spec_next(data, pos, loc);
            o.token matches Ok(t) ==> (!reprocessed_kind(t.kind) ==> (spec_next(
                t.source,
                0,
                loc2,
            ).token matches Ok(t2) && t2.kind == t.kind && t2.source == t.source))
        }),
    decreases data.len() - pos,
{
    let o = spec_next(data, pos, loc);
    if pos == data.len() {
        // EOF records empty text; empty text tokenizes to EOF again.
        assert(Seq::<u8>::empty().len() == 0);
    } else {
        let c = data[pos];
        let l1 = loc_next(loc, c);
        if is_ws(c) {
            lemma_token_self_consistent(data, pos + 1, l1, loc2);
        } else if c == 47 && byte_at(data, pos + 1) == 47 {
            let skipped = skip_comment(data, pos + 1, l1);
            lemma_skip_comment_bounds(data, pos + 1, l1);
            lemma_token_self_consistent(data, skipped.0, skipped.1, loc2);
        } else if two_char_kind(c, byte_at(data, pos + 1)) is Some {
            let src = data.subrange(pos, pos + 2);
            assert(src[0] == c && src[1] == byte_at(data, pos + 1));
            assert(byte_at(src, 1) == src[1]);
            assert(spec_next(src, 0, loc2).token matches Ok(t2) && t2.kind == o.token->Ok_0.kind
                && t2.source == src.subrange(0, 2));
            assert(src.subrange(0, 2) =~= src);
        } else if c == 46 && byte_at(data, pos + 1) == 46 && byte_at(data, pos + 2) == 46 {
            let src = data.subrange(pos, pos + 3);
            assert(src[0] == 46 && src[1] == 46 && src[2] == 46);
            assert(byte_at(src, 1) == 46 && byte_at(src, 2) == 46);
            assert(spec_next(src, 0, loc2).token matches Ok(t2) && t2.kind == TokenKind::Splat
                && t2.source == src.subrange(0, 3));
            assert(src.subrange(0, 3) =~= src);
        } else if is_ident_start(c) {
            let end = scan_ident_end(data, pos + 1);
            lemma_scan_ident_bounds(data, pos + 1);
            lemma_scan_ident_chars(data, pos + 1);
            let src = data.subrange(pos, end);
            assert(src[0] == c);
            assert(forall|j: int| 1 <= j < src.len() ==> is_ident_cont(#[trigger] src[j])) by {
                assert(forall|j: int|
                    1 <= j < src.len() ==> src[j] == #[trigger] data[pos + j] && is_ident_cont(
                        data[pos + j],
                    ));
            }
            lemma_scan_ident_full(src, 1);
            assert(spec_next(src, 0, loc2).token matches Ok(t2) && t2.kind == o.token->Ok_0.kind
                && t2.source == src.subrange(0, src.len() as int));
            assert(src.subrange(0, src.len() as int) =~= src);
        } else if is_digit(c) {
            let dend = scan_digits_end(data, pos + 1);
            lemma_scan_digits_bounds(data, pos + 1);
            lemma_scan_digits_chars(data, pos + 1);
            let aend = scan_alnum_end(data, dend);
            lemma_scan_alnum_bounds(data, dend);
            let send = if aend > dend + 4 {
                dend + 4
            } else {
                aend
            };
            let sfx = data.subrange(dend, send);
            if sfx.len() == 0 {
                // an unsuffixed integer literal: its text is the digit run
                let src = data.subrange(pos, dend);
                assert(src[0] == c);
                assert(forall|j: int| 1 <= j < src.len() ==> is_digit(#[trigger] src[j])) by {
                    assert(forall|j: int|
                        1 <= j < src.len() ==> src[j] == #[trigger] data[pos + j] && is_digit(
                            data[pos + j],
                        ));
                }
                lemma_scan_digits_full(src, 1);
                assert(scan_alnum_end(src, src.len() as int) == src.len());
                assert(spec_next(src, 0, loc2).token matches Ok(t2) && t2.kind
                    == TokenKind::Integer && t2.source == src.subrange(0, src.len() as int));
                assert(src.subrange(0, src.len() as int) =~= src);
            }
            // a recognized width suffix yields a reprocessed kind; an unknown
            // suffix yields an error: nothing to show either way
        } else if c == 34 {
            // string literals record unescaped content: left out
        } else if c == 64 {
            // macro calls record the name or argument text: left out
        } else {
            if single_kind(c) is Some {
                let src = data.subrange(pos, pos + 1);
                assert(src[0] == c);
                assert(byte_at(src, 1) == 0 && byte_at(src, 2) == 0);
                assert(spec_next(src, 0, loc2).token matches Ok(t2) && t2.kind == single_kind(
                    c,
                )->Some_0 && t2.source == src.subrange(0, 1));
                assert(src.subrange(0, 1) =~= src);
            }
        }
    }
}

} // verus!
