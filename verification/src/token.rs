use vstd::prelude::*;

verus! {

/// A source position: 1-based line and column, advanced per consumed byte.
/// Tabs move the column to the next multiple of 8; newlines start a new line.
/// Positions serve diagnostics only.
#[derive(Debug, Clone, Copy)]
pub struct Loc {
    pub line: usize,
    pub col: usize,
}

/// Mathematical model of a `Loc`.
pub struct LocV {
    pub line: int,
    pub col: int,
}

impl View for Loc {
    type V = LocV;

    open spec fn view(&self) -> LocV {
        LocV { line: self.line as int, col: self.col as int }
    }
}

/// How a position advances over one consumed byte.
pub open spec fn loc_next(l: LocV, c: u8) -> LocV {
    if c == 10 {
        LocV { line: l.line + 1, col: 1 }
    } else if c == 9 {
        LocV { line: l.line, col: (l.col / 8) * 8 + 8 }
    } else if c < 32 || c == 127 {
        l
    } else {
        LocV { line: l.line, col: l.col + 1 }
    }
}

impl Loc {
    pub fn new(line: usize, col: usize) -> (r: Loc)
        ensures
            r@ == (LocV { line: line as int, col: col as int }),
    {
        Loc { line, col }
    }

    pub fn next_column(&mut self)
        requires
            old(self).col < usize::MAX,
        ensures
            final(self)@ == (LocV { line: old(self)@.line, col: old(self)@.col + 1 }),
    {
        self.col = self.col + 1;
    }

    pub fn next_line(&mut self)
        requires
            old(self).line < usize::MAX,
        ensures
            final(self)@ == (LocV { line: old(self)@.line + 1, col: 1 }),
    {
        self.line = self.line + 1;
        self.col = 1;
    }

    /// Advance past one consumed byte.
    pub fn next(&mut self, c: u8)
        requires
            old(self).line < usize::MAX,
            old(self).col <= usize::MAX - 8,
        ensures
            final(self)@ == loc_next(old(self)@, c),
    {
        if c == 10 {
            self.next_line();
        } else if c == 9 {
            let ts: usize = 8;
            self.col = (self.col / ts) * ts + ts;
        } else if c < 32 || c == 127 {
        } else {
            self.next_column();
        }
    }
}

/// The classification of one token.
#[derive(Debug, Clone, Copy, PartialEq, Eq, Structural)]
pub enum TokenKind {
    EOF,
    Invalid,

    OpenParen,
    CloseParen,
    OpenSquare,
    CloseSquare,
    OpenBrace,
    CloseBrace,

    MacroCall,
    MacroCallWithArgs,

    Identifier,
    Keyword,

    RealNumber,
    Integer,
    IntegerNumber,
    LongIntegerNumber,
    UnsignedIntegerNumber,
    LongUnsignedIntegerNumber,
    StringLiteral,
    CharacterLiteral,

    Dot,
    Splat,
    Comma,
    Colon,
    DoubleColon,
    SemiColon,
    Arrow,

    Assign,
    Bang,
    Plus,
    Minus,
    Asterisk,
    Slash,
    Eq,
    NotEq,
    Gt,
    Lt,
    Mod,
    Ampersand,
    Pipe,
    DoubleAmpersand,
    DoublePipe,

    Dollar,
}

/// Whether a kind is a binary-operator kind.
pub open spec fn kind_is_binop(k: TokenKind) -> bool {
    ||| k == TokenKind::Assign
    ||| k == TokenKind::Plus
    ||| k == TokenKind::Minus
    ||| k == TokenKind::Asterisk
    ||| k == TokenKind::Slash
    ||| k == TokenKind::Eq
    ||| k == TokenKind::NotEq
    ||| k == TokenKind::Gt
    ||| k == TokenKind::Lt
    ||| k == TokenKind::Mod
    ||| k == TokenKind::Ampersand
    ||| k == TokenKind::Pipe
    ||| k == TokenKind::DoubleAmpersand
    ||| k == TokenKind::DoublePipe
}

impl TokenKind {
    pub fn is_binop(&self) -> (r: bool)
        ensures
            r == kind_is_binop(*self),
    {
        match self {
            TokenKind::Assign
            | TokenKind::Plus
            | TokenKind::Minus
            | TokenKind::Asterisk
            | TokenKind::Slash
            | TokenKind::Eq
            | TokenKind::NotEq
            | TokenKind::Gt
            | TokenKind::Lt
            | TokenKind::Mod
            | TokenKind::Ampersand
            | TokenKind::Pipe
            | TokenKind::DoubleAmpersand
            | TokenKind::DoublePipe => true,
            _ => false,
        }
    }
}

/// One token: its kind, the position it was read at, and its recorded source
/// text. For identifiers, numbers and operators the text is the exact input
/// bytes; for string literals it is the unescaped content; for macro calls it
/// is the name (with the parenthesized argument text appended, when present).
#[derive(Debug, Clone)]
pub struct Token {
    pub kind: TokenKind,
    pub loc: Loc,
    pub source: Vec<u8>,
}

/// Mathematical model of a `Token`.
pub struct TokenV {
    pub kind: TokenKind,
    pub loc: LocV,
    pub source: Seq<u8>,
}

impl View for Token {
    type V = TokenV;

    open spec fn view(&self) -> TokenV {
        TokenV { kind: self.kind, loc: self.loc@, source: self.source@ }
    }
}

impl Token {
    pub fn new(kind: TokenKind, loc: Loc, source: Vec<u8>) -> (r: Token)
        ensures
            r@ == (TokenV { kind, loc: loc@, source: source@ }),
    {
        Token { kind, loc, source }
    }

    pub fn is_eof(&self) -> (r: bool)
        ensures
            r == (self.kind == TokenKind::EOF),
    {
        matches!(self.kind, TokenKind::EOF)
    }

    pub fn is_invalid(&self) -> (r: bool)
        ensures
            r == (self.kind == TokenKind::Invalid),
    {
        matches!(self.kind, TokenKind::Invalid)
    }

    pub fn is_macro(&self) -> (r: bool)
        ensures
            r == (self.kind == TokenKind::MacroCall),
    {
        matches!(self.kind, TokenKind::MacroCall)
    }

    pub fn is_ident(&self) -> (r: bool)
        ensures
            r == (self.kind == TokenKind::Identifier),
    {
        matches!(self.kind, TokenKind::Identifier)
    }
}

/// A half-open byte range in the source, tagged with the phase that produced it.
#[derive(Debug)]
pub struct Span<T> {
    pub _marker: core::marker::PhantomData<T>,
    pub loc: Loc,
    pub start: usize,
    pub end: usize,
}

impl<T> Span<T> {
    pub fn new(loc: Loc, start: usize, end: usize) -> (r: Span<T>)
        ensures
            r.loc@ == loc@,
            r.start == start,
            r.end == end,
    {
        Span { _marker: core::marker::PhantomData, loc, start, end }
    }

    /// The same range, re-tagged for another phase.
    pub fn to_span<E>(&self) -> (r: Span<E>)
        ensures
            r.loc@ == self.loc@,
            r.start == self.start,
            r.end == self.end,
    {
        Span { _marker: core::marker::PhantomData, loc: self.loc, start: self.start, end: self.end }
    }
}

} // verus!
