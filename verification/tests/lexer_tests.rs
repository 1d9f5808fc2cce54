use proj::lexer::{LexErrKind, Lexer, PeekableLexer};
use proj::token::{Loc, Span, Token, TokenKind};

fn lex_all(src: &[u8]) -> Vec<Token> {
    let mut l = Lexer::new(src.to_vec());
    let mut out = Vec::new();
    loop {
        let t = l.next_token().expect("lex error");
        let eof = t.is_eof();
        out.push(t);
        if eof {
            break;
        }
    }
    out
}

fn kinds(src: &[u8]) -> Vec<TokenKind> {
    lex_all(src).into_iter().map(|t| t.kind).collect()
}

#[test]
fn identifiers_and_keywords() {
    let ts = lex_all(b"hello let fn while foo_1 _x");
    assert_eq!(ts[0].kind, TokenKind::Identifier);
    assert_eq!(ts[0].source, b"hello".to_vec());
    assert_eq!(ts[1].kind, TokenKind::Keyword);
    assert_eq!(ts[1].source, b"let".to_vec());
    assert_eq!(ts[2].kind, TokenKind::Keyword);
    assert_eq!(ts[3].kind, TokenKind::Keyword);
    assert_eq!(ts[4].kind, TokenKind::Identifier);
    assert_eq!(ts[4].source, b"foo_1".to_vec());
    assert_eq!(ts[5].kind, TokenKind::Identifier);
    assert_eq!(ts[6].kind, TokenKind::EOF);
}

#[test]
fn operators_greedy() {
    assert_eq!(
        kinds(b"-> == != && || :: ... - = ! & | : ."),
        vec![
            TokenKind::Arrow,
            TokenKind::Eq,
            TokenKind::NotEq,
            TokenKind::DoubleAmpersand,
            TokenKind::DoublePipe,
            TokenKind::DoubleColon,
            TokenKind::Splat,
            TokenKind::Minus,
            TokenKind::Assign,
            TokenKind::Bang,
            TokenKind::Ampersand,
            TokenKind::Pipe,
            TokenKind::Colon,
            TokenKind::Dot,
            TokenKind::EOF,
        ]
    );
}

#[test]
fn punctuation() {
    assert_eq!(
        kinds(b"( ) [ ] { } , ; + * / % $ < >"),
        vec![
            TokenKind::OpenParen,
            TokenKind::CloseParen,
            TokenKind::OpenSquare,
            TokenKind::CloseSquare,
            TokenKind::OpenBrace,
            TokenKind::CloseBrace,
            TokenKind::Comma,
            TokenKind::SemiColon,
            TokenKind::Plus,
            TokenKind::Asterisk,
            TokenKind::Slash,
            TokenKind::Mod,
            TokenKind::Dollar,
            TokenKind::Lt,
            TokenKind::Gt,
            TokenKind::EOF,
        ]
    );
}

#[test]
fn numbers_and_suffixes() {
    let ts = lex_all(b"123 45i32 9u32 7i64 8u64");
    assert_eq!(ts[0].kind, TokenKind::Integer);
    assert_eq!(ts[0].source, b"123".to_vec());
    assert_eq!(ts[1].kind, TokenKind::IntegerNumber);
    assert_eq!(ts[1].source, b"45".to_vec());
    assert_eq!(ts[2].kind, TokenKind::UnsignedIntegerNumber);
    assert_eq!(ts[3].kind, TokenKind::LongIntegerNumber);
    assert_eq!(ts[4].kind, TokenKind::LongUnsignedIntegerNumber);
}

#[test]
fn unknown_suffix_is_error() {
    let mut l = Lexer::new(b"12abc".to_vec());
    let e = l.next_token().unwrap_err();
    assert_eq!(e.kind, LexErrKind::UnknownIntegerSuffix);
}

#[test]
fn strings_and_escapes() {
    let ts = lex_all(b"\"hi\" \"a\\n\\\"b\\\\\" \"\"");
    assert_eq!(ts[0].kind, TokenKind::StringLiteral);
    assert_eq!(ts[0].source, b"hi".to_vec());
    assert_eq!(ts[1].source, b"a\n\"b\\".to_vec());
    assert_eq!(ts[2].source, b"".to_vec());
}

#[test]
fn unterminated_string_is_error() {
    let mut l = Lexer::new(b"\"abc".to_vec());
    let e = l.next_token().unwrap_err();
    assert_eq!(e.kind, LexErrKind::UnterminatedString);
}

#[test]
fn invalid_escape_is_error() {
    let mut l = Lexer::new(b"\"a\\qb\"".to_vec());
    let e = l.next_token().unwrap_err();
    assert_eq!(e.kind, LexErrKind::InvalidEscape(b'q'));
}

#[test]
fn macros_bare_and_with_args() {
    let ts = lex_all(b"@build @run(a (b) c) x");
    assert_eq!(ts[0].kind, TokenKind::MacroCall);
    assert_eq!(ts[0].source, b"build".to_vec());
    assert_eq!(ts[1].kind, TokenKind::MacroCallWithArgs);
    assert_eq!(ts[1].source, b"run(a (b) c)".to_vec());
    assert_eq!(ts[2].kind, TokenKind::Identifier);
}

#[test]
fn unterminated_macro_is_error() {
    let mut l = Lexer::new(b"@name".to_vec());
    let e = l.next_token().unwrap_err();
    assert_eq!(e.kind, LexErrKind::UnterminatedMacro);
    let mut l2 = Lexer::new(b"@f(xy".to_vec());
    let e2 = l2.next_token().unwrap_err();
    assert_eq!(e2.kind, LexErrKind::UnterminatedMacroArgs);
}

#[test]
fn unexpected_character_is_error() {
    let mut l = Lexer::new(b"#".to_vec());
    let e = l.next_token().unwrap_err();
    assert_eq!(e.kind, LexErrKind::UnexpectedChar(b'#'));
    assert_eq!(e.loc.line, 1);
}

#[test]
fn comments_are_skipped() {
    assert_eq!(
        kinds(b"a // comment ...\nb // trailing comment with no newline"),
        vec![TokenKind::Identifier, TokenKind::Identifier, TokenKind::EOF]
    );
}

#[test]
fn eof_tail_is_idempotent() {
    let mut l = Lexer::new(b"x".to_vec());
    assert!(l.next_token().unwrap().is_ident());
    assert!(l.next_token().unwrap().is_eof());
    assert!(l.next_token().unwrap().is_eof());
    assert!(l.next_token().unwrap().is_eof());
}

#[test]
fn locations_track_lines_and_tabs() {
    let ts = lex_all(b"a\nb\tc");
    assert_eq!(ts[0].loc.line, 1);
    assert_eq!(ts[1].loc.line, 2);
    // after the tab the column jumps to the next multiple of 8
    assert_eq!(ts[2].loc.line, 2);
    assert_eq!(ts[2].loc.col, 9);
}

// Re-tokenizing the exact recorded source text of a self-delimiting token
// yields the same kind (tokenizer self-consistency, for the kinds whose
// recorded text is the matched input).
#[test]
fn retokenizing_token_source_keeps_kind() {
    let ts = lex_all(b"hello while 123 -> == ... , { } !");
    for t in &ts {
        match t.kind {
            TokenKind::EOF => continue,
            _ => {}
        }
        let again = lex_all(&t.source);
        assert_eq!(again[0].kind, t.kind, "kind changed for {:?}", t);
        assert_eq!(again[0].source, t.source);
    }
}

#[test]
fn peekable_lexer_buffers_one_token() {
    let mut l = PeekableLexer::new(b"a b".to_vec());
    assert_eq!(l.peek_token().unwrap().source, b"a".to_vec());
    assert_eq!(l.peek_token().unwrap().source, b"a".to_vec());
    assert_eq!(l.next_token().unwrap().source, b"a".to_vec());
    assert_eq!(l.next_token().unwrap().source, b"b".to_vec());
    assert!(l.next_token().unwrap().is_eof());
}

#[test]
fn token_predicates() {
    let t = Token::new(TokenKind::MacroCall, Loc::new(1, 1), b"m".to_vec());
    assert!(t.is_macro());
    assert!(!t.is_ident());
    assert!(!t.is_eof());
    assert!(!t.is_invalid());
    let inv = Token::new(TokenKind::Invalid, Loc::new(1, 1), Vec::new());
    assert!(inv.is_invalid());
}

#[test]
fn binop_kinds() {
    assert!(TokenKind::Plus.is_binop());
    assert!(TokenKind::DoublePipe.is_binop());
    assert!(!TokenKind::OpenBrace.is_binop());
    assert!(!TokenKind::Identifier.is_binop());
}

#[test]
fn loc_advances() {
    let mut loc = Loc::new(1, 1);
    loc.next_column();
    assert_eq!((loc.line, loc.col), (1, 2));
    loc.next_line();
    assert_eq!((loc.line, loc.col), (2, 1));
    loc.next(b'\t');
    assert_eq!((loc.line, loc.col), (2, 8));
    loc.next(b'x');
    assert_eq!((loc.line, loc.col), (2, 9));
}

#[test]
fn spans_retag() {
    let s: Span<u8> = Span::new(Loc::new(3, 4), 10, 20);
    let t: Span<u16> = s.to_span();
    assert_eq!(t.start, 10);
    assert_eq!(t.end, 20);
    assert_eq!(t.loc.line, 3);
}
