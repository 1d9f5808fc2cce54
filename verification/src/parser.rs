use vstd::prelude::*;
use crate::token::{Loc, LocV, Token, TokenKind};
use crate::lexer::{
    LexError, LexErrV, PLexerV, PeekableLexer, MAX_SOURCE_LEN, pl_next, pl_measure, pl_wf_at,
    lemma_pl_next_progress,
};
use crate::value::StrMap;

verus! {

broadcast use vstd::seq::axiom_seq_index_decreases, vstd::std_specs::vec::axiom_vec_decreases_to_view;

// ---------------------------------------------------------------------------
// Commands and blocks
// ---------------------------------------------------------------------------

/// One command of the stack machine, decided once at parse time. `If` and
/// `While` own their nested command list by value: the command structure is a
/// tree.
#[derive(Debug, PartialEq)]
pub enum Command {
    /// Pop a command line, run it through the host shell, push its trimmed
    /// output and a Boolean telling whether it succeeded.
    Shell,
    /// Push a string literal.
    PushStr(Vec<u8>),
    /// Push an integer literal.
    PushInt(i64),
    /// Pop a string and print it.
    Echo,
    /// Duplicate the top of the stack.
    Dup,
    /// Discard the top of the stack.
    Pop,
    /// Swap the two topmost values.
    Swap,
    /// Pop two strings and push their concatenation.
    Concat,
    /// Pop a Boolean and push its negation.
    Not,
    /// Pop a path, read that file, push its contents.
    ReadFile,
    /// Pop the contents, then the path, and write the file.
    WriteFile,
    /// Pop a Boolean; when true, run the nested commands.
    If(Vec<Command>),
    /// Pop a Boolean; while true, run the nested commands and pop again.
    While(Vec<Command>),
    /// Run the named directive's commands in the same environment.
    Call(Vec<u8>),
    /// Pop an integer and end the run with it as the exit code.
    Exit,
    /// Print the whole stack without changing it.
    Debug,
    /// Pop a value and bind it to the name.
    Store(Vec<u8>),
    /// Push a copy of the named variable's value.
    LoadVar(Vec<u8>),
}

/// Mathematical model of a `Command`.
pub enum CommandV {
    Shell,
    PushStr(Seq<u8>),
    PushInt(i64),
    Echo,
    Dup,
    Pop,
    Swap,
    Concat,
    Not,
    ReadFile,
    WriteFile,
    If(Seq<CommandV>),
    While(Seq<CommandV>),
    Call(Seq<u8>),
    Exit,
    Debug,
    Store(Seq<u8>),
    LoadVar(Seq<u8>),
}

/// Model of one command.
pub open spec fn cmd_view(c: Command) -> CommandV
    decreases c,
{
    match c {
        Command::Shell => CommandV::Shell,
        Command::PushStr(s) => CommandV::PushStr(s@),
        Command::PushInt(n) => CommandV::PushInt(n),
        Command::Echo => CommandV::Echo,
        Command::Dup => CommandV::Dup,
        Command::Pop => CommandV::Pop,
        Command::Swap => CommandV::Swap,
        Command::Concat => CommandV::Concat,
        Command::Not => CommandV::Not,
        Command::ReadFile => CommandV::ReadFile,
        Command::WriteFile => CommandV::WriteFile,
        Command::If(body) => CommandV::If(cmds_view(body@)),
        Command::While(body) => CommandV::While(cmds_view(body@)),
        Command::Call(n) => CommandV::Call(n@),
        Command::Exit => CommandV::Exit,
        Command::Debug => CommandV::Debug,
        Command::Store(n) => CommandV::Store(n@),
        Command::LoadVar(n) => CommandV::LoadVar(n@),
    }
}

/// Model of a command list.
pub open spec fn cmds_view(s: Seq<Command>) -> Seq<CommandV>
    decreases s,
{
    Seq::new(
        s.len(),
        |i: int|
            if 0 <= i < s.len() {
                cmd_view(s[i])
            } else {
                CommandV::Shell
            },
    )
}

impl View for Command {
    type V = CommandV;

    open spec fn view(&self) -> CommandV {
        cmd_view(*self)
    }
}

/// One directive's parse result: the commands to run and the names its `call`
/// commands depend on (duplicates kept, nested dependencies bubbled up).
#[derive(Debug)]
pub struct Block {
    pub deps: Vec<Vec<u8>>,
    pub commands: Vec<Command>,
}

/// Mathematical model of a `Block`.
pub struct BlockV {
    pub deps: Seq<Seq<u8>>,
    pub commands: Seq<CommandV>,
}

impl View for Block {
    type V = BlockV;

    open spec fn view(&self) -> BlockV {
        BlockV { deps: self.deps@.map(|i: int, d: Vec<u8>| d@), commands: cmds_view(self.commands@) }
    }
}

/// The block mapping: directive name to block.
pub type Blocks = StrMap<Block>;

// ---------------------------------------------------------------------------
// Parse errors
// ---------------------------------------------------------------------------

/// Why parsing failed.
#[derive(Debug)]
pub enum ParseError {
    /// The tokenizer failed.
    Lex(LexError),
    /// A token other than a directive name at the top level.
    UnexpectedTopLevel { kind: TokenKind, loc: Loc },
    /// A token of the wrong kind where a particular kind was required; holds
    /// the offending token's text.
    Expected { loc: Loc, expected: TokenKind, found: TokenKind, found_text: Vec<u8> },
    /// A directive name defined twice.
    Redefinition(Vec<u8>),
    /// An integer literal that does not fit a 64-bit signed integer.
    MalformedInteger(Loc),
    /// A macro reference to a directive not yet parsed.
    UnknownMacro(Vec<u8>),
    /// A token kind that cannot appear inside a block body.
    UnexpectedInBlock { kind: TokenKind, loc: Loc },
}

/// Mathematical model of a `ParseError`.
pub enum PErrV {
    Lex(LexErrV),
    UnexpectedTopLevel { kind: TokenKind, loc: LocV },
    Expected { loc: LocV, expected: TokenKind, found: TokenKind, found_text: Seq<u8> },
    Redefinition(Seq<u8>),
    MalformedInteger(LocV),
    UnknownMacro(Seq<u8>),
    UnexpectedInBlock { kind: TokenKind, loc: LocV },
}

impl View for ParseError {
    type V = PErrV;

    open spec fn view(&self) -> PErrV {
        match self {
            ParseError::Lex(e) => PErrV::Lex(e@),
            ParseError::UnexpectedTopLevel { kind, loc } => PErrV::UnexpectedTopLevel {
                kind: *kind,
                loc: loc@,
            },
            ParseError::Expected { loc, expected, found, found_text } => PErrV::Expected {
                loc: loc@,
                expected: *expected,
                found: *found,
                found_text: found_text@,
            },
            ParseError::Redefinition(n) => PErrV::Redefinition(n@),
            ParseError::MalformedInteger(l) => PErrV::MalformedInteger(l@),
            ParseError::UnknownMacro(n) => PErrV::UnknownMacro(n@),
            ParseError::UnexpectedInBlock { kind, loc } => PErrV::UnexpectedInBlock {
                kind: *kind,
                loc: loc@,
            },
        }
    }
}

// ---------------------------------------------------------------------------
// The command words
// ---------------------------------------------------------------------------

/// The directive-language words the parser recognizes inside a block. They
/// are matched on the literal text of an identifier or keyword token; any
/// other bare word is a variable load.
#[derive(Debug, Clone, Copy, PartialEq, Eq, Structural)]
pub enum Word {
    Echo,
    Shell,
    ReadFile,
    WriteFile,
    Concat,
    Not,
    Dup,
    Pop,
    Swap,
    Exit,
    Debug,
    If,
    While,
    Call,
    Let,
    Other,
}

/// Classify a bare word.
pub open spec fn word_of(s: Seq<u8>) -> Word {
    if s.len() == 4 && s[0] == 101 && s[1] == 99 && s[2] == 104 && s[3] == 111 {
        Word::Echo
    } else if s.len() == 5 && s[0] == 115 && s[1] == 104 && s[2] == 101 && s[3] == 108 && s[4] == 108 {
        Word::Shell
    } else if s.len() == 8 && s[0] == 114 && s[1] == 101 && s[2] == 97 && s[3] == 100 && s[4] == 102 && s[5] == 105 && s[6] == 108 && s[7] == 101 {
        Word::ReadFile
    } else if s.len() == 9 && s[0] == 119 && s[1] == 114 && s[2] == 105 && s[3] == 116 && s[4] == 101 && s[5] == 102 && s[6] == 105 && s[7] == 108 && s[8] == 101 {
        Word::WriteFile
    } else if s.len() == 6 && s[0] == 99 && s[1] == 111 && s[2] == 110 && s[3] == 99 && s[4] == 97 && s[5] == 116 {
        Word::Concat
    } else if s.len() == 3 && s[0] == 110 && s[1] == 111 && s[2] == 116 {
        Word::Not
    } else if s.len() == 3 && s[0] == 100 && s[1] == 117 && s[2] == 112 {
        Word::Dup
    } else if s.len() == 3 && s[0] == 112 && s[1] == 111 && s[2] == 112 {
        Word::Pop
    } else if s.len() == 4 && s[0] == 115 && s[1] == 119 && s[2] == 97 && s[3] == 112 {
        Word::Swap
    } else if s.len() == 4 && s[0] == 101 && s[1] == 120 && s[2] == 105 && s[3] == 116 {
        Word::Exit
    } else if s.len() == 5 && s[0] == 100 && s[1] == 101 && s[2] == 98 && s[3] == 117 && s[4] == 103 {
        Word::Debug
    } else if s.len() == 2 && s[0] == 105 && s[1] == 102 {
        Word::If
    } else if s.len() == 5 && s[0] == 119 && s[1] == 104 && s[2] == 105 && s[3] == 108 && s[4] == 101 {
        Word::While
    } else if s.len() == 4 && s[0] == 99 && s[1] == 97 && s[2] == 108 && s[3] == 108 {
        Word::Call
    } else if s.len() == 3 && s[0] == 108 && s[1] == 101 && s[2] == 116 {
        Word::Let
    } else {
        Word::Other
    }
}

fn word_of_b(s: &[u8]) -> (r: Word)
    ensures
        r == word_of(s@),
{
    if s.len() == 4 && s[0] == 101 && s[1] == 99 && s[2] == 104 && s[3] == 111 {
        Word::Echo
    } else if s.len() == 5 && s[0] == 115 && s[1] == 104 && s[2] == 101 && s[3] == 108 && s[4] == 108 {
        Word::Shell
    } else if s.len() == 8 && s[0] == 114 && s[1] == 101 && s[2] == 97 && s[3] == 100 && s[4] == 102 && s[5] == 105 && s[6] == 108 && s[7] == 101 {
        Word::ReadFile
    } else if s.len() == 9 && s[0] == 119 && s[1] == 114 && s[2] == 105 && s[3] == 116 && s[4] == 101 && s[5] == 102 && s[6] == 105 && s[7] == 108 && s[8] == 101 {
        Word::WriteFile
    } else if s.len() == 6 && s[0] == 99 && s[1] == 111 && s[2] == 110 && s[3] == 99 && s[4] == 97 && s[5] == 116 {
        Word::Concat
    } else if s.len() == 3 && s[0] == 110 && s[1] == 111 && s[2] == 116 {
        Word::Not
    } else if s.len() == 3 && s[0] == 100 && s[1] == 117 && s[2] == 112 {
        Word::Dup
    } else if s.len() == 3 && s[0] == 112 && s[1] == 111 && s[2] == 112 {
        Word::Pop
    } else if s.len() == 4 && s[0] == 115 && s[1] == 119 && s[2] == 97 && s[3] == 112 {
        Word::Swap
    } else if s.len() == 4 && s[0] == 101 && s[1] == 120 && s[2] == 105 && s[3] == 116 {
        Word::Exit
    } else if s.len() == 5 && s[0] == 100 && s[1] == 101 && s[2] == 98 && s[3] == 117 && s[4] == 103 {
        Word::Debug
    } else if s.len() == 2 && s[0] == 105 && s[1] == 102 {
        Word::If
    } else if s.len() == 5 && s[0] == 119 && s[1] == 104 && s[2] == 105 && s[3] == 108 && s[4] == 101 {
        Word::While
    } else if s.len() == 4 && s[0] == 99 && s[1] == 97 && s[2] == 108 && s[3] == 108 {
        Word::Call
    } else if s.len() == 3 && s[0] == 108 && s[1] == 101 && s[2] == 116 {
        Word::Let
    } else {
        Word::Other
    }
}

// ---------------------------------------------------------------------------
// Integer literals
// ---------------------------------------------------------------------------

/// The number a digit string denotes.
pub open spec fn digits_val(s: Seq<u8>) -> int
    decreases s.len(),
{
    if s.len() == 0 {
        0
    } else {
        digits_val(s.drop_last()) * 10 + (s.last() - 48)
    }
}

/// Whether every byte is a decimal digit.
pub open spec fn all_digits(s: Seq<u8>) -> bool {
    forall|i: int| 0 <= i < s.len() ==> crate::lexer::is_digit(s[i])
}

/// What parsing a (non-negative) integer literal yields: its value when it is
/// a digit string whose value fits an `i64`, nothing otherwise.
pub open spec fn parse_i64_spec(s: Seq<u8>) -> Option<i64> {
    if s.len() > 0 && all_digits(s) && digits_val(s) <= i64::MAX {
        Some(digits_val(s) as i64)
    } else {
        None
    }
}

proof fn lemma_digits_val_bounds(s: Seq<u8>)
    requires
        all_digits(s),
    ensures
        digits_val(s) >= 0,
        s.len() > 0 ==> digits_val(s) >= digits_val(s.drop_last()),
    decreases s.len(),
{
    if s.len() > 0 {
        assert(all_digits(s.drop_last())) by {
            assert(forall|i: int|
                0 <= i < s.drop_last().len() ==> s.drop_last()[i] == s[i]);
        }
        lemma_digits_val_bounds(s.drop_last());
        assert(digits_val(s.drop_last()) * 10 >= digits_val(s.drop_last())) by (nonlinear_arith)
            requires digits_val(s.drop_last()) >= 0;
    }
}

/// Parse a digit string into an `i64`, detecting overflow exactly.
pub fn parse_i64(s: &[u8]) -> (r: Option<i64>)
    ensures
        r == parse_i64_spec(s@),
{
    if s.len() == 0 {
        return None;
    }
    let mut acc: i64 = 0;
    let mut i: usize = 0;
    while i < s.len()
        invariant
            0 <= i <= s.len(),
            all_digits(s@.take(i as int)),
            acc == digits_val(s@.take(i as int)),
            acc >= 0,
        decreases s.len() - i,
    {
        let c = s[i];
        if c < 48 || c > 57 {
            proof {
                assert(!crate::lexer::is_digit(s@[i as int]));
            }
            return None;
        }
        let d = (c - 48) as i64;
        if acc > (i64::MAX - d) / 10 {
            proof {
                lemma_digit_overflow(s@, i as int, acc as int, d as int);
            }
            return None;
        }
        proof {
            assert(s@.take(i + 1).drop_last() =~= s@.take(i as int));
            assert(s@.take(i + 1).last() == s@[i as int]);
            assert(acc * 10 + d <= i64::MAX) by (nonlinear_arith)
                requires
                    acc >= 0,
                    0 <= d <= 9,
                    acc <= (i64::MAX - d) / 10;
        }
        acc = acc * 10 + d;
        i = i + 1;
    }
    proof {
        assert(s@.take(s@.len() as int) =~= s@);
    }
    Some(acc)
}

/// When the next digit would overflow, the whole literal's value is over the
/// bound, whatever digits follow.
proof fn lemma_digit_overflow(s: Seq<u8>, i: int, acc: int, d: int)
    requires
        0 <= i < s.len(),
        acc == digits_val(s.take(i)),
        acc >= 0,
        d == s[i] - 48,
        0 <= d <= 9,
        acc > (i64::MAX - d) / 10,
    ensures
        all_digits(s) ==> digits_val(s) > i64::MAX,
{
    if all_digits(s) {
        assert(acc * 10 + d > i64::MAX) by (nonlinear_arith)
            requires
                acc >= 0,
                0 <= d <= 9,
                acc > (i64::MAX - d) / 10;
        assert(s.take(i + 1).drop_last() =~= s.take(i));
        assert(digits_val(s.take(i + 1)) == acc * 10 + d);
        lemma_digits_prefix_monotonic(s, i + 1);
    }
}

/// A digit string's value only grows as digits are appended.
proof fn lemma_digits_prefix_monotonic(s: Seq<u8>, j: int)
    requires
        all_digits(s),
        0 <= j <= s.len(),
    ensures
        digits_val(s) >= digits_val(s.take(j)),
    decreases s.len() - j,
{
    if j < s.len() {
        assert(all_digits(s.take(j + 1))) by {
            assert(forall|k: int| 0 <= k < j + 1 ==> s.take(j + 1)[k] == s[k]);
        }
        assert(s.take(j + 1).drop_last() =~= s.take(j));
        assert(digits_val(s.take(j + 1)) == digits_val(s.take(j)) * 10 + (s[j] - 48));
        assert(digits_val(s.take(j)) >= 0) by {
            assert(all_digits(s.take(j))) by {
                assert(forall|k: int| 0 <= k < j ==> s.take(j)[k] == s[k]);
            }
            lemma_digits_val_bounds(s.take(j));
        }
        assert(digits_val(s.take(j)) * 10 >= digits_val(s.take(j))) by (nonlinear_arith)
            requires digits_val(s.take(j)) >= 0;
        lemma_digits_prefix_monotonic(s, j + 1);
    } else {
        assert(s.take(j) =~= s);
    }
}

// ---------------------------------------------------------------------------
// The parser, as mathematics
// ---------------------------------------------------------------------------

/// One block parse: its result and the tokenizer state after it.
pub struct ParseStep {
    pub res: Result<BlockV, PErrV>,
    pub st: PLexerV,
}

/// An empty block under construction.
pub open spec fn empty_block() -> BlockV {
    BlockV { deps: Seq::empty(), commands: Seq::empty() }
}

/// Parse one brace-delimited block: an opening brace, then statements up to
/// the matching closing brace.
pub open spec fn spec_parse_block(st: PLexerV, blocks: Map<Seq<u8>, BlockV>) -> ParseStep
    decreases pl_measure(st), 1int,
    when pl_wf_at(st)
    via spec_parse_block_decreases
{
    let (t, st1) = pl_next(st);
    match t {
        Err(e) => ParseStep { res: Err(PErrV::Lex(e)), st: st1 },
        Ok(tok) => {
            if tok.kind != TokenKind::OpenBrace {
                ParseStep {
                    res: Err(
                        PErrV::Expected {
                            loc: tok.loc,
                            expected: TokenKind::OpenBrace,
                            found: tok.kind,
                            found_text: tok.source,
                        },
                    ),
                    st: st1,
                }
            } else {
                spec_parse_stmts(st1, blocks, empty_block())
            }
        },
    }
}

/// Parse statements up to the closing brace, accumulating commands and
/// dependencies onto `acc`.
pub open spec fn spec_parse_stmts(st: PLexerV, blocks: Map<Seq<u8>, BlockV>, acc: BlockV) -> ParseStep
    decreases pl_measure(st), 0int,
    when pl_wf_at(st)
    via spec_parse_stmts_decreases
{
    let (t, st1) = pl_next(st);
    match t {
        Err(e) => ParseStep { res: Err(PErrV::Lex(e)), st: st1 },
        Ok(tok) => {
            if tok.kind == TokenKind::CloseBrace {
                ParseStep { res: Ok(acc), st: st1 }
            } else if tok.kind == TokenKind::StringLiteral {
                spec_parse_stmts(
                    st1,
                    blocks,
                    BlockV { deps: acc.deps, commands: acc.commands.push(CommandV::PushStr(tok.source)) },
                )
            } else if tok.kind == TokenKind::Integer {
                match parse_i64_spec(tok.source) {
                    Some(n) => spec_parse_stmts(
                        st1,
                        blocks,
                        BlockV { deps: acc.deps, commands: acc.commands.push(CommandV::PushInt(n)) },
                    ),
                    None => ParseStep { res: Err(PErrV::MalformedInteger(tok.loc)), st: st1 },
                }
            } else if tok.kind == TokenKind::Identifier || tok.kind == TokenKind::Keyword {
                match word_of(tok.source) {
                    Word::Echo => spec_parse_stmts(st1, blocks, BlockV { deps: acc.deps, commands: acc.commands.push(CommandV::Echo) }),
                    Word::Shell => spec_parse_stmts(st1, blocks, BlockV { deps: acc.deps, commands: acc.commands.push(CommandV::Shell) }),
                    Word::ReadFile => spec_parse_stmts(st1, blocks, BlockV { deps: acc.deps, commands: acc.commands.push(CommandV::ReadFile) }),
                    Word::WriteFile => spec_parse_stmts(st1, blocks, BlockV { deps: acc.deps, commands: acc.commands.push(CommandV::WriteFile) }),
                    Word::Concat => spec_parse_stmts(st1, blocks, BlockV { deps: acc.deps, commands: acc.commands.push(CommandV::Concat) }),
                    Word::Not => spec_parse_stmts(st1, blocks, BlockV { deps: acc.deps, commands: acc.commands.push(CommandV::Not) }),
                    Word::Dup => spec_parse_stmts(st1, blocks, BlockV { deps: acc.deps, commands: acc.commands.push(CommandV::Dup) }),
                    Word::Pop => spec_parse_stmts(st1, blocks, BlockV { deps: acc.deps, commands: acc.commands.push(CommandV::Pop) }),
                    Word::Swap => spec_parse_stmts(st1, blocks, BlockV { deps: acc.deps, commands: acc.commands.push(CommandV::Swap) }),
                    Word::Exit => spec_parse_stmts(st1, blocks, BlockV { deps: acc.deps, commands: acc.commands.push(CommandV::Exit) }),
                    Word::Debug => spec_parse_stmts(st1, blocks, BlockV { deps: acc.deps, commands: acc.commands.push(CommandV::Debug) }),
                    Word::If => {
                        let inner = spec_parse_block(st1, blocks);
                        match inner.res {
                            Err(e) => ParseStep { res: Err(e), st: inner.st },
                            Ok(b) => {
                                // The nested parse always consumes input (see
                                // `lemma_spec_parse_block_measure`); the guard
                                // only keeps this recursion well-founded.
                                if pl_wf_at(inner.st) && pl_measure(inner.st) < pl_measure(st1) {
                                    spec_parse_stmts(
                                        inner.st,
                                        blocks,
                                        BlockV {
                                            deps: acc.deps + b.deps,
                                            commands: acc.commands.push(CommandV::If(b.commands)),
                                        },
                                    )
                                } else {
                                    ParseStep { res: Ok(acc), st: inner.st }
                                }
                            },
                        }
                    },
                    Word::While => {
                        let inner = spec_parse_block(st1, blocks);
                        match inner.res {
                            Err(e) => ParseStep { res: Err(e), st: inner.st },
                            Ok(b) => {
                                if pl_wf_at(inner.st) && pl_measure(inner.st) < pl_measure(st1) {
                                    spec_parse_stmts(
                                        inner.st,
                                        blocks,
                                        BlockV {
                                            deps: acc.deps + b.deps,
                                            commands: acc.commands.push(CommandV::While(b.commands)),
                                        },
                                    )
                                } else {
                                    ParseStep { res: Ok(acc), st: inner.st }
                                }
                            },
                        }
                    },
                    Word::Call => {
                        let (t2, st2) = pl_next(st1);
                        match t2 {
                            Err(e) => ParseStep { res: Err(PErrV::Lex(e)), st: st2 },
                            Ok(tok2) => {
                                if tok2.kind != TokenKind::Identifier {
                                    ParseStep {
                                        res: Err(
                                            PErrV::Expected {
                                                loc: tok2.loc,
                                                expected: TokenKind::Identifier,
                                                found: tok2.kind,
                                                found_text: tok2.source,
                                            },
                                        ),
                                        st: st2,
                                    }
                                } else {
                                    spec_parse_stmts(
                                        st2,
                                        blocks,
                                        BlockV {
                                            deps: acc.deps.push(tok2.source),
                                            commands: acc.commands.push(CommandV::Call(tok2.source)),
                                        },
                                    )
                                }
                            },
                        }
                    },
                    Word::Let => {
                        let (t2, st2) = pl_next(st1);
                        match t2 {
                            Err(e) => ParseStep { res: Err(PErrV::Lex(e)), st: st2 },
                            Ok(tok2) => {
                                if tok2.kind != TokenKind::Identifier {
                                    ParseStep {
                                        res: Err(
                                            PErrV::Expected {
                                                loc: tok2.loc,
                                                expected: TokenKind::Identifier,
                                                found: tok2.kind,
                                                found_text: tok2.source,
                                            },
                                        ),
                                        st: st2,
                                    }
                                } else {
                                    spec_parse_stmts(
                                        st2,
                                        blocks,
                                        BlockV {
                                            deps: acc.deps,
                                            commands: acc.commands.push(CommandV::Store(tok2.source)),
                                        },
                                    )
                                }
                            },
                        }
                    },
                    Word::Other => spec_parse_stmts(st1, blocks, BlockV { deps: acc.deps, commands: acc.commands.push(CommandV::LoadVar(tok.source)) }),
                }
            } else if tok.kind == TokenKind::MacroCall {
                if blocks.contains_key(tok.source) {
                    spec_parse_stmts(
                        st1,
                        blocks,
                        BlockV {
                            deps: acc.deps,
                            commands: acc.commands + blocks[tok.source].commands,
                        },
                    )
                } else {
                    ParseStep { res: Err(PErrV::UnknownMacro(tok.source)), st: st1 }
                }
            } else {
                ParseStep { res: Err(PErrV::UnexpectedInBlock { kind: tok.kind, loc: tok.loc }), st: st1 }
            }
        },
    }
}

#[via_fn]
proof fn spec_parse_block_decreases(st: PLexerV, blocks: Map<Seq<u8>, BlockV>) {
    lemma_pl_next_progress(st);
}

#[via_fn]
proof fn spec_parse_stmts_decreases(st: PLexerV, blocks: Map<Seq<u8>, BlockV>, acc: BlockV) {
    lemma_pl_next_progress(st);
    let (t, st1) = pl_next(st);
    match t {
        Ok(tok) => {
            if tok.kind != TokenKind::CloseBrace {
                lemma_pl_next_progress(st1);
            }
        },
        Err(_) => {},
    }
}

/// A successfully parsed block consumed at least one token and left a
/// well-formed state.
pub proof fn lemma_spec_parse_block_measure(st: PLexerV, blocks: Map<Seq<u8>, BlockV>)
    requires
        pl_wf_at(st),
    ensures
        ({
            let out = spec_parse_block(st, blocks);
            out.res is Ok ==> pl_wf_at(out.st) && pl_measure(out.st) < pl_measure(st)
        }),
    decreases pl_measure(st), 1int,
{
    lemma_pl_next_progress(st);
    let (t, st1) = pl_next(st);
    match t {
        Ok(tok) => {
            if tok.kind == TokenKind::OpenBrace {
                lemma_spec_parse_stmts_measure(st1, blocks, empty_block());
            }
        },
        Err(_) => {},
    }
}

/// Successfully parsed statements consume at least the closing brace.
pub proof fn lemma_spec_parse_stmts_measure(st: PLexerV, blocks: Map<Seq<u8>, BlockV>, acc: BlockV)
    requires
        pl_wf_at(st),
    ensures
        ({
            let out = spec_parse_stmts(st, blocks, acc);
            out.res is Ok ==> pl_wf_at(out.st) && pl_measure(out.st) < pl_measure(st)
        }),
    decreases pl_measure(st), 0int,
{
    lemma_pl_next_progress(st);
    let (t, st1) = pl_next(st);
    if let Ok(tok) = t {
        if tok.kind == TokenKind::CloseBrace {
        } else if tok.kind == TokenKind::StringLiteral {
            lemma_spec_parse_stmts_measure(
                st1,
                blocks,
                BlockV { deps: acc.deps, commands: acc.commands.push(CommandV::PushStr(tok.source)) },
            );
        } else if tok.kind == TokenKind::Integer {
            if let Some(n) = parse_i64_spec(tok.source) {
                lemma_spec_parse_stmts_measure(
                    st1,
                    blocks,
                    BlockV { deps: acc.deps, commands: acc.commands.push(CommandV::PushInt(n)) },
                );
            }
        } else if tok.kind == TokenKind::Identifier || tok.kind == TokenKind::Keyword {
            let w = word_of(tok.source);
            if w == Word::If || w == Word::While {
                lemma_pl_next_progress(st);
                lemma_spec_parse_block_measure(st1, blocks);
                let inner = spec_parse_block(st1, blocks);
                if let Ok(b) = inner.res {
                    let acc2 = if w == Word::If {
                        BlockV {
                            deps: acc.deps + b.deps,
                            commands: acc.commands.push(CommandV::If(b.commands)),
                        }
                    } else {
                        BlockV {
                            deps: acc.deps + b.deps,
                            commands: acc.commands.push(CommandV::While(b.commands)),
                        }
                    };
                    lemma_spec_parse_stmts_measure(inner.st, blocks, acc2);
                }
            } else if w == Word::Call || w == Word::Let {
                lemma_pl_next_progress(st1);
                let (t2, st2) = pl_next(st1);
                if let Ok(tok2) = t2 {
                    if tok2.kind == TokenKind::Identifier {
                    let acc2 = if w == Word::Call {
                        BlockV {
                            deps: acc.deps.push(tok2.source),
                            commands: acc.commands.push(CommandV::Call(tok2.source)),
                        }
                    } else {
                        BlockV {
                            deps: acc.deps,
                            commands: acc.commands.push(CommandV::Store(tok2.source)),
                        }
                    };
                    lemma_spec_parse_stmts_measure(st2, blocks, acc2);
                    }
                }
            } else if w == Word::Other {
                lemma_spec_parse_stmts_measure(
                    st1,
                    blocks,
                    BlockV {
                        deps: acc.deps,
                        commands: acc.commands.push(CommandV::LoadVar(tok.source)),
                    },
                );
            } else {
                lemma_spec_parse_stmts_measure(
                    st1,
                    blocks,
                    BlockV { deps: acc.deps, commands: acc.commands.push(zero_arg_cmd(w)) },
                );
            }
        } else if tok.kind == TokenKind::MacroCall {
            if blocks.contains_key(tok.source) {
                lemma_spec_parse_stmts_measure(
                    st1,
                    blocks,
                    BlockV { deps: acc.deps, commands: acc.commands + blocks[tok.source].commands },
                );
            }
        }
    }
}

/// The command a zero-argument word stands for.
pub open spec fn zero_arg_cmd(w: Word) -> CommandV {
    match w {
        Word::Echo => CommandV::Echo,
        Word::Shell => CommandV::Shell,
        Word::ReadFile => CommandV::ReadFile,
        Word::WriteFile => CommandV::WriteFile,
        Word::Concat => CommandV::Concat,
        Word::Not => CommandV::Not,
        Word::Dup => CommandV::Dup,
        Word::Pop => CommandV::Pop,
        Word::Swap => CommandV::Swap,
        Word::Exit => CommandV::Exit,
        Word::Debug => CommandV::Debug,
        _ => CommandV::Debug,
    }
}

/// Parse a whole source: directives until end of input. Later directives see
/// the earlier ones (macros resolve against directives already parsed).
pub open spec fn spec_parse_file(st: PLexerV, blocks: Map<Seq<u8>, BlockV>) -> Result<
    Map<Seq<u8>, BlockV>,
    PErrV,
>
    decreases pl_measure(st), 2int,
    when pl_wf_at(st)
    via spec_parse_file_decreases
{
    let (t, st1) = pl_next(st);
    match t {
        Err(e) => Err(PErrV::Lex(e)),
        Ok(tok) => {
            if tok.kind == TokenKind::EOF {
                Ok(blocks)
            } else if tok.kind == TokenKind::Identifier {
                let out = spec_parse_block(st1, blocks);
                match out.res {
                    Err(e) => Err(e),
                    Ok(b) => {
                        if blocks.contains_key(tok.source) {
                            Err(PErrV::Redefinition(tok.source))
                        } else {
                            spec_parse_file(out.st, blocks.insert(tok.source, b))
                        }
                    },
                }
            } else {
                Err(PErrV::UnexpectedTopLevel { kind: tok.kind, loc: tok.loc })
            }
        },
    }
}

#[via_fn]
proof fn spec_parse_file_decreases(st: PLexerV, blocks: Map<Seq<u8>, BlockV>) {
    lemma_pl_next_progress(st);
    let (t, st1) = pl_next(st);
    if let Ok(tok) = t {
        if tok.kind == TokenKind::Identifier {
            lemma_spec_parse_block_measure(st1, blocks);
        }
    }
}

/// Macro splicing: when the next statement token is a bare macro reference,
/// a directive of that name already parsed has its entire command list
/// spliced, verbatim, in place of the reference — the mapping itself and the
/// block's dependency list are untouched — and a reference to a name not yet
/// parsed fails at parse time.
pub proof fn lemma_macro_splices(st: PLexerV, blocks: Map<Seq<u8>, BlockV>, acc: BlockV)
    requires
        pl_wf_at(st),
        pl_next(st).0 matches Ok(tok) && tok.kind == TokenKind::MacroCall,
    ensures
        ({
            let (t, st1) = pl_next(st);
            let name = t->Ok_0.source;
            &&& blocks.contains_key(name) ==> spec_parse_stmts(st, blocks, acc)
                == spec_parse_stmts(
                st1,
                blocks,
                BlockV { deps: acc.deps, commands: acc.commands + blocks[name].commands },
            )
            &&& !blocks.contains_key(name) ==> spec_parse_stmts(st, blocks, acc) == (ParseStep {
                res: Err(PErrV::UnknownMacro(name)),
                st: st1,
            })
        }),
{
    lemma_pl_next_progress(st);
}

/// The starting tokenizer state for a source text.
pub open spec fn init_state(data: Seq<u8>) -> PLexerV {
    PLexerV { data, pos: 0, loc: LocV { line: 1, col: 1 }, peeked: None }
}

/// What parsing a source text yields.
pub open spec fn spec_parse(data: Seq<u8>) -> Result<Map<Seq<u8>, BlockV>, PErrV> {
    spec_parse_file(init_state(data), Map::empty())
}

// ---------------------------------------------------------------------------
// The executable parser
// ---------------------------------------------------------------------------

/// Deep-copy one command.
fn clone_cmd(c: &Command) -> (r: Command)
    ensures
        r@ == c@,
    decreases c,
{
    match c {
        Command::Shell => Command::Shell,
        Command::PushStr(s) => Command::PushStr(crate::value::bytes_clone(s)),
        Command::PushInt(n) => Command::PushInt(*n),
        Command::Echo => Command::Echo,
        Command::Dup => Command::Dup,
        Command::Pop => Command::Pop,
        Command::Swap => Command::Swap,
        Command::Concat => Command::Concat,
        Command::Not => Command::Not,
        Command::ReadFile => Command::ReadFile,
        Command::WriteFile => Command::WriteFile,
        Command::If(body) => Command::If(clone_cmds(body)),
        Command::While(body) => Command::While(clone_cmds(body)),
        Command::Call(n) => Command::Call(crate::value::bytes_clone(n)),
        Command::Exit => Command::Exit,
        Command::Debug => Command::Debug,
        Command::Store(n) => Command::Store(crate::value::bytes_clone(n)),
        Command::LoadVar(n) => Command::LoadVar(crate::value::bytes_clone(n)),
    }
}

/// Deep-copy a command list.
fn clone_cmds(v: &Vec<Command>) -> (r: Vec<Command>)
    ensures
        cmds_view(r@) == cmds_view(v@),
    decreases v,
{
    let mut r: Vec<Command> = Vec::new();
    let mut i: usize = 0;
    while i < v.len()
        invariant
            i <= v.len(),
            r@.len() == i,
            forall|j: int| 0 <= j < i ==> r@[j]@ == v@[j]@,
        decreases v.len() - i,
    {
        r.push(clone_cmd(&v[i]));
        i = i + 1;
    }
    proof {
        assert(cmds_view(r@) =~= cmds_view(v@));
    }
    r
}

/// Pull one token, requiring a particular kind.
fn expect_token(l: &mut PeekableLexer, kind: TokenKind) -> (r: Result<Token, ParseError>)
    requires
        old(l).wf(),
    ensures
        final(l).wf(),
        final(l)@.data == old(l)@.data,
        ({
            let (t, st1) = pl_next(old(l)@);
            match r {
                Ok(tok) => t matches Ok(tv) && tv.kind == kind && tok@ == tv && final(l)@ == st1,
                Err(e) => {
                    ||| (t matches Err(ev) && e@ == PErrV::Lex(ev))
                    ||| (t matches Ok(tv) && tv.kind != kind && e@ == (PErrV::Expected {
                        loc: tv.loc,
                        expected: kind,
                        found: tv.kind,
                        found_text: tv.source,
                    }))
                },
            }
        }),
{
    match l.next_token() {
        Err(e) => Err(ParseError::Lex(e)),
        Ok(tok) => {
            if tok.kind != kind {
                Err(
                    ParseError::Expected {
                        loc: tok.loc,
                        expected: kind,
                        found: tok.kind,
                        found_text: tok.source,
                    },
                )
            } else {
                Ok(tok)
            }
        },
    }
}

/// Parse one brace-delimited block against the directives parsed so far.
#[verifier::rlimit(100)]
pub fn parse_block(l: &mut PeekableLexer, blocks: &Blocks) -> (r: Result<Block, ParseError>)
    requires
        old(l).wf(),
        pl_wf_at(old(l)@),
    ensures
        final(l).wf(),
        final(l)@.data == old(l)@.data,
        ({
            let out = spec_parse_block(old(l)@, blocks@);
            match r {
                Ok(b) => out.res matches Ok(bv) && b@ == bv && final(l)@ == out.st && pl_wf_at(
                    final(l)@,
                ) && pl_measure(final(l)@) < pl_measure(old(l)@),
                Err(e) => out.res matches Err(ev) && e@ == ev,
            }
        }),
    decreases pl_measure(old(l)@),
{
    proof {
        lemma_pl_next_progress(old(l)@);
        lemma_spec_parse_block_measure(old(l)@, blocks@);
    }
    let _open_tok = expect_token(l, TokenKind::OpenBrace)?;
    let ghost st1 = l@;
    let mut block = Block { deps: Vec::new(), commands: Vec::new() };
    proof {
        assert(block@.deps =~= empty_block().deps);
        assert(cmds_view(block.commands@) =~= empty_block().commands);
    }
    loop
        invariant_except_break
            spec_parse_stmts(st1, blocks@, empty_block()) == spec_parse_stmts(l@, blocks@, block@),
        invariant
            l.wf(),
            pl_wf_at(l@),
            pl_wf_at(st1),
            l@.data == old(l)@.data,
            pl_measure(l@) <= pl_measure(st1),
            pl_measure(st1) < pl_measure(old(l)@),
            spec_parse_block(old(l)@, blocks@) == spec_parse_stmts(st1, blocks@, empty_block()),
        ensures
            l.wf(),
            pl_wf_at(l@),
            l@.data == old(l)@.data,
            ({
                let out = spec_parse_stmts(st1, blocks@, empty_block());
                out.res matches Ok(bv) && block@ == bv && l@ == out.st
            }),
        decreases pl_measure(l@),
    {
        proof {
            lemma_pl_next_progress(l@);
            lemma_spec_parse_stmts_measure(l@, blocks@, block@);
        }
        let peeked_kind = match l.peek_token() {
            Err(e) => {
                return Err(ParseError::Lex(e));
            },
            Ok(p) => p.kind,
        };
        if peeked_kind == TokenKind::CloseBrace {
            match l.next_token() {
                Ok(_) => {},
                Err(e) => {
                    proof {
                        assert(false);
                    }
                    return Err(ParseError::Lex(e));
                },
            }
            break;
        }
        let t = match l.next_token() {
            Ok(t) => t,
            Err(e) => {
                return Err(ParseError::Lex(e));
            },
        };
        let ghost acc0 = block@;
        if t.kind == TokenKind::StringLiteral {
            block.commands.push(Command::PushStr(t.source));
            proof {
                assert(cmds_view(block.commands@) =~= acc0.commands.push(
                    CommandV::PushStr(t@.source),
                ));
            }
        } else if t.kind == TokenKind::Integer {
            match parse_i64(t.source.as_slice()) {
                Some(n) => {
                    block.commands.push(Command::PushInt(n));
                    proof {
                        assert(cmds_view(block.commands@) =~= acc0.commands.push(
                            CommandV::PushInt(n),
                        ));
                    }
                },
                None => {
                    return Err(ParseError::MalformedInteger(t.loc));
                },
            }
        } else if t.kind == TokenKind::Identifier || t.kind == TokenKind::Keyword {
            match word_of_b(t.source.as_slice()) {
                Word::Echo => {
                    block.commands.push(Command::Echo);
                    proof {
                        assert(cmds_view(block.commands@) =~= acc0.commands.push(CommandV::Echo));
                    }
                },
                Word::Shell => {
                    block.commands.push(Command::Shell);
                    proof {
                        assert(cmds_view(block.commands@) =~= acc0.commands.push(CommandV::Shell));
                    }
                },
                Word::ReadFile => {
                    block.commands.push(Command::ReadFile);
                    proof {
                        assert(cmds_view(block.commands@) =~= acc0.commands.push(
                            CommandV::ReadFile,
                        ));
                    }
                },
                Word::WriteFile => {
                    block.commands.push(Command::WriteFile);
                    proof {
                        assert(cmds_view(block.commands@) =~= acc0.commands.push(
                            CommandV::WriteFile,
                        ));
                    }
                },
                Word::Concat => {
                    block.commands.push(Command::Concat);
                    proof {
                        assert(cmds_view(block.commands@) =~= acc0.commands.push(CommandV::Concat));
                    }
                },
                Word::Not => {
                    block.commands.push(Command::Not);
                    proof {
                        assert(cmds_view(block.commands@) =~= acc0.commands.push(CommandV::Not));
                    }
                },
                Word::Dup => {
                    block.commands.push(Command::Dup);
                    proof {
                        assert(cmds_view(block.commands@) =~= acc0.commands.push(CommandV::Dup));
                    }
                },
                Word::Pop => {
                    block.commands.push(Command::Pop);
                    proof {
                        assert(cmds_view(block.commands@) =~= acc0.commands.push(CommandV::Pop));
                    }
                },
                Word::Swap => {
                    block.commands.push(Command::Swap);
                    proof {
                        assert(cmds_view(block.commands@) =~= acc0.commands.push(CommandV::Swap));
                    }
                },
                Word::Exit => {
                    block.commands.push(Command::Exit);
                    proof {
                        assert(cmds_view(block.commands@) =~= acc0.commands.push(CommandV::Exit));
                    }
                },
                Word::Debug => {
                    block.commands.push(Command::Debug);
                    proof {
                        assert(cmds_view(block.commands@) =~= acc0.commands.push(CommandV::Debug));
                    }
                },
                Word::If => {
                    let inner = parse_block(l, blocks)?;
                    let mut inner_deps = inner.deps;
                    let ghost inner_v = inner_deps@.map(|i: int, d: Vec<u8>| d@);
                    block.deps.append(&mut inner_deps);
                    block.commands.push(Command::If(inner.commands));
                    proof {
                        assert(block@.deps =~= acc0.deps + inner_v);
                        assert(cmds_view(block.commands@) =~= acc0.commands.push(
                            cmd_view(block.commands@.last()),
                        ));
                    }
                },
                Word::While => {
                    let inner = parse_block(l, blocks)?;
                    let mut inner_deps = inner.deps;
                    let ghost inner_v = inner_deps@.map(|i: int, d: Vec<u8>| d@);
                    block.deps.append(&mut inner_deps);
                    block.commands.push(Command::While(inner.commands));
                    proof {
                        assert(block@.deps =~= acc0.deps + inner_v);
                        assert(cmds_view(block.commands@) =~= acc0.commands.push(
                            cmd_view(block.commands@.last()),
                        ));
                    }
                },
                Word::Call => {
                    proof {
                        lemma_pl_next_progress(l@);
                    }
                    let id_token = expect_token(l, TokenKind::Identifier)?;
                    let name_copy = crate::value::bytes_clone(&id_token.source);
                    block.deps.push(name_copy);
                    block.commands.push(Command::Call(id_token.source));
                    proof {
                        assert(block@.deps =~= acc0.deps.push(id_token@.source));
                        assert(cmds_view(block.commands@) =~= acc0.commands.push(
                            CommandV::Call(id_token@.source),
                        ));
                    }
                },
                Word::Let => {
                    proof {
                        lemma_pl_next_progress(l@);
                    }
                    let id_token = expect_token(l, TokenKind::Identifier)?;
                    block.commands.push(Command::Store(id_token.source));
                    proof {
                        assert(cmds_view(block.commands@) =~= acc0.commands.push(
                            CommandV::Store(id_token@.source),
                        ));
                    }
                },
                Word::Other => {
                    block.commands.push(Command::LoadVar(t.source));
                    proof {
                        assert(cmds_view(block.commands@) =~= acc0.commands.push(
                            CommandV::LoadVar(t@.source),
                        ));
                    }
                },
            }
        } else if t.kind == TokenKind::MacroCall {
            match blocks.get(t.source.as_slice()) {
                Some(m) => {
                    let mut copied = clone_cmds(&m.commands);
                    let ghost copied_v = cmds_view(copied@);
                    block.commands.append(&mut copied);
                    proof {
                        assert(cmds_view(block.commands@) =~= acc0.commands + copied_v);
                    }
                },
                None => {
                    return Err(ParseError::UnknownMacro(t.source));
                },
            }
        } else {
            return Err(ParseError::UnexpectedInBlock { kind: t.kind, loc: t.loc });
        }
    }
    Ok(block)
}

/// Parse a whole source text into the block mapping. Redefining a directive
/// is an error; a macro reference resolves only against directives already
/// parsed (forward references fail).
#[verifier::rlimit(100)]
pub fn parse_file(source: &[u8]) -> (r: Result<Blocks, ParseError>)
    requires
        source@.len() <= MAX_SOURCE_LEN,
    ensures
        match r {
            Ok(bm) => spec_parse(source@) matches Ok(m) && bm@ == m,
            Err(e) => spec_parse(source@) matches Err(ev) && e@ == ev,
        },
{
    let ghost data = source@;
    let owned = vstd::slice::slice_to_vec(source);
    let mut l = PeekableLexer::new(owned);
    let mut blocks: Blocks = StrMap::new();
    proof {
        assert(l@ == init_state(data));
    }
    loop
        invariant_except_break
            spec_parse_file(init_state(data), Map::<Seq<u8>, BlockV>::empty()) == spec_parse_file(
                l@,
                blocks@,
            ),
        invariant
            l.wf(),
            pl_wf_at(l@),
            l@.data == data,
            data == source@,
        ensures
            spec_parse_file(init_state(data), Map::<Seq<u8>, BlockV>::empty()) matches Ok(m)
                && blocks@ == m,
        decreases pl_measure(l@),
    {
        let ghost st_head = l@;
        proof {
            lemma_pl_next_progress(l@);
        }
        let t = match l.next_token() {
            Ok(t) => t,
            Err(e) => {
                return Err(ParseError::Lex(e));
            },
        };
        if t.is_eof() {
            break;
        }
        if t.is_ident() {
            proof {
                lemma_spec_parse_block_measure(l@, blocks@);
            }
            let block = parse_block(&mut l, &blocks)?;
            if blocks.contains(t.source.as_slice()) {
                return Err(ParseError::Redefinition(t.source));
            }
            blocks.insert(t.source, block);
        } else {
            return Err(ParseError::UnexpectedTopLevel { kind: t.kind, loc: t.loc });
        }
    }
    Ok(blocks)
}

/// The names of all parsed directives, in the order they were defined.
pub fn list_directives(blocks: &Blocks) -> (r: Vec<Vec<u8>>)
    ensures
        r@.len() == blocks.entry_count(),
        forall|i: int| 0 <= i < r@.len() ==> r@[i]@ == blocks.key_at(i) && blocks@.contains_key(
            r@[i]@,
        ),
{
    let mut r: Vec<Vec<u8>> = Vec::new();
    let n = blocks.len();
    let mut i: usize = 0;
    while i < n
        invariant
            i <= n,
            n == blocks.entry_count(),
            r@.len() == i,
            forall|j: int| 0 <= j < i ==> r@[j]@ == blocks.key_at(j) && blocks@.contains_key(
                r@[j]@,
            ),
        decreases n - i,
    {
        proof {
            blocks.lemma_keys_in_dom(i as int);
        }
        r.push(crate::value::bytes_clone(blocks.key_vec_at(i)));
        i = i + 1;
    }
    r
}

} // verus!
