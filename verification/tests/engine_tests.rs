use proj::engine::{run_commands, HostReq, HostResp, RunOutcome};
use proj::parser::{list_directives, parse_file, Blocks, Command, ParseError};
use proj::resolve::{resolve_dependencies, ResolveError};
use proj::value::{RuntimeError, Stack, Value, ValueTag};

const FUEL: u64 = 1_000_000;

/// How a driven run ended, with everything that was printed along the way.
enum Ended {
    Done,
    Exited(i64),
    Resolve(ResolveError),
    Failed(RuntimeError),
}

/// Drive the engine: perform `Print` effects by recording them, answer reads
/// from `reads`, record writes, and answer shell commands from `shells`.
fn drive(
    blocks: &Blocks,
    entry: &[u8],
    mut reads: Vec<Result<Vec<u8>, Vec<u8>>>,
    mut shells: Vec<(Vec<u8>, bool)>,
) -> (Ended, Vec<Vec<u8>>, Vec<(Vec<u8>, Vec<u8>)>) {
    let mut resps: Vec<HostResp> = Vec::new();
    let mut printed: Vec<Vec<u8>> = Vec::new();
    let mut written: Vec<(Vec<u8>, Vec<u8>)> = Vec::new();
    loop {
        match run_commands(entry, blocks, &resps, FUEL) {
            RunOutcome::Done => return (Ended::Done, printed, written),
            RunOutcome::Exited(n) => return (Ended::Exited(n), printed, written),
            RunOutcome::ResolveFailed(e) => return (Ended::Resolve(e), printed, written),
            RunOutcome::Failed(e) => return (Ended::Failed(e), printed, written),
            RunOutcome::Need(q) => match q {
                HostReq::Print(line) => {
                    printed.push(line);
                    resps.push(HostResp::Ack);
                },
                HostReq::ShowStack(_) => {
                    resps.push(HostResp::Ack);
                },
                HostReq::ReadFile(_) => {
                    let r = reads.remove(0);
                    match r {
                        Ok(content) => resps.push(HostResp::ReadOk(content)),
                        Err(msg) => resps.push(HostResp::ReadErr(msg)),
                    }
                },
                HostReq::WriteFile { path, content } => {
                    written.push((path, content));
                    resps.push(HostResp::WriteOk);
                },
                HostReq::Shell(_) => {
                    let (output, ok) = shells.remove(0);
                    resps.push(HostResp::ShellDone { output, ok });
                },
            },
        }
    }
}

fn run_src(src: &[u8], entry: &[u8]) -> (Ended, Vec<Vec<u8>>, Vec<(Vec<u8>, Vec<u8>)>) {
    let blocks = parse_file(src).expect("parse error");
    drive(&blocks, entry, Vec::new(), Vec::new())
}

// End-to-end: `greet { "hello" echo }` prints exactly one line, `hello`.
#[test]
fn greet_prints_hello() {
    let (end, printed, _) = run_src(b"greet { \"hello\" echo }", b"greet");
    assert!(matches!(end, Ended::Done));
    assert_eq!(printed, vec![b"hello".to_vec()]);
}

// End-to-end: a `call` to a missing directive fails resolution, naming it,
// before anything runs.
#[test]
fn call_missing_fails_resolution() {
    let (end, printed, written) = run_src(b"main { call missing }", b"main");
    match end {
        Ended::Resolve(ResolveError::NotFound(n)) => assert_eq!(n, b"missing".to_vec()),
        _ => panic!("expected a not-found resolution failure"),
    }
    assert!(printed.is_empty());
    assert!(written.is_empty());
}

// `dup; pop; pop` on a one-element stack: the first pop succeeds, the second
// fails with an empty-stack error.
#[test]
fn dup_pop_pop_underflows() {
    let (end, _, _) = run_src(b"main { 1 dup pop pop pop }", b"main");
    assert!(matches!(end, Ended::Failed(RuntimeError::StackEmpty)));
    // with one less pop the run goes through
    let (end2, _, _) = run_src(b"main { 1 dup pop pop }", b"main");
    assert!(matches!(end2, Ended::Done));
}

// Pairwise concat left-associates: a b c concat concat == "abc".
#[test]
fn concat_left_associates() {
    let (end, printed, _) = run_src(b"main { \"a\" \"b\" \"c\" concat concat echo }", b"main");
    assert!(matches!(end, Ended::Done));
    assert_eq!(printed, vec![b"abc".to_vec()]);
}

// A while loop whose body pushes a false condition runs its body exactly
// once and stops on the first false condition.
#[test]
fn while_body_runs_once() {
    // Booleans only arise from `shell` (its success flag) or `not`, so the
    // loop conditions are driven by two shell results: true, then false.
    let blocks =
        parse_file(b"main { \"c\" shell swap pop while { \"x\" echo \"c\" shell swap pop } }").unwrap();
    let (end, printed, _) = drive(
        &blocks,
        b"main",
        Vec::new(),
        vec![
            (b"ok".to_vec(), true),    // first condition: true, so the body runs
            (b"done".to_vec(), false), // pushed by the body: false, so the loop stops
        ],
    );
    assert!(matches!(end, Ended::Done));
    assert_eq!(printed, vec![b"x".to_vec()]);
}

// Circular dependency fails naming a directive in the cycle; an acyclic
// chain resolves.
#[test]
fn cycles_fail_chains_resolve() {
    let blocks = parse_file(b"a { call b } b { call a }").unwrap();
    match resolve_dependencies(&blocks, b"a") {
        Err(ResolveError::Circular(n)) => {
            assert!(n == b"a".to_vec() || n == b"b".to_vec());
        },
        _ => panic!("expected a circular-dependency failure"),
    }
    let blocks2 = parse_file(b"a { call b } b { call c } c { \"x\" echo }").unwrap();
    assert!(resolve_dependencies(&blocks2, b"a").is_ok());
}

// A bare macro reference splices the full command list of the earlier
// directive, nested conditionals included; a forward reference fails.
#[test]
fn macro_splices_earlier_directive() {
    let src = b"helper { \"h\" echo if { \"deep\" echo } } main { @helper \"m\" echo }";
    let blocks = parse_file(src).unwrap();
    let helper = blocks.get(b"helper").unwrap();
    let main = blocks.get(b"main").unwrap();
    assert_eq!(main.commands.len(), helper.commands.len() + 2);
    assert_eq!(&main.commands[..helper.commands.len()], &helper.commands[..]);
    assert!(matches!(
        main.commands[2],
        Command::If(_)
    ));

    let fwd = parse_file(b"main { @later } later { pop }");
    assert!(matches!(fwd, Err(ParseError::UnknownMacro(_))));
}

#[test]
fn exit_ends_the_run() {
    let (end, printed, _) = run_src(b"main { 7 exit \"never\" echo }", b"main");
    assert!(matches!(end, Ended::Exited(7)));
    assert!(printed.is_empty());
}

#[test]
fn variables_store_and_load() {
    let (end, printed, _) = run_src(b"main { \"v\" let x x echo x echo }", b"main");
    assert!(matches!(end, Ended::Done));
    assert_eq!(printed, vec![b"v".to_vec(), b"v".to_vec()]);
}

#[test]
fn unbound_variable_fails() {
    let (end, _, _) = run_src(b"main { nosuch echo }", b"main");
    match end {
        Ended::Failed(RuntimeError::UnboundVariable(n)) => assert_eq!(n, b"nosuch".to_vec()),
        _ => panic!("expected an unbound-variable failure"),
    }
}

#[test]
fn echo_requires_a_string() {
    let (end, _, _) = run_src(b"main { 3 echo }", b"main");
    assert!(matches!(
        end,
        Ended::Failed(RuntimeError::TypeMismatch { expected: ValueTag::Str, found: ValueTag::Int })
    ));
}

#[test]
fn swap_swaps() {
    let (end, printed, _) = run_src(b"main { \"a\" \"b\" swap echo echo }", b"main");
    assert!(matches!(end, Ended::Done));
    // after swap the former second-from-top is on top
    assert_eq!(printed, vec![b"a".to_vec(), b"b".to_vec()]);
}

#[test]
fn if_runs_only_on_true() {
    // `not` turns a shell success flag into false, skipping the branch
    let blocks = parse_file(b"main { \"c\" shell swap pop not if { \"yes\" echo } }").unwrap();
    let (end, printed, _) = drive(&blocks, b"main", Vec::new(), vec![(b"o".to_vec(), true)]);
    assert!(matches!(end, Ended::Done));
    assert!(printed.is_empty());
}

#[test]
fn readfile_and_writefile_roundtrip() {
    let blocks = parse_file(b"main { \"in.txt\" readfile let c \"out.txt\" c writefile }")
        .unwrap();
    let (end, _, written) = drive(
        &blocks,
        b"main",
        vec![Ok(b"payload".to_vec())],
        Vec::new(),
    );
    assert!(matches!(end, Ended::Done));
    assert_eq!(written, vec![(b"out.txt".to_vec(), b"payload".to_vec())]);
}

#[test]
fn readfile_failure_is_runtime_error() {
    let blocks = parse_file(b"main { \"gone\" readfile }").unwrap();
    let (end, _, _) = drive(&blocks, b"main", vec![Err(b"no such file".to_vec())], Vec::new());
    match end {
        Ended::Failed(RuntimeError::IoError(m)) => assert_eq!(m, b"no such file".to_vec()),
        _ => panic!("expected an io failure"),
    }
}

#[test]
fn shell_pushes_output_and_flag() {
    let blocks = parse_file(b"main { \"ls\" shell pop echo }").unwrap();
    let (end, printed, _) = drive(&blocks, b"main", Vec::new(), vec![(b"files".to_vec(), true)]);
    assert!(matches!(end, Ended::Done));
    assert_eq!(printed, vec![b"files".to_vec()]);
}

#[test]
fn call_shares_the_environment() {
    let src = b"push_it { \"shared\" let s } main { call push_it s echo }";
    let (end, printed, _) = run_src(src, b"main");
    assert!(matches!(end, Ended::Done));
    assert_eq!(printed, vec![b"shared".to_vec()]);
}

#[test]
fn entry_not_found_is_runtime_failure() {
    let blocks = parse_file(b"a { pop }").unwrap();
    let (end, _, _) = drive(&blocks, b"zzz", Vec::new(), Vec::new());
    match end {
        Ended::Failed(RuntimeError::CallTargetNotFound(n)) => assert_eq!(n, b"zzz".to_vec()),
        _ => panic!("expected a not-found failure"),
    }
}

#[test]
fn step_limit_stops_runaway_loops() {
    // the body re-pushes a true flag every iteration, so only fuel stops it
    let blocks = parse_file(b"main { \"c\" shell swap pop while { \"c\" shell swap pop } }").unwrap();
    let mut resps: Vec<HostResp> = Vec::new();
    // answer every shell request with success=true, driving an endless loop
    for _ in 0..200 {
        match run_commands(b"main", &blocks, &resps, 64) {
            RunOutcome::Need(HostReq::Shell(_)) => {
                resps.push(HostResp::ShellDone { output: Vec::new(), ok: true });
            },
            RunOutcome::Failed(RuntimeError::StepLimitExceeded) => return,
            other => panic!("unexpected outcome {:?}", other),
        }
    }
    panic!("loop never hit the step limit");
}

#[test]
fn parse_rejects_redefinition() {
    assert!(matches!(
        parse_file(b"a { pop } a { pop }"),
        Err(ParseError::Redefinition(_))
    ));
}

#[test]
fn parse_rejects_unexpected_top_level() {
    assert!(matches!(
        parse_file(b"{ pop }"),
        Err(ParseError::UnexpectedTopLevel { .. })
    ));
}

#[test]
fn parse_rejects_huge_integers() {
    assert!(matches!(
        parse_file(b"a { 99999999999999999999999999 }"),
        Err(ParseError::MalformedInteger(_))
    ));
    let blocks = parse_file(b"a { 9223372036854775807 }").unwrap();
    assert_eq!(blocks.get(b"a").unwrap().commands[0], Command::PushInt(i64::MAX));
}

#[test]
fn nested_dependencies_bubble_up() {
    let src = b"x { pop } main { if { call x } while { call x } }";
    let blocks = parse_file(src).unwrap();
    let main = blocks.get(b"main").unwrap();
    assert_eq!(main.deps, vec![b"x".to_vec(), b"x".to_vec()]);
}

#[test]
fn list_directives_in_order() {
    let blocks = parse_file(b"one { pop } two { pop } three { pop }").unwrap();
    let names = list_directives(&blocks);
    assert_eq!(names, vec![b"one".to_vec(), b"two".to_vec(), b"three".to_vec()]);
}

#[test]
fn value_kind_names() {
    assert_eq!(Value::Nil.kind_name(), "Nil");
    assert_eq!(Value::Str(Vec::new()).kind_name(), "Str");
    assert_eq!(Value::Int(0).kind_name(), "Int");
    assert_eq!(Value::Bool(true).kind_name(), "Bool");
}

#[test]
fn stack_push_top_pop() {
    let mut s = Stack::new();
    assert!(s.top().is_none());
    assert!(matches!(s.pop(), Err(RuntimeError::StackEmpty)));
    s.push(Value::Int(1));
    s.push(Value::Int(2));
    assert_eq!(s.top(), Some(&Value::Int(2)));
    assert_eq!(s.pop().unwrap(), Value::Int(2));
    assert_eq!(s.pop().unwrap(), Value::Int(1));
    assert!(matches!(s.pop(), Err(RuntimeError::StackEmpty)));
}

#[test]
fn debug_dumps_the_stack() {
    let blocks = parse_file(b"main { 1 \"s\" debug pop pop }").unwrap();
    let mut resps: Vec<HostResp> = Vec::new();
    loop {
        match run_commands(b"main", &blocks, &resps, FUEL) {
            RunOutcome::Need(HostReq::ShowStack(vs)) => {
                assert_eq!(vs, vec![Value::Int(1), Value::Str(b"s".to_vec())]);
                resps.push(HostResp::Ack);
            },
            RunOutcome::Done => break,
            other => panic!("unexpected outcome {:?}", other),
        }
    }
}

#[test]
fn macro_with_args_is_rejected_in_blocks() {
    // parenthesized macro argument text is captured by the tokenizer but the
    // parser accepts only bare macro references
    assert!(matches!(
        parse_file(b"helper { pop } main { @helper(x) pop }"),
        Err(ParseError::UnexpectedInBlock { .. })
    ));
}

#[test]
fn operators_are_rejected_in_blocks() {
    assert!(matches!(
        parse_file(b"main { -> }"),
        Err(ParseError::UnexpectedInBlock { .. })
    ));
}

#[test]
fn call_requires_an_identifier() {
    match parse_file(b"main { call 1 }") {
        Err(ParseError::Expected { expected, found_text, .. }) => {
            assert_eq!(expected, proj::token::TokenKind::Identifier);
            assert_eq!(found_text, b"1".to_vec());
        },
        _ => panic!("expected an expected-token parse error"),
    }
}

#[test]
fn bare_words_fall_back_to_variable_loads() {
    // any unrecognized bare word, even a lexical keyword, parses as a
    // variable load; unbound at run time it fails there, not at parse time
    let blocks = parse_file(b"main { fn }").unwrap();
    assert_eq!(
        blocks.get(b"main").unwrap().commands[0],
        Command::LoadVar(b"fn".to_vec())
    );
    let (end, _, _) = drive(&blocks, b"main", Vec::new(), Vec::new());
    assert!(matches!(end, Ended::Failed(RuntimeError::UnboundVariable(_))));
}
