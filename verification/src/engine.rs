use vstd::prelude::*;
use crate::parser::{Blocks, BlockV, Command, CommandV, cmds_view};
use crate::resolve::{ResolveError, ResolveErrV, on_cycle, resolve_dependencies, resolvable};
use crate::value::{
    RtErrV, RuntimeError, Stack, StrMap, Value, ValueTag, ValueV, bytes_clone, tag_of,
};

verus! {

// ---------------------------------------------------------------------------
// Effects and their results
// ---------------------------------------------------------------------------

/// A side effect the engine asks its host to perform. The engine itself never
/// touches the outside world: it hands one of these out and is re-run with
/// the host's answer appended to the response list.
#[derive(Debug, PartialEq)]
pub enum HostReq {
    /// Print one line of text.
    Print(Vec<u8>),
    /// Show the whole stack (diagnostics only).
    ShowStack(Vec<Value>),
    /// Read the file at the path.
    ReadFile(Vec<u8>),
    /// Write the content to the path.
    WriteFile { path: Vec<u8>, content: Vec<u8> },
    /// Run the command line through a shell.
    Shell(Vec<u8>),
}

/// Mathematical model of a `HostReq`.
pub enum HostReqV {
    Print(Seq<u8>),
    ShowStack(Seq<ValueV>),
    ReadFile(Seq<u8>),
    WriteFile { path: Seq<u8>, content: Seq<u8> },
    Shell(Seq<u8>),
}

impl View for HostReq {
    type V = HostReqV;

    open spec fn view(&self) -> HostReqV {
        match self {
            HostReq::Print(s) => HostReqV::Print(s@),
            HostReq::ShowStack(vs) => HostReqV::ShowStack(vs@.map(|i: int, v: Value| v@)),
            HostReq::ReadFile(p) => HostReqV::ReadFile(p@),
            HostReq::WriteFile { path, content } => HostReqV::WriteFile {
                path: path@,
                content: content@,
            },
            HostReq::Shell(c) => HostReqV::Shell(c@),
        }
    }
}

/// The host's answer to one effect, in the order the effects were requested.
#[derive(Debug, PartialEq)]
pub enum HostResp {
    /// A print or stack dump happened.
    Ack,
    /// The file was read, with its contents.
    ReadOk(Vec<u8>),
    /// The file could not be read; carries the host's message.
    ReadErr(Vec<u8>),
    /// The file was written.
    WriteOk,
    /// The file could not be written; carries the host's message.
    WriteErr(Vec<u8>),
    /// The shell ran to completion with trimmed output and a success flag.
    ShellDone { output: Vec<u8>, ok: bool },
    /// The shell could not be launched at all; carries the host's message.
    ShellLaunchErr(Vec<u8>),
}

/// Mathematical model of a `HostResp`.
pub enum HostRespV {
    Ack,
    ReadOk(Seq<u8>),
    ReadErr(Seq<u8>),
    WriteOk,
    WriteErr(Seq<u8>),
    ShellDone { output: Seq<u8>, ok: bool },
    ShellLaunchErr(Seq<u8>),
}

impl View for HostResp {
    type V = HostRespV;

    open spec fn view(&self) -> HostRespV {
        match self {
            HostResp::Ack => HostRespV::Ack,
            HostResp::ReadOk(c) => HostRespV::ReadOk(c@),
            HostResp::ReadErr(m) => HostRespV::ReadErr(m@),
            HostResp::WriteOk => HostRespV::WriteOk,
            HostResp::WriteErr(m) => HostRespV::WriteErr(m@),
            HostResp::ShellDone { output, ok } => HostRespV::ShellDone {
                output: output@,
                ok: *ok,
            },
            HostResp::ShellLaunchErr(m) => HostRespV::ShellLaunchErr(m@),
        }
    }
}

/// The models of a response list.
pub open spec fn resps_of(s: Seq<HostResp>) -> Seq<HostRespV> {
    s.map(|i: int, r: HostResp| r@)
}

// ---------------------------------------------------------------------------
// The environment
// ---------------------------------------------------------------------------

/// The one shared runtime state of a run: the value stack and the variable
/// table. Conditionals, loops and called directives all work on this same
/// environment; there is no call-frame isolation.
#[derive(Debug)]
pub struct ExecutionEnv {
    pub stack: Stack,
    pub vars: StrMap<Value>,
}

/// Mathematical model of an `ExecutionEnv`.
pub struct EnvV {
    pub stack: Seq<ValueV>,
    pub vars: Map<Seq<u8>, ValueV>,
}

impl View for ExecutionEnv {
    type V = EnvV;

    open spec fn view(&self) -> EnvV {
        EnvV { stack: self.stack@, vars: self.vars@ }
    }
}

/// The empty environment a run starts from.
pub open spec fn empty_env() -> EnvV {
    EnvV { stack: Seq::empty(), vars: Map::empty() }
}

impl ExecutionEnv {
    pub fn new() -> (r: ExecutionEnv)
        ensures
            r@ == empty_env(),
    {
        let r = ExecutionEnv { stack: Stack::new(), vars: StrMap::new() };
        r
    }
}

// ---------------------------------------------------------------------------
// Control
// ---------------------------------------------------------------------------

/// How one command (or command list) left the engine.
#[derive(Debug)]
pub enum Control {
    /// Execution went through; `resp` is the next unused response index.
    Done { resp: usize },
    /// The engine needs the host to perform this effect and be re-run with
    /// the answer appended.
    Request(HostReq),
    /// The `exit` command ended the run with this code.
    Exited(i64),
    /// A runtime failure.
    Failed(RuntimeError),
}

/// Mathematical model of a `Control`.
pub enum CtlV {
    Done { resp: int },
    Request(HostReqV),
    Exited(i64),
    Failed(RtErrV),
}

impl View for Control {
    type V = CtlV;

    open spec fn view(&self) -> CtlV {
        match self {
            Control::Done { resp } => CtlV::Done { resp: *resp as int },
            Control::Request(q) => CtlV::Request(q@),
            Control::Exited(n) => CtlV::Exited(*n),
            Control::Failed(e) => CtlV::Failed(e@),
        }
    }
}

/// The environment and control after a step of the interpreter.
pub struct StepV {
    pub env: EnvV,
    pub ctl: CtlV,
}

// ---------------------------------------------------------------------------
// The interpreter, as mathematics
// ---------------------------------------------------------------------------

/// Shorthand for a successful step.
pub open spec fn step_done(env: EnvV, k: int) -> StepV {
    StepV { env, ctl: CtlV::Done { resp: k } }
}

/// Shorthand for a failing step.
pub open spec fn step_fail(env: EnvV, e: RtErrV) -> StepV {
    StepV { env, ctl: CtlV::Failed(e) }
}

/// Pop a value of the required tag; all stack-emptiness and type mismatches
/// are runtime failures, never coercions.
pub open spec fn spec_pop(env: EnvV, want: ValueTag) -> Result<(ValueV, EnvV), StepV> {
    if env.stack.len() == 0 {
        Err(step_fail(env, RtErrV::StackEmpty))
    } else {
        let v = env.stack.last();
        let env2 = EnvV { stack: env.stack.drop_last(), vars: env.vars };
        if tag_of(v) != want {
            Err(step_fail(env2, RtErrV::TypeMismatch { expected: want, found: tag_of(v) }))
        } else {
            Ok((v, env2))
        }
    }
}

/// What one command does to the environment, given the host's answers so far
/// (`resps`, with `k` the next unused index) and the remaining nesting and
/// iteration budget `fuel`.
pub open spec fn spec_run_cmd(
    c: CommandV,
    env: EnvV,
    blocks: Map<Seq<u8>, BlockV>,
    resps: Seq<HostRespV>,
    k: int,
    fuel: nat,
) -> StepV
    decreases fuel, 0int,
{
    if fuel == 0 {
        step_fail(env, RtErrV::StepLimitExceeded)
    } else {
        match c {
            CommandV::PushStr(s) => step_done(
                EnvV { stack: env.stack.push(ValueV::Str(s)), vars: env.vars },
                k,
            ),
            CommandV::PushInt(n) => step_done(
                EnvV { stack: env.stack.push(ValueV::Int(n)), vars: env.vars },
                k,
            ),
            CommandV::Echo => match spec_pop(env, ValueTag::Str) {
                Err(s) => s,
                Ok((v, env2)) => {
                    let msg = v->Str_0;
                    if k < resps.len() {
                        if resps[k] is Ack {
                            step_done(env2, k + 1)
                        } else {
                            step_fail(env2, RtErrV::HostMismatch)
                        }
                    } else {
                        StepV { env: env2, ctl: CtlV::Request(HostReqV::Print(msg)) }
                    }
                },
            },
            CommandV::Dup => {
                if env.stack.len() == 0 {
                    step_fail(env, RtErrV::StackEmpty)
                } else {
                    step_done(EnvV { stack: env.stack.push(env.stack.last()), vars: env.vars }, k)
                }
            },
            CommandV::Pop => match spec_pop_any(env) {
                Err(s) => s,
                Ok((v, env2)) => step_done(env2, k),
            },
            CommandV::Swap => match spec_pop_any(env) {
                Err(s) => s,
                Ok((a, env2)) => match spec_pop_any(env2) {
                    Err(s) => s,
                    Ok((b, env3)) => step_done(
                        EnvV { stack: env3.stack.push(a).push(b), vars: env3.vars },
                        k,
                    ),
                },
            },
            CommandV::Concat => match spec_pop(env, ValueTag::Str) {
                Err(s) => s,
                Ok((b, env2)) => match spec_pop(env2, ValueTag::Str) {
                    Err(s) => s,
                    Ok((a, env3)) => step_done(
                        EnvV {
                            stack: env3.stack.push(ValueV::Str(a->Str_0 + b->Str_0)),
                            vars: env3.vars,
                        },
                        k,
                    ),
                },
            },
            CommandV::Not => match spec_pop(env, ValueTag::Bool) {
                Err(s) => s,
                Ok((v, env2)) => step_done(
                    EnvV { stack: env2.stack.push(ValueV::Bool(!v->Bool_0)), vars: env2.vars },
                    k,
                ),
            },
            CommandV::ReadFile => match spec_pop(env, ValueTag::Str) {
                Err(s) => s,
                Ok((p, env2)) => {
                    if k < resps.len() {
                        match resps[k] {
                            HostRespV::ReadOk(content) => step_done(
                                EnvV {
                                    stack: env2.stack.push(ValueV::Str(content)),
                                    vars: env2.vars,
                                },
                                k + 1,
                            ),
                            HostRespV::ReadErr(m) => step_fail(env2, RtErrV::IoError(m)),
                            _ => step_fail(env2, RtErrV::HostMismatch),
                        }
                    } else {
                        StepV { env: env2, ctl: CtlV::Request(HostReqV::ReadFile(p->Str_0)) }
                    }
                },
            },
            CommandV::WriteFile => match spec_pop(env, ValueTag::Str) {
                Err(s) => s,
                Ok((content, env2)) => match spec_pop(env2, ValueTag::Str) {
                    Err(s) => s,
                    Ok((path, env3)) => {
                        if k < resps.len() {
                            match resps[k] {
                                HostRespV::WriteOk => step_done(env3, k + 1),
                                HostRespV::WriteErr(m) => step_fail(env3, RtErrV::IoError(m)),
                                _ => step_fail(env3, RtErrV::HostMismatch),
                            }
                        } else {
                            StepV {
                                env: env3,
                                ctl: CtlV::Request(
                                    HostReqV::WriteFile {
                                        path: path->Str_0,
                                        content: content->Str_0,
                                    },
                                ),
                            }
                        }
                    },
                },
            },
            CommandV::Exit => match spec_pop(env, ValueTag::Int) {
                Err(s) => s,
                Ok((v, env2)) => StepV { env: env2, ctl: CtlV::Exited(v->Int_0) },
            },
            CommandV::Debug => {
                if k < resps.len() {
                    if resps[k] is Ack {
                        step_done(env, k + 1)
                    } else {
                        step_fail(env, RtErrV::HostMismatch)
                    }
                } else {
                    StepV { env, ctl: CtlV::Request(HostReqV::ShowStack(env.stack)) }
                }
            },
            CommandV::If(body) => match spec_pop(env, ValueTag::Bool) {
                Err(s) => s,
                Ok((v, env2)) => {
                    if v->Bool_0 {
                        spec_run_cmds(body, 0, env2, blocks, resps, k, (fuel - 1) as nat)
                    } else {
                        step_done(env2, k)
                    }
                },
            },
            CommandV::While(body) => match spec_pop(env, ValueTag::Bool) {
                Err(s) => s,
                Ok((v, env2)) => {
                    if v->Bool_0 {
                        let r = spec_run_cmds(body, 0, env2, blocks, resps, k, (fuel - 1) as nat);
                        match r.ctl {
                            CtlV::Done { resp } => spec_run_cmd(
                                c,
                                r.env,
                                blocks,
                                resps,
                                resp,
                                (fuel - 1) as nat,
                            ),
                            _ => r,
                        }
                    } else {
                        step_done(env2, k)
                    }
                },
            },
            CommandV::Call(name) => {
                if blocks.contains_key(name) {
                    spec_run_cmds(blocks[name].commands, 0, env, blocks, resps, k, (fuel - 1) as nat)
                } else {
                    step_fail(env, RtErrV::CallTargetNotFound(name))
                }
            },
            CommandV::Store(name) => match spec_pop_any(env) {
                Err(s) => s,
                Ok((v, env2)) => step_done(
                    EnvV { stack: env2.stack, vars: env2.vars.insert(name, v) },
                    k,
                ),
            },
            CommandV::LoadVar(name) => {
                if env.vars.contains_key(name) {
                    step_done(EnvV { stack: env.stack.push(env.vars[name]), vars: env.vars }, k)
                } else {
                    step_fail(env, RtErrV::UnboundVariable(name))
                }
            },
            CommandV::Shell => match spec_pop(env, ValueTag::Str) {
                Err(s) => s,
                Ok((cmdline, env2)) => {
                    if k < resps.len() {
                        match resps[k] {
                            HostRespV::ShellDone { output, ok } => step_done(
                                EnvV {
                                    stack: env2.stack.push(ValueV::Str(output)).push(
                                        ValueV::Bool(ok),
                                    ),
                                    vars: env2.vars,
                                },
                                k + 1,
                            ),
                            HostRespV::ShellLaunchErr(m) => step_fail(
                                env2,
                                RtErrV::ShellLaunchFailed(m),
                            ),
                            _ => step_fail(env2, RtErrV::HostMismatch),
                        }
                    } else {
                        StepV { env: env2, ctl: CtlV::Request(HostReqV::Shell(cmdline->Str_0)) }
                    }
                },
            },
        }
    }
}

/// Pop a value of any type.
pub open spec fn spec_pop_any(env: EnvV) -> Result<(ValueV, EnvV), StepV> {
    if env.stack.len() == 0 {
        Err(step_fail(env, RtErrV::StackEmpty))
    } else {
        Ok((env.stack.last(), EnvV { stack: env.stack.drop_last(), vars: env.vars }))
    }
}

/// Run the commands `cmds[i..]` in order, stopping at the first step that
/// does not go through.
pub open spec fn spec_run_cmds(
    cmds: Seq<CommandV>,
    i: int,
    env: EnvV,
    blocks: Map<Seq<u8>, BlockV>,
    resps: Seq<HostRespV>,
    k: int,
    fuel: nat,
) -> StepV
    decreases fuel, cmds.len() - i + 1,
{
    if i < 0 || i >= cmds.len() {
        step_done(env, k)
    } else {
        let r = spec_run_cmd(cmds[i], env, blocks, resps, k, fuel);
        match r.ctl {
            CtlV::Done { resp } => spec_run_cmds(cmds, i + 1, r.env, blocks, resps, resp, fuel),
            _ => r,
        }
    }
}

// ---------------------------------------------------------------------------
// The executable interpreter
// ---------------------------------------------------------------------------

/// Pop a value, requiring a tag.
fn pop_want(env: &mut ExecutionEnv, want: ValueTag) -> (r: Result<Value, RuntimeError>)
    ensures
        match r {
            Ok(v) => spec_pop(old(env)@, want) matches Ok((vv, e2)) && v@ == vv && final(env)@
                == e2,
            Err(e) => spec_pop(old(env)@, want) matches Err(s) && s.ctl == CtlV::Failed(e@)
                && final(env)@ == s.env,
        },
{
    match env.stack.pop() {
        Err(e) => Err(e),
        Ok(v) => {
            let t = v.tag();
            if t != want {
                Err(RuntimeError::TypeMismatch { expected: want, found: t })
            } else {
                Ok(v)
            }
        },
    }
}

/// Pop a value of any type.
fn pop_any(env: &mut ExecutionEnv) -> (r: Result<Value, RuntimeError>)
    ensures
        match r {
            Ok(v) => spec_pop_any(old(env)@) matches Ok((vv, e2)) && v@ == vv && final(env)@ == e2,
            Err(e) => spec_pop_any(old(env)@) matches Err(s) && s.ctl == CtlV::Failed(e@)
                && final(env)@ == s.env,
        },
{
    env.stack.pop()
}

/// Execute one command against the shared environment. The result and the
/// environment left behind are exactly those of `spec_run_cmd` on the state
/// the call started from.
#[verifier::rlimit(100)]
pub fn run_cmd(
    cmd: &Command,
    env: &mut ExecutionEnv,
    blocks: &Blocks,
    resps: &Vec<HostResp>,
    k: usize,
    fuel: u64,
) -> (r: Control)
    requires
        k <= resps@.len(),
    ensures
        ({
            let s = spec_run_cmd(cmd@, old(env)@, blocks@, resps_of(resps@), k as int, fuel as nat);
            &&& final(env)@ == s.env
            &&& r@ == s.ctl
            &&& (r matches Control::Done { resp } ==> k <= resp <= resps@.len())
        }),
    decreases fuel, 0int,
{
    if fuel == 0 {
        return Control::Failed(RuntimeError::StepLimitExceeded);
    }
    match cmd {
        Command::PushStr(s) => {
            env.stack.push(Value::Str(bytes_clone(s)));
            Control::Done { resp: k }
        },
        Command::PushInt(n) => {
            env.stack.push(Value::Int(*n));
            Control::Done { resp: k }
        },
        Command::Echo => {
            match pop_want(env, ValueTag::Str) {
                Err(e) => Control::Failed(e),
                Ok(v) => {
                    let msg = match v {
                        Value::Str(s) => s,
                        _ => {
                            proof {
                                assert(false);
                            }
                            Vec::new()
                        },
                    };
                    if k < resps.len() {
                        match &resps[k] {
                            HostResp::Ack => Control::Done { resp: k + 1 },
                            _ => Control::Failed(RuntimeError::HostMismatch),
                        }
                    } else {
                        Control::Request(HostReq::Print(msg))
                    }
                },
            }
        },
        Command::Dup => match env.stack.top() {
            None => Control::Failed(RuntimeError::StackEmpty),
            Some(v) => {
                let copy = v.duplicate();
                env.stack.push(copy);
                Control::Done { resp: k }
            },
        },
        Command::Pop => match pop_any(env) {
            Err(e) => Control::Failed(e),
            Ok(_) => Control::Done { resp: k },
        },
        Command::Swap => match pop_any(env) {
            Err(e) => Control::Failed(e),
            Ok(a) => match pop_any(env) {
                Err(e) => Control::Failed(e),
                Ok(b) => {
                    env.stack.push(a);
                    env.stack.push(b);
                    Control::Done { resp: k }
                },
            },
        },
        Command::Concat => match pop_want(env, ValueTag::Str) {
            Err(e) => Control::Failed(e),
            Ok(b) => match pop_want(env, ValueTag::Str) {
                Err(e) => Control::Failed(e),
                Ok(a) => {
                    let (a_bytes, b_bytes) = match (a, b) {
                        (Value::Str(x), Value::Str(y)) => (x, y),
                        _ => {
                            proof {
                                assert(false);
                            }
                            (Vec::new(), Vec::new())
                        },
                    };
                    let mut joined = a_bytes;
                    let mut b_bytes = b_bytes;
                    joined.append(&mut b_bytes);
                    env.stack.push(Value::Str(joined));
                    Control::Done { resp: k }
                },
            },
        },
        Command::Not => match pop_want(env, ValueTag::Bool) {
            Err(e) => Control::Failed(e),
            Ok(v) => {
                let b = match v {
                    Value::Bool(b) => b,
                    _ => {
                        proof {
                            assert(false);
                        }
                        false
                    },
                };
                env.stack.push(Value::Bool(!b));
                Control::Done { resp: k }
            },
        },
        Command::ReadFile => match pop_want(env, ValueTag::Str) {
            Err(e) => Control::Failed(e),
            Ok(p) => {
                let path = match p {
                    Value::Str(s) => s,
                    _ => {
                        proof {
                            assert(false);
                        }
                        Vec::new()
                    },
                };
                if k < resps.len() {
                    match &resps[k] {
                        HostResp::ReadOk(content) => {
                            env.stack.push(Value::Str(bytes_clone(content)));
                            Control::Done { resp: k + 1 }
                        },
                        HostResp::ReadErr(m) => Control::Failed(
                            RuntimeError::IoError(bytes_clone(m)),
                        ),
                        _ => Control::Failed(RuntimeError::HostMismatch),
                    }
                } else {
                    Control::Request(HostReq::ReadFile(path))
                }
            },
        },
        Command::WriteFile => match pop_want(env, ValueTag::Str) {
            Err(e) => Control::Failed(e),
            Ok(c) => match pop_want(env, ValueTag::Str) {
                Err(e) => Control::Failed(e),
                Ok(p) => {
                    let (path, content) = match (p, c) {
                        (Value::Str(x), Value::Str(y)) => (x, y),
                        _ => {
                            proof {
                                assert(false);
                            }
                            (Vec::new(), Vec::new())
                        },
                    };
                    if k < resps.len() {
                        match &resps[k] {
                            HostResp::WriteOk => Control::Done { resp: k + 1 },
                            HostResp::WriteErr(m) => Control::Failed(
                                RuntimeError::IoError(bytes_clone(m)),
                            ),
                            _ => Control::Failed(RuntimeError::HostMismatch),
                        }
                    } else {
                        Control::Request(HostReq::WriteFile { path, content })
                    }
                },
            },
        },
        Command::Exit => match pop_want(env, ValueTag::Int) {
            Err(e) => Control::Failed(e),
            Ok(v) => {
                let n = match v {
                    Value::Int(n) => n,
                    _ => {
                        proof {
                            assert(false);
                        }
                        0
                    },
                };
                Control::Exited(n)
            },
        },
        Command::Debug => {
            if k < resps.len() {
                match &resps[k] {
                    HostResp::Ack => Control::Done { resp: k + 1 },
                    _ => Control::Failed(RuntimeError::HostMismatch),
                }
            } else {
                Control::Request(HostReq::ShowStack(env.stack.snapshot()))
            }
        },
        Command::If(body) => match pop_want(env, ValueTag::Bool) {
            Err(e) => Control::Failed(e),
            Ok(v) => {
                let b = match v {
                    Value::Bool(b) => b,
                    _ => {
                        proof {
                            assert(false);
                        }
                        false
                    },
                };
                if b {
                    run_cmds(body, env, blocks, resps, k, fuel - 1)
                } else {
                    Control::Done { resp: k }
                }
            },
        },
        Command::While(body) => match pop_want(env, ValueTag::Bool) {
            Err(e) => Control::Failed(e),
            Ok(v) => {
                let b = match v {
                    Value::Bool(b) => b,
                    _ => {
                        proof {
                            assert(false);
                        }
                        false
                    },
                };
                if b {
                    let r = run_cmds(body, env, blocks, resps, k, fuel - 1);
                    match r {
                        Control::Done { resp } => run_cmd(cmd, env, blocks, resps, resp, fuel - 1),
                        other => other,
                    }
                } else {
                    Control::Done { resp: k }
                }
            },
        },
        Command::Call(name) => match blocks.get(name.as_slice()) {
            Some(b) => run_cmds(&b.commands, env, blocks, resps, k, fuel - 1),
            None => Control::Failed(RuntimeError::CallTargetNotFound(bytes_clone(name))),
        },
        Command::Store(name) => match pop_any(env) {
            Err(e) => Control::Failed(e),
            Ok(v) => {
                env.vars.insert(bytes_clone(name), v);
                Control::Done { resp: k }
            },
        },
        Command::LoadVar(name) => match env.vars.get(name.as_slice()) {
            Some(v) => {
                let copy = v.duplicate();
                env.stack.push(copy);
                Control::Done { resp: k }
            },
            None => Control::Failed(RuntimeError::UnboundVariable(bytes_clone(name))),
        },
        Command::Shell => match pop_want(env, ValueTag::Str) {
            Err(e) => Control::Failed(e),
            Ok(v) => {
                let cmdline = match v {
                    Value::Str(s) => s,
                    _ => {
                        proof {
                            assert(false);
                        }
                        Vec::new()
                    },
                };
                if k < resps.len() {
                    match &resps[k] {
                        HostResp::ShellDone { output, ok } => {
                            env.stack.push(Value::Str(bytes_clone(output)));
                            env.stack.push(Value::Bool(*ok));
                            Control::Done { resp: k + 1 }
                        },
                        HostResp::ShellLaunchErr(m) => Control::Failed(
                            RuntimeError::ShellLaunchFailed(bytes_clone(m)),
                        ),
                        _ => Control::Failed(RuntimeError::HostMismatch),
                    }
                } else {
                    Control::Request(HostReq::Shell(cmdline))
                }
            },
        },
    }
}

/// Execute a command list in order against the shared environment.
#[verifier::rlimit(100)]
pub fn run_cmds(
    cmds: &Vec<Command>,
    env: &mut ExecutionEnv,
    blocks: &Blocks,
    resps: &Vec<HostResp>,
    k: usize,
    fuel: u64,
) -> (r: Control)
    requires
        k <= resps@.len(),
    ensures
        ({
            let s = spec_run_cmds(
                cmds_view(cmds@),
                0,
                old(env)@,
                blocks@,
                resps_of(resps@),
                k as int,
                fuel as nat,
            );
            &&& final(env)@ == s.env
            &&& r@ == s.ctl
            &&& (r matches Control::Done { resp } ==> k <= resp <= resps@.len())
        }),
    decreases fuel, 1int,
{
    let ghost cv = cmds_view(cmds@);
    let ghost env0 = env@;
    let mut i: usize = 0;
    let mut cur: usize = k;
    loop
        invariant_except_break
            i <= cmds@.len(),
            k <= cur <= resps@.len(),
            spec_run_cmds(cv, 0, env0, blocks@, resps_of(resps@), k as int, fuel as nat)
                == spec_run_cmds(
                cv,
                i as int,
                env@,
                blocks@,
                resps_of(resps@),
                cur as int,
                fuel as nat,
            ),
        invariant
            cv == cmds_view(cmds@),
            env0 == old(env)@,
            k <= resps@.len(),
        ensures
            ({
                let s = spec_run_cmds(
                    cv,
                    0,
                    env0,
                    blocks@,
                    resps_of(resps@),
                    k as int,
                    fuel as nat,
                );
                &&& env@ == s.env
                &&& s.ctl == CtlV::Done { resp: cur as int }
                &&& k <= cur <= resps@.len()
            }),
        decreases cmds@.len() - i,
    {
        if i >= cmds.len() {
            break;
        }
        let r = run_cmd(&cmds[i], env, blocks, resps, cur, fuel);
        match r {
            Control::Done { resp } => {
                cur = resp;
            },
            other => {
                return other;
            },
        }
        i = i + 1;
    }
    Control::Done { resp: cur }
}

// ---------------------------------------------------------------------------
// Running a directive
// ---------------------------------------------------------------------------

/// How a whole run ended.
#[derive(Debug)]
pub enum RunOutcome {
    /// The entry directive ran to completion.
    Done,
    /// The engine needs the host to perform this effect; append the answer to
    /// the response list and run again.
    Need(HostReq),
    /// The `exit` command ended the run with this code.
    Exited(i64),
    /// Dependency resolution failed before anything ran.
    ResolveFailed(ResolveError),
    /// A runtime failure.
    Failed(RuntimeError),
}

/// Mathematical model of a `RunOutcome`.
pub enum RunOutV {
    Done,
    Need(HostReqV),
    Exited(i64),
    ResolveFailed(ResolveErrV),
    Failed(RtErrV),
}

impl View for RunOutcome {
    type V = RunOutV;

    open spec fn view(&self) -> RunOutV {
        match self {
            RunOutcome::Done => RunOutV::Done,
            RunOutcome::Need(q) => RunOutV::Need(q@),
            RunOutcome::Exited(n) => RunOutV::Exited(*n),
            RunOutcome::ResolveFailed(e) => RunOutV::ResolveFailed(e@),
            RunOutcome::Failed(e) => RunOutV::Failed(e@),
        }
    }
}

/// The outcome a finished engine step stands for.
pub open spec fn outcome_of(s: StepV) -> RunOutV {
    match s.ctl {
        CtlV::Done { resp } => RunOutV::Done,
        CtlV::Request(q) => RunOutV::Need(q),
        CtlV::Exited(n) => RunOutV::Exited(n),
        CtlV::Failed(e) => RunOutV::Failed(e),
    }
}

/// What running the entry directive yields when resolution passes: the
/// interpreter on its command list, from an empty environment.
pub open spec fn spec_run(
    entry: Seq<u8>,
    blocks: Map<Seq<u8>, BlockV>,
    resps: Seq<HostRespV>,
    fuel: nat,
) -> RunOutV {
    outcome_of(spec_run_cmds(blocks[entry].commands, 0, empty_env(), blocks, resps, 0, fuel))
}

/// Run one directive: look it up, check its dependencies (every `call` target
/// reachable from it must exist, with no cycle), then execute its commands in
/// a fresh environment. The engine is deterministic in the response list: a
/// run that ends in `Need` is re-run from scratch with one more response.
pub fn run_commands(
    entry: &[u8],
    blocks: &Blocks,
    resps: &Vec<HostResp>,
    fuel: u64,
) -> (r: RunOutcome)
    ensures
        !blocks@.contains_key(entry@) ==> r@ == RunOutV::Failed(
            RtErrV::CallTargetNotFound(entry@),
        ),
        blocks@.contains_key(entry@) ==> ((r@ is ResolveFailed) <==> !resolvable(
            blocks@,
            entry@,
        )),
        r@ matches RunOutV::ResolveFailed(e) ==> {
            &&& blocks@.contains_key(entry@)
            &&& !resolvable(blocks@, entry@)
            &&& (e matches ResolveErrV::NotFound(n) ==> !blocks@.contains_key(n)
                && (exists|x: Seq<u8>|
                    blocks@.contains_key(x) && #[trigger] blocks@[x].deps.contains(n)))
            &&& (e matches ResolveErrV::Circular(n) ==> blocks@.contains_key(n) && on_cycle(
                blocks@,
                n,
            ))
        },
        !(r@ is ResolveFailed) && blocks@.contains_key(entry@) ==> resolvable(blocks@, entry@) && r@
            == spec_run(entry@, blocks@, resps_of(resps@), fuel as nat),
{
    match blocks.get(entry) {
        None => {
            return RunOutcome::Failed(
                RuntimeError::CallTargetNotFound(vstd::slice::slice_to_vec(entry)),
            );
        },
        Some(_) => {},
    }
    match resolve_dependencies(blocks, entry) {
        Err(e) => {
            return RunOutcome::ResolveFailed(e);
        },
        Ok(_) => {},
    }
    let b = match blocks.get(entry) {
        Some(b) => b,
        None => {
            proof {
                assert(false);
            }
            return RunOutcome::Failed(
                RuntimeError::CallTargetNotFound(vstd::slice::slice_to_vec(entry)),
            );
        },
    };
    let mut env = ExecutionEnv::new();
    let ctl = run_cmds(&b.commands, &mut env, blocks, resps, 0, fuel);
    match ctl {
        Control::Done { .. } => RunOutcome::Done,
        Control::Request(q) => RunOutcome::Need(q),
        Control::Exited(n) => RunOutcome::Exited(n),
        Control::Failed(e) => RunOutcome::Failed(e),
    }
}


// ---------------------------------------------------------------------------
// Laws of the engine
// ---------------------------------------------------------------------------

/// Concatenation left-associates on the stack: pushing three strings and
/// concatenating twice yields exactly the single string `a + b + c`, on any
/// environment, for any host answers, requesting no effect.
pub proof fn lemma_concat_left_assoc(
    env: EnvV,
    blocks: Map<Seq<u8>, BlockV>,
    resps: Seq<HostRespV>,
    k: int,
    fuel: nat,
    a: Seq<u8>,
    b: Seq<u8>,
    c: Seq<u8>,
)
    requires
        fuel >= 1,
    ensures
        spec_run_cmds(
            seq![
                CommandV::PushStr(a),
                CommandV::PushStr(b),
                CommandV::PushStr(c),
                CommandV::Concat,
                CommandV::Concat,
            ],
            0,
            env,
            blocks,
            resps,
            k,
            fuel,
        ) == step_done(
            EnvV { stack: env.stack.push(ValueV::Str(a + b + c)), vars: env.vars },
            k,
        ),
{
    reveal_with_fuel(spec_run_cmds, 7);
    let s0 = env.stack;
    let sa = s0.push(ValueV::Str(a));
    let sab = sa.push(ValueV::Str(b));
    let sabc = sab.push(ValueV::Str(c));
    assert(sabc.drop_last() =~= sab);
    assert(sab.drop_last() =~= sa);
    let sbc = sa.push(ValueV::Str(b + c));
    assert(sbc.drop_last() =~= sa);
    assert(sa.drop_last() =~= s0);
    assert(a + (b + c) =~= a + b + c);
}

/// A `while` whose popped condition is false does nothing but consume the
/// condition: the loop body never runs and no effect is requested.
pub proof fn lemma_while_false_stops(
    body: Seq<CommandV>,
    env: EnvV,
    blocks: Map<Seq<u8>, BlockV>,
    resps: Seq<HostRespV>,
    k: int,
    fuel: nat,
)
    requires
        fuel >= 1,
        env.stack.len() > 0,
        env.stack.last() == ValueV::Bool(false),
    ensures
        spec_run_cmd(CommandV::While(body), env, blocks, resps, k, fuel) == step_done(
            EnvV { stack: env.stack.drop_last(), vars: env.vars },
            k,
        ),
{
}

/// A `while` whose body leaves a false condition on top runs that body
/// exactly once: pop the true condition, run the body, pop the false
/// condition, stop.
pub proof fn lemma_while_body_runs_once(
    body: Seq<CommandV>,
    env: EnvV,
    env2: EnvV,
    blocks: Map<Seq<u8>, BlockV>,
    resps: Seq<HostRespV>,
    k: int,
    k2: int,
    fuel: nat,
)
    requires
        fuel >= 2,
        env.stack.len() > 0,
        env.stack.last() == ValueV::Bool(true),
        spec_run_cmds(
            body,
            0,
            EnvV { stack: env.stack.drop_last(), vars: env.vars },
            blocks,
            resps,
            k,
            (fuel - 1) as nat,
        ) == step_done(env2, k2),
        env2.stack.len() > 0,
        env2.stack.last() == ValueV::Bool(false),
    ensures
        spec_run_cmd(CommandV::While(body), env, blocks, resps, k, fuel) == step_done(
            EnvV { stack: env2.stack.drop_last(), vars: env2.vars },
            k2,
        ),
{
    reveal_with_fuel(spec_run_cmd, 2);
}

} // verus!
