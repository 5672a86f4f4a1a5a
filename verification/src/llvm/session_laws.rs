//! What a session asks for and what comes of it, in terms of LLVM's answers.
use vstd::prelude::*;
use vstd::utf8::encode_utf8;

use crate::brackets::balanced;
use crate::llvm::compiler::BuildError;
use crate::llvm::emit::program_code;
use crate::llvm::error::{c_string, c_string_view, quoted, CompileError, InteriorNul};
use crate::llvm::ir::Inst;
use crate::llvm::memory_buffer::SpecBuffer;
use crate::llvm::opt_level::OptLevel;
use crate::llvm::session::{judged, law_target_strings, opened, request_of, Goal, Handles, Reply,
    Request, Session, SpecReply, SpecSession, SpecVerdict, Stage, Verdict};
use crate::llvm::target::{arguments_view, machine_strings};
use crate::op::SpecOp;

verus! {

/// LLVM has done what it was asked for: there is an object where one was asked
/// for, a status of zero where there is a status, and no error where an error
/// could have come. Setting the layout, reading the buffer and calling the
/// program cannot fail. Nothing else of the answer matters.
pub open spec fn is_met<B>(request: Request<B>, reply: SpecReply) -> bool {
    match request {
        Request::CreateContext => reply.handle != 0,
        Request::BuildModule { .. } => reply.status == 0,
        Request::FindTarget => reply.status == 0,
        Request::CreateTargetMachine { .. } => reply.handle != 0,
        Request::SetLayout { .. } => true,
        Request::CreatePassOptions => reply.handle != 0,
        Request::RunPasses { .. } => reply.message is None,
        Request::EmitToMemory { .. } => reply.status == 0,
        Request::EmitToFile { .. } => reply.status == 0,
        Request::CopyObject { .. } => true,
        Request::CreateJitBuilder => reply.handle != 0,
        Request::CreateJit { .. } => reply.message is None,
        Request::AddObject { .. } => reply.message is None,
        Request::Lookup { .. } => reply.message is None,
        Request::Call { .. } => true,
        Request::DisposeJit { .. } => reply.message is None,
    }
}

/// The object code is to be handed out.
pub open spec fn hands_out(goal: Goal) -> bool {
    goal == (Goal::Memory { run: false, need_buffer: true }) || goal == (Goal::Memory {
        run: true,
        need_buffer: true,
    })
}

/// The program is to be run.
pub open spec fn runs(goal: Goal) -> bool {
    goal == (Goal::Memory { run: true, need_buffer: false }) || goal == (Goal::Memory {
        run: true,
        need_buffer: true,
    })
}

/// How many requests come before those to the JIT compiler.
pub open spec fn before_jit(goal: Goal) -> int {
    if hands_out(goal) {
        9
    } else {
        8
    }
}

/// How many requests a session makes that LLVM meets.
pub open spec fn request_count(goal: Goal) -> int {
    before_jit(goal) + if runs(goal) {
        6
    } else {
        0int
    }
}

/// The request that a session makes after `k` answers. What LLVM has handed out
/// comes back as it came.
pub open spec fn request_after(
    path: Seq<char>,
    opt: OptLevel,
    goal: Goal,
    r: Seq<SpecReply>,
    k: int,
) -> Request<Seq<u8>> {
    let j = before_jit(goal);
    if k == 0 {
        Request::CreateContext
    } else if k == 1 {
        Request::BuildModule { context: r[0].handle, name: "bf_module" }
    } else if k == 2 {
        Request::FindTarget
    } else if k == 3 {
        Request::CreateTargetMachine {
            target: r[2].handle,
            // "generic", and no features.
            cpu: seq![103u8, 101, 110, 101, 114, 105, 99, 0],
            features: seq![0u8],
            level: match opt {
                OptLevel::O0 => 0,
                OptLevel::O1 => 1,
                OptLevel::O2 => 2,
                OptLevel::O3 => 3,
            },
        }
    } else if k == 4 {
        Request::SetLayout { tm: r[3].handle }
    } else if k == 5 {
        Request::CreatePassOptions
    } else if k == 6 {
        Request::RunPasses {
            pipeline: match opt {
                OptLevel::O0 => "default<O0>",
                OptLevel::O1 => "default<O1>",
                OptLevel::O2 => "default<O2>",
                OptLevel::O3 => "default<O3>",
            },
            tm: r[3].handle,
            options: r[5].handle,
        }
    } else if k == 7 {
        if goal == Goal::File {
            Request::EmitToFile { tm: r[3].handle, path: encode_utf8(path).push(0) }
        } else {
            Request::EmitToMemory { tm: r[3].handle }
        }
    } else if k == 8 && hands_out(goal) {
        Request::CopyObject { buffer: r[7].handle }
    } else if k == j {
        Request::CreateJitBuilder
    } else if k == j + 1 {
        Request::CreateJit { builder: r[j].handle }
    } else if k == j + 2 {
        Request::AddObject { jit: r[j + 1].handle, buffer: r[7].handle }
    } else if k == j + 3 {
        Request::Lookup { jit: r[j + 1].handle, name: "main" }
    } else if k == j + 4 {
        Request::Call { entry: r[j + 3].handle }
    } else {
        Request::DisposeJit { jit: r[j + 1].handle }
    }
}

/// The buffer after `k` answers that met the requests: LLVM's, once it was
/// filled; and given away, once there is a JIT compiler to take it.
pub open spec fn buffer_at(goal: Goal, r: Seq<SpecReply>, k: int) -> SpecBuffer {
    SpecBuffer {
        address: if k > 7 && goal != Goal::File {
            r[7].handle
        } else {
            0
        },
        taken: runs(goal) && k > before_jit(goal) + 1,
    }
}

/// A session that LLVM has answered `k` times: what it was after each answer.
pub open spec fn is_run(
    ops: Seq<SpecOp>,
    path: Seq<char>,
    opt: OptLevel,
    goal: Goal,
    r: Seq<SpecReply>,
    states: Seq<SpecSession>,
    k: int,
) -> bool {
    &&& 0 <= k < states.len()
    &&& k <= r.len()
    &&& states[0] == opened(ops, path, opt, goal)
    &&& forall|i: int|
        0 <= i < k ==> #[trigger] judged(states[i], r[i]) == SpecVerdict::Go(states[i + 1])
}

/// The stage after `k` answers.
spec fn stage_at(goal: Goal, k: int) -> Stage {
    let j = before_jit(goal);
    if k == 0 {
        Stage::Context
    } else if k == 1 {
        Stage::Module
    } else if k == 2 {
        Stage::Target
    } else if k == 3 {
        Stage::Machine
    } else if k == 4 {
        Stage::Layout
    } else if k == 5 {
        Stage::Options
    } else if k == 6 {
        Stage::Passes
    } else if k == 7 {
        Stage::Emit
    } else if k == 8 && hands_out(goal) {
        Stage::Copy
    } else if k == j {
        Stage::JitBuilder
    } else if k == j + 1 {
        Stage::Jit
    } else if k == j + 2 {
        Stage::AddObject
    } else if k == j + 3 {
        Stage::Lookup
    } else if k == j + 4 {
        Stage::Call
    } else {
        Stage::DisposeJit
    }
}

spec fn handle_at(r: Seq<SpecReply>, k: int, from: int) -> usize {
    if k > from {
        r[from].handle
    } else {
        0
    }
}

/// What the session holds after `k` answers that met the requests.
spec fn state_at(
    ops: Seq<SpecOp>,
    path: Seq<char>,
    opt: OptLevel,
    goal: Goal,
    r: Seq<SpecReply>,
    k: int,
) -> SpecSession {
    let j = before_jit(goal);
    let start = opened(ops, path, opt, goal);
    SpecSession {
        stage: stage_at(goal, k),
        handles: Handles {
            context: handle_at(r, k, 0),
            target: handle_at(r, k, 2),
            tm: handle_at(r, k, 3),
            options: handle_at(r, k, 5),
            builder: if runs(goal) {
                handle_at(r, k, j)
            } else {
                0
            },
            jit: if runs(goal) {
                handle_at(r, k, j + 1)
            } else {
                0
            },
            entry: if runs(goal) {
                handle_at(r, k, j + 3)
            } else {
                0
            },
            given: if runs(goal) && k > j + 1 {
                r[7].handle
            } else {
                0
            },
        },
        buffer: buffer_at(goal, r, k),
        object: if hands_out(goal) && k > 8 {
            Some(r[8].bytes)
        } else {
            None
        },
        ..start
    }
}

/// The session can come to its end: the program's loops match, and the path of
/// an object file holds no zero.
pub open spec fn can_succeed(ops: Seq<SpecOp>, path: Seq<char>, goal: Goal) -> bool {
    balanced(ops) && (goal == Goal::File ==> !path.contains('\0'))
}

proof fn lemma_opened(ops: Seq<SpecOp>, path: Seq<char>, opt: OptLevel, goal: Goal)
    requires
        can_succeed(ops, path, goal),
    ensures
        ({
            let s = opened(ops, path, opt, goal);
            &&& s == state_at(ops, path, opt, goal, Seq::empty(), 0)
            &&& s.code == Ok::<Seq<Inst>, BuildError>(program_code(ops))
            &&& s.machine == Ok::<_, Seq<char>>(
                (seq![103u8, 101, 110, 101, 114, 105, 99, 0], seq![0u8]),
            )
            &&& goal == Goal::File ==> s.path == Ok::<_, Seq<char>>(encode_utf8(path).push(0))
            &&& s.opt == opt
            &&& s.goal == goal
        }),
{
    law_target_strings();
}

proof fn lemma_goals(goal: Goal)
    ensures
        goal == Goal::File || goal == (Goal::Memory { run: false, need_buffer: false }) || goal == (
        Goal::Memory { run: false, need_buffer: true }) || goal == (Goal::Memory {
            run: true,
            need_buffer: false,
        }) || goal == (Goal::Memory { run: true, need_buffer: true }),
{
}

proof fn lemma_request_at(
    ops: Seq<SpecOp>,
    path: Seq<char>,
    opt: OptLevel,
    goal: Goal,
    r: Seq<SpecReply>,
    k: int,
)
    requires
        can_succeed(ops, path, goal),
        0 <= k < request_count(goal),
    ensures
        request_of(state_at(ops, path, opt, goal, r, k)) == request_after(path, opt, goal, r, k),
{
    lemma_opened(ops, path, opt, goal);
    lemma_goals(goal);
}

proof fn lemma_met(
    ops: Seq<SpecOp>,
    path: Seq<char>,
    opt: OptLevel,
    goal: Goal,
    r: Seq<SpecReply>,
    k: int,
)
    requires
        can_succeed(ops, path, goal),
        0 <= k < request_count(goal),
        is_met(request_after(path, opt, goal, r, k), r[k]),
    ensures
        judged(state_at(ops, path, opt, goal, r, k), r[k]) == (if k + 1 < request_count(goal) {
            SpecVerdict::Go(state_at(ops, path, opt, goal, r, k + 1))
        } else {
            SpecVerdict::Finished(
                if hands_out(goal) {
                    Some(r[8].bytes)
                } else {
                    None
                },
                buffer_at(goal, r, k + 1),
            )
        }),
{
    lemma_opened(ops, path, opt, goal);
    lemma_goals(goal);
    assert(k == 0 || k == 1 || k == 2 || k == 3 || k == 4 || k == 5 || k == 6 || k == 7 || k == 8
        || k == 9 || k == 10 || k == 11 || k == 12 || k == 13 || k == 14);
    let s = state_at(ops, path, opt, goal, r, k);
    let t = state_at(ops, path, opt, goal, r, k + 1);
    if k + 1 < request_count(goal) {
        assert(judged(s, r[k]) is Go);
        let u = judged(s, r[k])->Go_0;
        assert(u.handles == t.handles);
        assert(u =~= t);
    }
}

proof fn lemma_run(
    ops: Seq<SpecOp>,
    path: Seq<char>,
    opt: OptLevel,
    goal: Goal,
    r: Seq<SpecReply>,
    states: Seq<SpecSession>,
    k: int,
)
    requires
        can_succeed(ops, path, goal),
        is_run(ops, path, opt, goal, r, states, k),
        k <= request_count(goal),
        forall|i: int|
            0 <= i < k ==> is_met(#[trigger] request_after(path, opt, goal, r, i), r[i]),
    ensures
        k < request_count(goal),
        states[k] == state_at(ops, path, opt, goal, r, k),
    decreases k,
{
    lemma_opened(ops, path, opt, goal);
    if k > 0 {
        lemma_run(ops, path, opt, goal, r, states, k - 1);
        assert(is_met(request_after(path, opt, goal, r, k - 1), r[k - 1]));
        lemma_met(ops, path, opt, goal, r, k - 1);
        assert(judged(states[k - 1], r[k - 1]) == SpecVerdict::Go(states[k - 1 + 1]));
    } else {
        assert(states[0] =~= state_at(ops, path, opt, goal, r, 0));
    }
}

/// Along a session, each request is the one that is due, for the level that was
/// asked for and with what LLVM handed out in answer to the requests before; and
/// an answer that meets it leads on, or, after the last request, to the end,
/// where the bytes that were read from the buffer are handed out as they are, if
/// that was wanted. No answer that meets a request ends a session early, whatever
/// else it holds.
pub proof fn law_met_requests_lead_to_the_end(
    ops: Seq<SpecOp>,
    path: Seq<char>,
    opt: OptLevel,
    goal: Goal,
    r: Seq<SpecReply>,
    states: Seq<SpecSession>,
    k: int,
)
    requires
        can_succeed(ops, path, goal),
        is_run(ops, path, opt, goal, r, states, k),
        k <= request_count(goal),
        k < r.len(),
        forall|i: int|
            0 <= i < k ==> is_met(#[trigger] request_after(path, opt, goal, r, i), r[i]),
    ensures
        k < request_count(goal),
        request_of(states[k]) == request_after(path, opt, goal, r, k),
        is_met(request_after(path, opt, goal, r, k), r[k]) ==> match judged(states[k], r[k]) {
            SpecVerdict::Go(next) => k + 1 < request_count(goal) && request_of(next)
                == request_after(path, opt, goal, r, k + 1),
            SpecVerdict::Finished(object, buffer) => {
                &&& k + 1 == request_count(goal)
                &&& object == (if hands_out(goal) {
                    Some(r[8].bytes)
                } else {
                    None
                })
                &&& buffer == buffer_at(goal, r, k + 1)
            },
            SpecVerdict::Failed(_, _, _) => false,
        },
        !is_met(request_after(path, opt, goal, r, k), r[k]) ==> judged(states[k], r[k]) is Failed,
{
    lemma_run(ops, path, opt, goal, r, states, k);
    lemma_request_at(ops, path, opt, goal, r, k);
    if is_met(request_after(path, opt, goal, r, k), r[k]) {
        lemma_met(ops, path, opt, goal, r, k);
        if k + 1 < request_count(goal) {
            lemma_request_at(ops, path, opt, goal, r, k + 1);
        }
    } else {
        lemma_opened(ops, path, opt, goal);
        law_unmet_request_is_told(states[k], r[k]);
    }
}

/// What is said when a request is not met.
pub open spec fn complaint<B>(request: Request<B>, goal: Goal) -> &'static str {
    match request {
        Request::CreateContext => "failed to create LLVM context",
        Request::BuildModule { .. } => "LLVM module verification failed",
        Request::FindTarget => if goal == Goal::File {
            "failed to get target from triple"
        } else {
            "failed to get LLVM target from triple"
        },
        Request::CreateTargetMachine { .. } => "failed to create target machine",
        Request::SetLayout { .. } => "",
        Request::CreatePassOptions => "failed to create LLVM pass builder options",
        Request::RunPasses { .. } => "failed to run LLVM optimization passes",
        Request::EmitToMemory { .. } => "failed to emit object file",
        Request::EmitToFile { .. } => "failed to emit object file",
        Request::CopyObject { .. } => "",
        Request::CreateJitBuilder => "failed to create LLVM JIT builder",
        Request::CreateJit { .. } => "failed to create LLVM JIT",
        Request::AddObject { .. } => "failed to add object file to LLVM JIT",
        Request::Lookup { .. } => "failed to lookup main function in LLVM JIT",
        Request::Call { .. } => "",
        Request::DisposeJit { .. } => "failed to dispose LLVM JIT",
    }
}

/// What LLVM says of a request that it has not met: its own words, where it can
/// have any; and where a status tells of the failure and there are none, that
/// the error is unknown.
pub open spec fn words<B>(request: Request<B>, reply: SpecReply) -> Option<Seq<char>> {
    match request {
        Request::FindTarget | Request::EmitToMemory { .. } | Request::EmitToFile { .. } =>
            if reply.message is Some {
                reply.message
            } else {
                Some("unknown LLVM error"@)
            },
        Request::RunPasses { .. } => reply.message,
        Request::CreateJit { .. } => reply.message,
        Request::AddObject { .. } => reply.message,
        Request::Lookup { .. } => reply.message,
        Request::DisposeJit { .. } => reply.message,
        _ => None,
    }
}

/// In whatever state a session is, a request that LLVM does not meet ends it,
/// with an error that says which request it was, and with LLVM's words.
pub proof fn law_unmet_request_is_told(s: SpecSession, reply: SpecReply)
    requires
        s.machine is Ok,
        !is_met(request_of(s), reply),
    ensures
        match judged(s, reply) {
            SpecVerdict::Failed(cause, detail, buffer) => {
                &&& cause.spec_text() == complaint(request_of(s), s.goal)
                &&& detail == words(request_of(s), reply)
                &&& buffer.taken == s.buffer.taken
                &&& buffer.address == (if request_of(s) is EmitToMemory {
                    reply.handle
                } else {
                    s.buffer.address
                })
            },
            _ => false,
        },
{
}

/// In whatever state a session is, an answer that meets the request does not end
/// it with an error, unless the next thing to do has no form that LLVM takes: a
/// program whose loops do not match, before the module is built; a processor
/// with a zero in its name; a path with a zero, before a file is emitted.
pub proof fn law_met_request_is_accepted(s: SpecSession, reply: SpecReply)
    requires
        is_met(request_of(s), reply),
    ensures
        judged(s, reply) is Failed <==> {
            ||| request_of(s) is CreateContext && s.code is Err
            ||| (request_of(s) is FindTarget || request_of(s) is CreateTargetMachine)
                && s.machine is Err
            ||| request_of(s) is RunPasses && s.goal == Goal::File && s.path is Err
        },
        judged(s, reply) matches SpecVerdict::Failed(cause, detail, buffer) ==> {
            &&& buffer == s.buffer
            &&& request_of(s) is CreateContext ==> detail is None && cause.spec_text() == (
            if s.code == Err::<Seq<Inst>, _>(BuildError::LoopMismatch) {
                "internal loop mismatch"
            } else {
                "internal loop stack not empty"
            })
            &&& !(request_of(s) is CreateContext) ==> cause.spec_text()
                == "string contains interior NUL"
            &&& request_of(s) is RunPasses ==> detail == Some(s.path->Err_0)
            &&& request_of(s) is FindTarget ==> detail == Some(s.machine->Err_0)
        },
{
}

/// What a session is opened with.
pub proof fn law_opened_session(ops: Seq<SpecOp>, path: Seq<char>, opt: OptLevel, goal: Goal)
    ensures
        ({
            let s = opened(ops, path, opt, goal);
            &&& request_of(s) is CreateContext
            &&& s.opt == opt
            &&& s.goal == goal
            &&& s.object is None
            &&& s.buffer.address == 0
            &&& !s.buffer.taken
            &&& s.code is Ok <==> balanced(ops)
            &&& s.code matches Ok(code) ==> code == program_code(ops)
            &&& path.contains('\0') ==> s.path == Err::<Seq<u8>, _>(quoted(path))
            &&& !path.contains('\0') ==> s.path == Ok::<_, Seq<char>>(encode_utf8(path).push(0))
        }),
{
}

/// What answers, sessions and verdicts are taken to say is what they hold.
pub proof fn law_views_hold_all(
    reply: Reply,
    session: Session,
    verdict: Verdict,
    request: Request<Vec<u8>>,
)
    ensures
        reply@.handle == reply.handle,
        reply@.status == reply.status,
        reply@.bytes == reply.bytes@,
        reply.message is None <==> reply@.message is None,
        reply.message matches Some(text) ==> reply@.message == Some(text@),
        session@.opt == session.opt,
        session@.goal == session.goal,
        session@.stage == session.stage,
        session@.handles == session.handles,
        session@.buffer == session.buffer@,
        session.code matches Ok(code) ==> session@.code == Ok::<_, BuildError>(code@),
        session.code matches Err(error) ==> session@.code == Err::<Seq<Inst>, _>(error),
        session.path matches Ok(path) ==> session@.path == Ok::<_, Seq<char>>(path@),
        session.path matches Err(error) ==> session@.path == Err::<Seq<u8>, _>(error.quoted@),
        session.object matches Some(object) ==> session@.object == Some(object@),
        session.object is None ==> session@.object is None,
        verdict matches Verdict::Go(next) ==> verdict@ == SpecVerdict::Go(next@),
        verdict matches Verdict::Finished(Some(object), buffer) ==> verdict@
            == SpecVerdict::Finished(Some(object@), buffer@),
        verdict matches Verdict::Finished(None, buffer) ==> verdict@ == SpecVerdict::Finished(
            None,
            buffer@,
        ),
        verdict matches Verdict::Failed(CompileError { cause, detail: Some(detail) }, buffer)
            ==> verdict@ == SpecVerdict::Failed(cause, Some(detail@), buffer@),
        verdict matches Verdict::Failed(CompileError { cause, detail: None }, buffer) ==> verdict@
            == SpecVerdict::Failed(cause, None, buffer@),
{
}

/// What requests are taken to say is what they hold.
pub proof fn law_request_view_holds_all(request: Request<Vec<u8>>)
    ensures
        request is CreateContext <==> request@ is CreateContext,
        request matches Request::BuildModule { context, name } ==> request@ == (
        Request::<Seq<u8>>::BuildModule { context, name }),
        request is FindTarget <==> request@ is FindTarget,
        request matches Request::CreateTargetMachine { target, cpu, features, level } ==> request@
            == (Request::CreateTargetMachine { target, cpu: cpu@, features: features@, level }),
        request matches Request::SetLayout { tm } ==> request@ == (Request::<Seq<u8>>::SetLayout {
            tm,
        }),
        request is CreatePassOptions <==> request@ is CreatePassOptions,
        request matches Request::RunPasses { pipeline, tm, options } ==> request@ == (
        Request::<Seq<u8>>::RunPasses { pipeline, tm, options }),
        request matches Request::EmitToMemory { tm } ==> request@ == (
        Request::<Seq<u8>>::EmitToMemory { tm }),
        request matches Request::EmitToFile { tm, path } ==> request@ == (Request::EmitToFile {
            tm,
            path: path@,
        }),
        request matches Request::CopyObject { buffer } ==> request@ == (
        Request::<Seq<u8>>::CopyObject { buffer }),
        request is CreateJitBuilder <==> request@ is CreateJitBuilder,
        request matches Request::CreateJit { builder } ==> request@ == (
        Request::<Seq<u8>>::CreateJit { builder }),
        request matches Request::AddObject { jit, buffer } ==> request@ == (
        Request::<Seq<u8>>::AddObject { jit, buffer }),
        request matches Request::Lookup { jit, name } ==> request@ == (Request::<Seq<u8>>::Lookup {
            jit,
            name,
        }),
        request matches Request::Call { entry } ==> request@ == (Request::<Seq<u8>>::Call {
            entry,
        }),
        request matches Request::DisposeJit { jit } ==> request@ == (
        Request::<Seq<u8>>::DisposeJit { jit }),
{
}

/// A string for C is the string's bytes and a zero byte, and there is one if and
/// only if the string has no zero; if not, the string is told in quotes. The
/// processor is looked at before its features.
pub proof fn law_strings_for_c(
    s: Seq<char>,
    features: Seq<char>,
    made: Result<Vec<u8>, InteriorNul>,
    pair: Result<(Vec<u8>, Vec<u8>), InteriorNul>,
)
    ensures
        s.contains('\0') ==> c_string(s) == Err::<Seq<u8>, _>(quoted(s)),
        !s.contains('\0') ==> c_string(s) == Ok::<_, Seq<char>>(encode_utf8(s).push(0)),
        s.contains('\0') ==> machine_strings(s, features) == Err::<(Seq<u8>, Seq<u8>), _>(
            quoted(s),
        ),
        !s.contains('\0') && features.contains('\0') ==> machine_strings(s, features) == Err::<
            (Seq<u8>, Seq<u8>),
            _,
        >(quoted(features)),
        !s.contains('\0') && !features.contains('\0') ==> machine_strings(s, features) == Ok::<
            _,
            Seq<char>,
        >((encode_utf8(s).push(0), encode_utf8(features).push(0))),
        made matches Ok(bytes) ==> c_string_view(made) == Ok::<_, Seq<char>>(bytes@),
        made matches Err(error) ==> c_string_view(made) == Err::<Seq<u8>, _>(error.quoted@),
        pair matches Ok((a, b)) ==> arguments_view(pair) == Ok::<_, Seq<char>>((a@, b@)),
        pair matches Err(error) ==> arguments_view(pair) == Err::<(Seq<u8>, Seq<u8>), _>(
            error.quoted@,
        ),
{
}

} // verus!
